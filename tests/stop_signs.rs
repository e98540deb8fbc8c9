use control::{
    road_rank, validate, ControlStopSign, EditError, Intersection, IntersectionID, Lane, LaneID,
    Road, RoadID, RoadMap, Turn, TurnID, TurnPriority, TurnType, ValidationError,
};

fn tid(src: usize, dst: usize) -> TurnID {
    TurnID { parent: IntersectionID(0), src: LaneID(src), dst: LaneID(dst) }
}

fn turn(src: usize, dst: usize, turn_type: TurnType) -> Turn {
    Turn { id: tid(src, dst), turn_type }
}

fn road(tag: Option<&str>) -> Road {
    Road { highway: tag.map(|t| t.to_string()) }
}

/// A map with one intersection. Road `r` owns incoming lane `r` and outgoing lane
/// `n + r`, where `n` is the number of roads.
fn one_intersection(
    tags: Vec<Option<&str>>,
    turns: Vec<Turn>,
    conflicts: Vec<(TurnID, TurnID)>,
) -> RoadMap {
    let n = tags.len();
    let roads: Vec<Road> = tags.into_iter().map(road).collect();
    let mut lanes = Vec::new();
    for r in 0..n {
        lanes.push(Lane { parent: RoadID(r) });
    }
    for r in 0..n {
        lanes.push(Lane { parent: RoadID(r) });
    }
    let inter = Intersection {
        roads: (0..n).map(RoadID).collect(),
        incoming_lanes: (0..n).map(LaneID).collect(),
        outgoing_lanes: (n..2 * n).map(LaneID).collect(),
        turns,
        conflicts,
        has_traffic_signal: false,
    };
    RoadMap { roads, lanes, intersections: vec![inter] }
}

/// Turns are listed in increasing identifier order, as the map model keeps them.
/// A four-way crossing of a primary road (roads 0 and 2) and a residential one
/// (roads 1 and 3). Incoming lane `r`, outgoing lane `4 + r`.
fn primary_crossing_residential() -> RoadMap {
    let turns = vec![
        turn(0, 5, TurnType::Left),
        turn(0, 6, TurnType::Straight),
        turn(0, 7, TurnType::Right),
        turn(1, 4, TurnType::Right),
        turn(1, 6, TurnType::Left),
        turn(1, 7, TurnType::Straight),
        turn(2, 4, TurnType::Straight),
        turn(2, 5, TurnType::Right),
        turn(2, 7, TurnType::Left),
        turn(3, 4, TurnType::Left),
        turn(3, 5, TurnType::Straight),
        turn(3, 6, TurnType::Right),
    ];
    let conflicts = vec![
        (tid(0, 5), tid(2, 4)),
        (tid(2, 7), tid(0, 6)),
        (tid(0, 7), tid(2, 7)),
        (tid(2, 5), tid(0, 5)),
        (tid(1, 7), tid(0, 6)),
        (tid(3, 5), tid(2, 4)),
    ];
    one_intersection(
        vec![Some("primary"), Some("residential"), Some("primary"), Some("residential")],
        turns,
        conflicts,
    )
}

fn priority_of(ss: &ControlStopSign, src: usize, dst: usize) -> TurnPriority {
    ss.get_priority(tid(src, dst))
}

#[test]
fn ordering() {
    assert!(TurnPriority::Priority > TurnPriority::Yield);
}

#[test]
fn priorities_are_totally_ordered() {
    assert!(TurnPriority::Stop < TurnPriority::Yield);
    assert!(TurnPriority::Yield < TurnPriority::Priority);
    assert!(TurnPriority::Stop < TurnPriority::Priority);
    assert!(!(TurnPriority::Yield < TurnPriority::Yield));
    assert_eq!(TurnPriority::Stop.level(), 0);
    assert_eq!(TurnPriority::Yield.level(), 1);
    assert_eq!(TurnPriority::Priority.level(), 2);
}

#[test]
fn rank_table() {
    assert_eq!(road_rank(Some("motorway")).unwrap(), 20);
    assert_eq!(road_rank(Some("motorway_link")).unwrap(), 19);
    assert_eq!(road_rank(Some("trunk")).unwrap(), 17);
    assert_eq!(road_rank(Some("trunk_link")).unwrap(), 16);
    assert_eq!(road_rank(Some("primary")).unwrap(), 15);
    assert_eq!(road_rank(Some("primary_link")).unwrap(), 14);
    assert_eq!(road_rank(Some("secondary")).unwrap(), 13);
    assert_eq!(road_rank(Some("secondary_link")).unwrap(), 12);
    assert_eq!(road_rank(Some("tertiary")).unwrap(), 10);
    assert_eq!(road_rank(Some("tertiary_link")).unwrap(), 9);
    assert_eq!(road_rank(Some("residential")).unwrap(), 5);
    assert_eq!(road_rank(Some("footway")).unwrap(), 1);
    assert_eq!(road_rank(Some("unclassified")).unwrap(), 0);
    assert_eq!(road_rank(Some("road")).unwrap(), 0);
    assert_eq!(road_rank(Some("")).unwrap(), 0);
    assert_eq!(road_rank(None).unwrap(), 0);
}

#[test]
fn unknown_tag_is_an_error() {
    let err = road_rank(Some("motorwayy")).unwrap_err();
    assert_eq!(err.tag, "motorwayy");
    assert!(road_rank(Some("Primary")).is_err());
}

#[test]
fn degenerate_straight_and_crosswalk() {
    let map = one_intersection(
        vec![Some("primary"), Some("residential")],
        vec![turn(0, 3, TurnType::Straight), turn(1, 1, TurnType::Crosswalk)],
        vec![(tid(0, 3), tid(1, 1))],
    );
    let ss = ControlStopSign::new(&map, IntersectionID(0)).unwrap();
    assert_eq!(priority_of(&ss, 0, 3), TurnPriority::Priority);
    assert_eq!(priority_of(&ss, 1, 1), TurnPriority::Stop);
    assert_eq!(ss.entries().len(), 2);
    assert!(!ss.is_changed());
}

#[test]
fn degenerate_conflict_falls_back_to_all_way_stop() {
    let map = one_intersection(
        vec![None, None],
        vec![turn(0, 3, TurnType::Straight), turn(1, 2, TurnType::Straight)],
        vec![(tid(1, 2), tid(0, 3))],
    );
    let ss = ControlStopSign::new(&map, IntersectionID(0)).unwrap();
    assert_eq!(priority_of(&ss, 0, 3), TurnPriority::Stop);
    assert_eq!(priority_of(&ss, 1, 2), TurnPriority::Stop);
}

#[test]
fn degenerate_ignores_unknown_tags() {
    let map = one_intersection(
        vec![Some("bogus"), Some("bogus")],
        vec![turn(0, 3, TurnType::Straight)],
        vec![],
    );
    let ss = ControlStopSign::new(&map, IntersectionID(0)).unwrap();
    assert_eq!(priority_of(&ss, 0, 3), TurnPriority::Priority);
}

#[test]
fn uniform_residential_is_all_way_stop() {
    let turns = vec![
        turn(0, 6, TurnType::Straight),
        turn(0, 7, TurnType::Right),
        turn(1, 7, TurnType::Straight),
        turn(2, 4, TurnType::Straight),
        turn(3, 5, TurnType::Straight),
    ];
    let map = one_intersection(vec![Some("residential"); 4], turns, vec![]);
    let ss = ControlStopSign::new(&map, IntersectionID(0)).unwrap();
    let entries = ss.entries();
    assert_eq!(entries.len(), 5);
    for (_, p) in entries {
        assert_eq!(p, TurnPriority::Stop);
    }
}

#[test]
fn ranked_primary_over_residential() {
    let map = primary_crossing_residential();
    let ss = ControlStopSign::new(&map, IntersectionID(0)).unwrap();
    // Primary approaches: straight and right turns go first, left turns yield.
    assert_eq!(priority_of(&ss, 0, 5), TurnPriority::Yield);
    assert_eq!(priority_of(&ss, 0, 6), TurnPriority::Priority);
    assert_eq!(priority_of(&ss, 0, 7), TurnPriority::Priority);
    assert_eq!(priority_of(&ss, 2, 7), TurnPriority::Yield);
    assert_eq!(priority_of(&ss, 2, 4), TurnPriority::Priority);
    assert_eq!(priority_of(&ss, 2, 5), TurnPriority::Priority);
    // Residential approaches stop.
    for (src, dst) in [(1, 6), (1, 7), (1, 4), (3, 4), (3, 5), (3, 6)] {
        assert_eq!(priority_of(&ss, src, dst), TurnPriority::Stop);
    }
    assert!(ss.is_priority_lane(LaneID(0)));
    assert!(ss.is_priority_lane(LaneID(2)));
    assert!(!ss.is_priority_lane(LaneID(1)));
    assert!(!ss.is_priority_lane(LaneID(3)));
}

#[test]
fn ranked_skips_conflicting_straight_turns() {
    // Two primary straights that cross: the first in identifier order wins.
    let turns = vec![
        turn(0, 6, TurnType::Straight),
        turn(1, 7, TurnType::Straight),
        turn(2, 4, TurnType::Straight),
    ];
    let map = one_intersection(
        vec![Some("primary"), Some("residential"), Some("primary"), Some("residential")],
        turns,
        vec![(tid(0, 6), tid(2, 4))],
    );
    let ss = ControlStopSign::new(&map, IntersectionID(0)).unwrap();
    assert_eq!(priority_of(&ss, 0, 6), TurnPriority::Priority);
    assert_eq!(priority_of(&ss, 2, 4), TurnPriority::Yield);
    assert_eq!(priority_of(&ss, 1, 7), TurnPriority::Stop);
}

#[test]
fn ranked_with_unknown_tag_fails() {
    let map = one_intersection(
        vec![Some("primary"), Some("dirt_track"), Some("primary")],
        vec![turn(0, 5, TurnType::Straight)],
        vec![],
    );
    let err = ControlStopSign::new(&map, IntersectionID(0)).unwrap_err();
    assert_eq!(err.tag, "dirt_track");
}

#[test]
fn assignment_is_deterministic() {
    let map = primary_crossing_residential();
    let a = ControlStopSign::new(&map, IntersectionID(0)).unwrap();
    let b = ControlStopSign::new(&map, IntersectionID(0)).unwrap();
    assert_eq!(a.entries(), b.entries());
    assert_eq!(a.intersection(), IntersectionID(0));
}

#[test]
fn entries_follow_turn_order() {
    let map = primary_crossing_residential();
    let ss = ControlStopSign::new(&map, IntersectionID(0)).unwrap();
    let keys: Vec<TurnID> = ss.entries().iter().map(|e| e.0).collect();
    let ids: Vec<TurnID> = map.intersections[0].turns.iter().map(|t| t.id).collect();
    assert_eq!(keys, ids);
}

#[test]
fn generated_priority_turns_never_conflict() {
    let map = primary_crossing_residential();
    let ss = ControlStopSign::new(&map, IntersectionID(0)).unwrap();
    let inter = &map.intersections[0];
    let entries = ss.entries();
    assert_eq!(validate(&entries, inter), Ok(()));
    for (a, pa) in &entries {
        for (b, pb) in &entries {
            if *pa == TurnPriority::Priority && *pb == TurnPriority::Priority {
                assert!(!inter.conflicts_with(*a, *b));
            }
        }
    }
}

#[test]
fn conflicting_priority_edit_is_rejected() {
    let map = primary_crossing_residential();
    let mut ss = ControlStopSign::new(&map, IntersectionID(0)).unwrap();
    let before = ss.entries();
    // (1, 7) crosses the priority straight (0, 6).
    assert!(!ss.could_be_priority_turn(tid(1, 7), &map));
    assert_eq!(
        ss.set_priority(tid(1, 7), TurnPriority::Priority, &map),
        Err(EditError::ConflictingPriority)
    );
    assert_eq!(ss.entries(), before);
    assert!(!ss.is_changed());
}

#[test]
fn unknown_turn_edit_is_rejected() {
    let map = primary_crossing_residential();
    let mut ss = ControlStopSign::new(&map, IntersectionID(0)).unwrap();
    let before = ss.entries();
    assert_eq!(
        ss.set_priority(tid(0, 4), TurnPriority::Stop, &map),
        Err(EditError::UnknownTurn)
    );
    assert_eq!(ss.entries(), before);
    assert!(!ss.is_changed());
}

#[test]
fn accepted_edit_marks_policy_changed_for_good() {
    let map = primary_crossing_residential();
    let mut ss = ControlStopSign::new(&map, IntersectionID(0)).unwrap();
    assert!(!ss.is_changed());
    // A priority turn may be made priority again: it does not conflict with itself.
    assert!(ss.could_be_priority_turn(tid(0, 6), &map));
    assert_eq!(ss.set_priority(tid(1, 4), TurnPriority::Yield, &map), Ok(()));
    assert_eq!(priority_of(&ss, 1, 4), TurnPriority::Yield);
    assert!(ss.is_priority_lane(LaneID(1)));
    assert!(ss.is_changed());
    assert_eq!(
        ss.set_priority(tid(1, 7), TurnPriority::Priority, &map),
        Err(EditError::ConflictingPriority)
    );
    assert!(ss.is_changed());
    // Restoring the assigned value still counts as edited.
    assert_eq!(ss.set_priority(tid(1, 4), TurnPriority::Stop, &map), Ok(()));
    assert!(ss.is_changed());
}

#[test]
fn edit_to_priority_when_free() {
    let map = primary_crossing_residential();
    let mut ss = ControlStopSign::new(&map, IntersectionID(0)).unwrap();
    // (3, 6) conflicts with no turn at all.
    assert!(ss.could_be_priority_turn(tid(3, 6), &map));
    assert_eq!(ss.set_priority(tid(3, 6), TurnPriority::Priority, &map), Ok(()));
    assert_eq!(priority_of(&ss, 3, 6), TurnPriority::Priority);
    assert!(ss.is_priority_lane(LaneID(3)));
}

#[test]
fn validate_reports_missing_turns() {
    let map = primary_crossing_residential();
    let inter = &map.intersections[0];
    let entries = vec![(tid(0, 6), TurnPriority::Priority)];
    assert_eq!(validate(&entries, inter), Err(ValidationError::IncompleteCoverage));
    let mut wrong: Vec<(TurnID, TurnPriority)> =
        inter.turns.iter().map(|t| (t.id, TurnPriority::Stop)).collect();
    wrong[11].0 = tid(9, 9);
    assert_eq!(validate(&wrong, inter), Err(ValidationError::IncompleteCoverage));
}

#[test]
fn validate_reports_first_conflicting_pair() {
    let map = primary_crossing_residential();
    let inter = &map.intersections[0];
    let entries: Vec<(TurnID, TurnPriority)> =
        inter.turns.iter().map(|t| (t.id, TurnPriority::Priority)).collect();
    assert_eq!(
        validate(&entries, inter),
        Err(ValidationError::ConflictingPriorities { first: tid(0, 5), second: tid(2, 4) })
    );
}

#[test]
fn conflicts_are_symmetric_and_never_reflexive() {
    let map = primary_crossing_residential();
    let inter = &map.intersections[0];
    assert!(inter.conflicts_with(tid(0, 5), tid(2, 4)));
    assert!(inter.conflicts_with(tid(2, 4), tid(0, 5)));
    assert!(!inter.conflicts_with(tid(0, 5), tid(0, 5)));
    assert!(!inter.conflicts_with(tid(0, 6), tid(2, 4)));
}

#[test]
fn saved_state_round_trips() {
    let map = primary_crossing_residential();
    let mut ss = ControlStopSign::new(&map, IntersectionID(0)).unwrap();
    assert_eq!(ss.set_priority(tid(3, 6), TurnPriority::Yield, &map), Ok(()));
    let back =
        ControlStopSign::restore(&map, ss.intersection(), ss.entries(), ss.is_changed()).unwrap();
    assert_eq!(back.entries(), ss.entries());
    assert!(back.is_changed());
    assert_eq!(back.intersection(), IntersectionID(0));
}

#[test]
fn saved_state_out_of_order_is_refused() {
    let map = primary_crossing_residential();
    let ss = ControlStopSign::new(&map, IntersectionID(0)).unwrap();
    let mut entries = ss.entries();
    entries.swap(0, 1);
    assert_eq!(
        ControlStopSign::restore(&map, IntersectionID(0), entries, false).unwrap_err(),
        ValidationError::IncompleteCoverage
    );
}

#[test]
fn saved_state_with_conflict_is_refused() {
    let map = primary_crossing_residential();
    let ss = ControlStopSign::new(&map, IntersectionID(0)).unwrap();
    let mut entries = ss.entries();
    // (1, 7) crosses the priority straight (0, 6).
    entries[5].1 = TurnPriority::Priority;
    assert_eq!(
        ControlStopSign::restore(&map, IntersectionID(0), entries, true).unwrap_err(),
        ValidationError::ConflictingPriorities { first: tid(0, 6), second: tid(1, 7) }
    );
}

#[test]
fn degenerate_crosswalk_listed_first() {
    let map = one_intersection(
        vec![Some("residential"), Some("residential")],
        vec![turn(0, 0, TurnType::Crosswalk), turn(0, 3, TurnType::Straight)],
        vec![(tid(0, 0), tid(0, 3))],
    );
    let ss = ControlStopSign::new(&map, IntersectionID(0)).unwrap();
    assert_eq!(priority_of(&ss, 0, 0), TurnPriority::Stop);
    assert_eq!(priority_of(&ss, 0, 3), TurnPriority::Priority);
}
