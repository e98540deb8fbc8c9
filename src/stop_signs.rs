use vstd::prelude::*;
use crate::map::{Intersection, IntersectionID, LaneID, Road, RoadMap, Turn, TurnID, TurnType};
use crate::priority::TurnPriority;
use crate::rank::{lane_rank, lane_rank_of, tag_rank, ClassificationError};

verus! {

/// A turn-to-priority mapping, kept in the order of the intersection's turns.
pub type Entries = Vec<(TurnID, TurnPriority)>;

/// Why a candidate mapping is not acceptable for an intersection.
#[derive(Debug, Clone, Copy, PartialEq, Eq, Structural)]
pub enum ValidationError {
    /// The mapping does not hold exactly the intersection's turns.
    IncompleteCoverage,
    /// Two priority turns conflict: the first such pair, in mapping order.
    ConflictingPriorities { first: TurnID, second: TurnID },
}

/// Whether a mapping has an entry for turn `t`.
pub open spec fn has_key(entries: Seq<(TurnID, TurnPriority)>, t: TurnID) -> bool {
    exists|j: int| 0 <= j < entries.len() && (#[trigger] entries[j]).0 == t
}

/// Whether a mapping holds exactly the intersection's turns: one entry per turn.
pub open spec fn covers(entries: Seq<(TurnID, TurnPriority)>, inter: Intersection) -> bool {
    &&& entries.len() == inter.turns@.len()
    &&& forall|k: int| 0 <= k < inter.turns@.len() ==> has_key(entries, #[trigger] inter.turns@[k].id)
}

/// Whether entries `j` and `k` are both priority turns that conflict.
pub open spec fn clashes(entries: Seq<(TurnID, TurnPriority)>, inter: Intersection, j: int, k: int) -> bool {
    &&& entries[j].1 == TurnPriority::Priority
    &&& entries[k].1 == TurnPriority::Priority
    &&& inter.conflict(entries[j].0, entries[k].0)
}

/// Whether no two priority turns of a mapping conflict.
pub open spec fn safe(entries: Seq<(TurnID, TurnPriority)>, inter: Intersection) -> bool {
    forall|j: int, k: int|
        0 <= j < k < entries.len() ==> !#[trigger] clashes(entries, inter, j, k)
}

/// Whether turn `t` conflicts with none of the priority turns of a mapping.
pub open spec fn compatible(entries: Seq<(TurnID, TurnPriority)>, inter: Intersection, t: TurnID) -> bool {
    forall|j: int|
        0 <= j < entries.len() && (#[trigger] entries[j]).1 == TurnPriority::Priority
            ==> !inter.conflict(entries[j].0, t)
}

/// Whether the pair of turns `(a, b)` comes before the pair `(a2, b2)` in identifier
/// order: by first turn, then by second.
pub open spec fn pair_before(a: TurnID, b: TurnID, a2: TurnID, b2: TurnID) -> bool {
    a.spec_lt(a2) || (a == a2 && b.spec_lt(b2))
}

/// Checks that a candidate mapping, kept in turn identifier order, holds exactly the
/// intersection's turns, then that no two of its priority turns conflict. A conflict
/// is reported by its first pair in identifier order.
pub fn validate(entries: &Entries, inter: &Intersection) -> (r: Result<(), ValidationError>)
    requires
        sorted_keys(entries@),
    ensures
        r is Ok <==> covers(entries@, *inter) && safe(entries@, *inter),
        r == Err::<(), ValidationError>(ValidationError::IncompleteCoverage) <==> !covers(
            entries@,
            *inter,
        ),
        r matches Err(ValidationError::ConflictingPriorities { first, second }) ==> first.spec_lt(
            second,
        ) && exists|j: int, k: int|
            0 <= j < k < entries@.len() && entries@[j].0 == first && entries@[k].0 == second
                && clashes(entries@, *inter, j, k) && forall|j2: int, k2: int|
                0 <= j2 < k2 < entries@.len() && pair_before(
                    entries@[j2].0,
                    entries@[k2].0,
                    first,
                    second,
                ) ==> !clashes(entries@, *inter, j2, k2),
{
    if entries.len() != inter.turns.len() {
        return Err(ValidationError::IncompleteCoverage);
    }
    let mut k: usize = 0;
    while k < inter.turns.len()
        invariant
            k <= inter.turns@.len(),
            entries@.len() == inter.turns@.len(),
            forall|k2: int| 0 <= k2 < k ==> has_key(entries@, #[trigger] inter.turns@[k2].id),
        decreases inter.turns@.len() - k,
    {
        let t = inter.turns[k].id;
        let mut j: usize = 0;
        let mut found = false;
        while j < entries.len()
            invariant
                j <= entries@.len(),
                k < inter.turns@.len(),
                entries@.len() == inter.turns@.len(),
                forall|k2: int| 0 <= k2 < k ==> has_key(entries@, #[trigger] inter.turns@[k2].id),
                t == inter.turns@[k as int].id,
                found <==> exists|j2: int| 0 <= j2 < j && (#[trigger] entries@[j2]).0 == t,
            decreases entries@.len() - j,
        {
            if entries[j].0 == t {
                found = true;
            }
            j += 1;
        }
        if !found {
            assert(!covers(entries@, *inter)) by {
                if covers(entries@, *inter) {
                    assert(has_key(entries@, inter.turns@[k as int].id));
                }
            }
            return Err(ValidationError::IncompleteCoverage);
        }
        k += 1;
    }
    assert(covers(entries@, *inter));
    let mut j: usize = 0;
    while j < entries.len()
        invariant
            j <= entries@.len(),
            sorted_keys(entries@),
            covers(entries@, *inter),
            forall|j2: int, k2: int|
                0 <= j2 < k2 < entries@.len() && j2 < j ==> !#[trigger] clashes(entries@, *inter, j2, k2),
        decreases entries@.len() - j,
    {
        if entries[j].1 == TurnPriority::Priority {
            let mut k: usize = j + 1;
            while k < entries.len()
                invariant
                    j < k <= entries@.len(),
                    sorted_keys(entries@),
                    covers(entries@, *inter),
                    entries@[j as int].1 == TurnPriority::Priority,
                    forall|j2: int, k2: int|
                        0 <= j2 < k2 < entries@.len() && j2 < j ==> !#[trigger] clashes(entries@, *inter, j2, k2),
                    forall|k2: int| j < k2 < k ==> !#[trigger] clashes(entries@, *inter, j as int, k2),
                decreases entries@.len() - k,
            {
                if entries[k].1 == TurnPriority::Priority && inter.conflicts_with(entries[j].0, entries[k].0) {
                    assert(clashes(entries@, *inter, j as int, k as int));
                    assert forall|j2: int, k2: int|
                        0 <= j2 < k2 < entries@.len() && pair_before(
                            entries@[j2].0,
                            entries@[k2].0,
                            entries@[j as int].0,
                            entries@[k as int].0,
                        ) implies !clashes(entries@, *inter, j2, k2) by {
                        if j2 >= j {
                            if j2 > j {
                                assert(entries@[j as int].0.spec_lt(entries@[j2].0));
                            } else if k2 > k {
                                assert(entries@[k as int].0.spec_lt(entries@[k2].0));
                            } else if k2 == k {
                            }
                        }
                    }
                    return Err(ValidationError::ConflictingPriorities { first: entries[j].0, second: entries[k].0 });
                }
                k += 1;
            }
        }
        j += 1;
    }
    Ok(())
}

/// The turn each entry of a mapping is for, in mapping order.
pub open spec fn keys(entries: Seq<(TurnID, TurnPriority)>) -> Seq<TurnID> {
    Seq::new(entries.len(), |k: int| entries[k].0)
}

/// Whether a mapping is kept in strictly increasing order of turn identifier, as a
/// map keyed by turn identifier is; no turn then has two entries.
pub open spec fn sorted_keys(entries: Seq<(TurnID, TurnPriority)>) -> bool {
    forall|j: int, k: int|
        0 <= j < k < entries.len() ==> (#[trigger] entries[j]).0.spec_lt((#[trigger] entries[k]).0)
}

/// Every turn of the intersection mapped to `Stop`: the all-way stop.
pub open spec fn all_stop_entries(inter: Intersection) -> Seq<(TurnID, TurnPriority)> {
    Seq::new(inter.turns@.len(), |k: int| (inter.turns@[k].id, TurnPriority::Stop))
}

/// At a pass-through or dead-end point, only crosswalks have to stop.
pub open spec fn degenerate_priority(t: Turn) -> TurnPriority {
    if t.turn_type == TurnType::Crosswalk {
        TurnPriority::Stop
    } else {
        TurnPriority::Priority
    }
}

/// The candidate mapping for an intersection of at most two roads.
pub open spec fn degenerate_entries(inter: Intersection) -> Seq<(TurnID, TurnPriority)> {
    Seq::new(inter.turns@.len(), |k: int| (inter.turns@[k].id, degenerate_priority(inter.turns@[k])))
}

/// Whether every lane touching the intersection has a known rank.
pub open spec fn ranks_known(map: RoadMap, inter: Intersection) -> bool {
    forall|k: int|
        0 <= k < inter.touching_lanes().len() ==> (#[trigger] lane_rank_of(map, inter.touching_lanes()[k])) is Some
}

/// Whether all lanes touching the intersection have the same rank.
pub open spec fn uniform_rank(map: RoadMap, inter: Intersection) -> bool {
    forall|k: int|
        0 <= k < inter.touching_lanes().len() ==> #[trigger] lane_rank_of(map, inter.touching_lanes()[k])
            == lane_rank_of(map, inter.touching_lanes()[0])
}

/// The highest known rank among `lanes`, or 0 when there is none.
pub open spec fn max_rank(map: RoadMap, lanes: Seq<LaneID>) -> nat
    decreases lanes.len(),
{
    if lanes.len() == 0 {
        0
    } else {
        let m = max_rank(map, lanes.drop_last());
        match lane_rank_of(map, lanes.last()) {
            Some(r) => if r > m { r } else { m },
            None => m,
        }
    }
}

/// The priority that ranked assignment gives turn `t`, after the mapping `prev` of
/// the turns before it: turns from the top-ranked roads go first when they are
/// straight or right turns that conflict with no priority turn so far, else yield;
/// turns from lower roads stop.
pub open spec fn ranked_choice(
    map: RoadMap,
    inter: Intersection,
    top: nat,
    prev: Seq<(TurnID, TurnPriority)>,
    t: Turn,
) -> TurnPriority {
    if lane_rank_of(map, t.id.src) == Some(top) {
        if (t.turn_type == TurnType::Straight || t.turn_type == TurnType::Right) && compatible(
            prev,
            inter,
            t.id,
        ) {
            TurnPriority::Priority
        } else {
            TurnPriority::Yield
        }
    } else {
        TurnPriority::Stop
    }
}

/// Ranked assignment of the first `n` turns of the intersection, in the order of the
/// turn list, which a well-formed intersection keeps by increasing identifier.
pub open spec fn ranked_entries(map: RoadMap, inter: Intersection, top: nat, n: nat) -> Seq<
    (TurnID, TurnPriority),
>
    decreases n,
{
    if n == 0 {
        Seq::empty()
    } else {
        let prev = ranked_entries(map, inter, top, (n - 1) as nat);
        let t = inter.turns@[n - 1];
        prev.push((t.id, ranked_choice(map, inter, top, prev, t)))
    }
}

/// Whether assigning a policy to intersection `i` meets a road tag without a rank.
pub open spec fn assignment_fails(map: RoadMap, i: IntersectionID) -> bool {
    let inter = map.spec_intersection(i);
    inter.roads@.len() > 2 && !ranks_known(map, inter)
}

/// The mapping that automatic assignment gives intersection `i`.
pub open spec fn assigned_entries(map: RoadMap, i: IntersectionID) -> Seq<(TurnID, TurnPriority)> {
    let inter = map.spec_intersection(i);
    if inter.roads@.len() <= 2 {
        if safe(degenerate_entries(inter), inter) {
            degenerate_entries(inter)
        } else {
            all_stop_entries(inter)
        }
    } else if uniform_rank(map, inter) {
        all_stop_entries(inter)
    } else {
        ranked_entries(map, inter, max_rank(map, inter.touching_lanes()), inter.turns@.len())
    }
}

/// Whether turn `t` conflicts with none of the priority turns of a mapping.
fn priority_compatible(entries: &Entries, inter: &Intersection, t: TurnID) -> (r: bool)
    ensures
        r == compatible(entries@, *inter, t),
{
    let mut j: usize = 0;
    while j < entries.len()
        invariant
            j <= entries@.len(),
            forall|j2: int|
                0 <= j2 < j && (#[trigger] entries@[j2]).1 == TurnPriority::Priority
                    ==> !inter.conflict(entries@[j2].0, t),
        decreases entries@.len() - j,
    {
        if entries[j].1 == TurnPriority::Priority && inter.conflicts_with(entries[j].0, t) {
            return false;
        }
        j += 1;
    }
    true
}

/// Every turn of the intersection mapped to `Stop`.
fn all_way_stop(inter: &Intersection) -> (r: Entries)
    ensures
        r@ == all_stop_entries(*inter),
{
    let mut r: Entries = Vec::new();
    let mut k: usize = 0;
    while k < inter.turns.len()
        invariant
            k <= inter.turns@.len(),
            r@ =~= all_stop_entries(*inter).take(k as int),
        decreases inter.turns@.len() - k,
    {
        r.push((inter.turns[k].id, TurnPriority::Stop));
        k += 1;
    }
    r
}

/// The candidate mapping for an intersection of at most two roads.
fn degenerate_candidate(inter: &Intersection) -> (r: Entries)
    ensures
        r@ == degenerate_entries(*inter),
{
    let mut r: Entries = Vec::new();
    let mut k: usize = 0;
    while k < inter.turns.len()
        invariant
            k <= inter.turns@.len(),
            r@ =~= degenerate_entries(*inter).take(k as int),
        decreases inter.turns@.len() - k,
    {
        let t = inter.turns[k];
        let p = match t.turn_type {
            TurnType::Crosswalk => TurnPriority::Stop,
            _ => TurnPriority::Priority,
        };
        r.push((t.id, p));
        k += 1;
    }
    r
}

/// Every lane touching the intersection: incoming lanes, then outgoing ones.
fn touching_lanes(inter: &Intersection) -> (r: Vec<LaneID>)
    ensures
        r@ == inter.touching_lanes(),
{
    let mut r: Vec<LaneID> = Vec::new();
    let mut k: usize = 0;
    while k < inter.incoming_lanes.len()
        invariant
            k <= inter.incoming_lanes@.len(),
            r@ =~= inter.incoming_lanes@.take(k as int),
        decreases inter.incoming_lanes@.len() - k,
    {
        r.push(inter.incoming_lanes[k]);
        k += 1;
    }
    let mut k: usize = 0;
    while k < inter.outgoing_lanes.len()
        invariant
            k <= inter.outgoing_lanes@.len(),
            r@ =~= inter.incoming_lanes@ + inter.outgoing_lanes@.take(k as int),
        decreases inter.outgoing_lanes@.len() - k,
    {
        r.push(inter.outgoing_lanes[k]);
        k += 1;
    }
    assert(inter.outgoing_lanes@.take(k as int) =~= inter.outgoing_lanes@);
    r
}

/// Ranked assignment keeps the intersection's turns in order, and never maps two
/// conflicting turns to `Priority`.
proof fn lemma_ranked_entries(map: RoadMap, inter: Intersection, top: nat, n: nat)
    requires
        n <= inter.turns@.len(),
    ensures
        ranked_entries(map, inter, top, n).len() == n,
        keys(ranked_entries(map, inter, top, n)) =~= inter.turn_ids().take(n as int),
        safe(ranked_entries(map, inter, top, n), inter),
    decreases n,
{
    if n > 0 {
        lemma_ranked_entries(map, inter, top, (n - 1) as nat);
        let prev = ranked_entries(map, inter, top, (n - 1) as nat);
        let e = ranked_entries(map, inter, top, n);
        let t = inter.turns@[n - 1];
        assert(keys(prev).len() == n - 1);
        assert forall|j: int, k: int| 0 <= j < k < e.len() implies !#[trigger] clashes(e, inter, j, k) by {
            assert(e[j] == prev[j]);
            if k < n - 1 {
                assert(e[k] == prev[k]);
                assert(!clashes(prev, inter, j, k));
            } else {
                assert(e[k] == (t.id, ranked_choice(map, inter, top, prev, t)));
                if e[k].1 == TurnPriority::Priority && prev[j].1 == TurnPriority::Priority {
                    assert(compatible(prev, inter, t.id));
                    assert(!inter.conflict(prev[j].0, t.id));
                }
            }
        }
    }
}

/// The state of a stop-sign policy: the intersection it controls, its turn-to-priority
/// mapping in turn order, and whether it was edited by hand.
pub struct StopSignView {
    pub intersection: IntersectionID,
    pub turns: Seq<(TurnID, TurnPriority)>,
    pub changed: bool,
}

impl StopSignView {
    /// The entries are in strictly increasing turn identifier order.
    pub open spec fn wf(self) -> bool {
        sorted_keys(self.turns)
    }

    /// The policy fits the map: its intersection exists and has no traffic signal, it
    /// maps exactly that intersection's turns, in their order, and no two priority
    /// turns conflict.
    pub open spec fn valid_for(self, map: RoadMap) -> bool {
        let inter = map.spec_intersection(self.intersection);
        &&& self.intersection.0 < map.intersections@.len()
        &&& !inter.has_traffic_signal
        &&& keys(self.turns) == inter.turn_ids()
        &&& safe(self.turns, inter)
    }

    /// The priority of the entry for turn `t`.
    pub open spec fn priority_of(self, t: TurnID) -> TurnPriority {
        let j = choose|j: int| 0 <= j < self.turns.len() && self.turns[j].0 == t;
        self.turns[j].1
    }
}

/// The policy that automatic assignment gives intersection `i`, before any edit.
pub open spec fn assigned_policy(map: RoadMap, i: IntersectionID) -> StopSignView {
    StopSignView { intersection: i, turns: assigned_entries(map, i), changed: false }
}

/// Why an edit of a policy was refused; the policy is then left as it was.
#[derive(Debug, Clone, Copy, PartialEq, Eq, Structural)]
pub enum EditError {
    /// The turn is not one of the intersection's turns.
    UnknownTurn,
    /// The turn conflicts with a turn that already has priority.
    ConflictingPriority,
}

/// A single intersection controlled by a stop-sign-like policy. Its turns are split
/// into priority turns, which never conflict with each other and need not stop;
/// yield turns, which go when no conflicting movement is under way; and stop turns.
#[derive(Debug, Clone)]
pub struct ControlStopSign {
    intersection: IntersectionID,
    turns: Entries,
    changed: bool,
}

impl View for ControlStopSign {
    type V = StopSignView;

    closed spec fn view(&self) -> StopSignView {
        StopSignView { intersection: self.intersection, turns: self.turns@, changed: self.changed }
    }
}

/// A mapping whose keys are the intersection's turns, in order, holds exactly them.
proof fn lemma_keys_cover(entries: Seq<(TurnID, TurnPriority)>, inter: Intersection)
    requires
        keys(entries) == inter.turn_ids(),
    ensures
        covers(entries, inter),
{
    assert(entries.len() == keys(entries).len());
    assert forall|k: int| 0 <= k < inter.turns@.len() implies has_key(entries, #[trigger] inter.turns@[k].id) by {
        assert(keys(entries)[k] == entries[k].0);
    }
}

/// A mapping whose keys are the turns of a well-formed intersection, in list order,
/// is in identifier order.
proof fn lemma_keys_sorted(entries: Seq<(TurnID, TurnPriority)>, inter: Intersection, n_lanes: nat)
    requires
        keys(entries) == inter.turn_ids(),
        inter.wf(n_lanes),
    ensures
        sorted_keys(entries),
{
    assert(entries.len() == keys(entries).len());
    assert forall|j: int, k: int| 0 <= j < k < entries.len() implies (#[trigger] entries[j]).0.spec_lt(
        (#[trigger] entries[k]).0,
    ) by {
        assert(keys(entries)[j] == inter.turns@[j].id);
        assert(keys(entries)[k] == inter.turns@[k].id);
    }
}

/// A lane that a turn leaves from touches the intersection.
proof fn lemma_source_touches(map: RoadMap, inter: Intersection, k: int)
    requires
        inter.wf(map.lanes@.len()),
        0 <= k < inter.turns@.len(),
    ensures
        exists|j: int| 0 <= j < inter.touching_lanes().len() && #[trigger] inter.touching_lanes()[j] == inter.turns@[k].id.src,
        inter.turns@[k].id.src.0 < map.lanes@.len(),
{
    let src = inter.turns@[k].id.src;
    assert(inter.is_incoming(src));
    let j = choose|j: int| 0 <= j < inter.incoming_lanes@.len() && #[trigger] inter.incoming_lanes@[j] == src;
    assert(inter.touching_lanes()[j] == src);
}

/// Automatic assignment maps exactly the intersection's turns, each once, in the
/// order of their identifiers.
pub proof fn lemma_assignment_covers_turns(map: RoadMap, i: IntersectionID)
    requires
        map.wf(),
        i.0 < map.intersections@.len(),
    ensures
        keys(assigned_entries(map, i)) == map.spec_intersection(i).turn_ids(),
        covers(assigned_entries(map, i), map.spec_intersection(i)),
        sorted_keys(assigned_entries(map, i)),
{
    let inter = map.spec_intersection(i);
    let e = assigned_entries(map, i);
    assert(inter.wf(map.lanes@.len()));
    if inter.roads@.len() > 2 && !uniform_rank(map, inter) {
        lemma_ranked_entries(map, inter, max_rank(map, inter.touching_lanes()), inter.turns@.len());
        assert(inter.turn_ids().take(inter.turns@.len() as int) =~= inter.turn_ids());
    }
    assert(keys(e) =~= inter.turn_ids());
    lemma_keys_cover(e, inter);
    lemma_keys_sorted(e, inter, map.lanes@.len());
}

/// Automatic assignment never maps two conflicting turns to `Priority`.
pub proof fn lemma_assignment_safe(map: RoadMap, i: IntersectionID)
    requires
        map.wf(),
        i.0 < map.intersections@.len(),
    ensures
        safe(assigned_entries(map, i), map.spec_intersection(i)),
{
    let inter = map.spec_intersection(i);
    if inter.roads@.len() > 2 && !uniform_rank(map, inter) {
        lemma_ranked_entries(map, inter, max_rank(map, inter.touching_lanes()), inter.turns@.len());
    } else {
        assert(safe(all_stop_entries(inter), inter));
    }
}

/// Two turns conflict in either order or not at all.
proof fn lemma_conflict_symmetric(inter: Intersection, a: TurnID, b: TurnID)
    ensures
        inter.conflict(a, b) == inter.conflict(b, a),
{
    if inter.conflict(a, b) {
        let k = choose|k: int|
            0 <= k < inter.conflicts@.len() && (#[trigger] inter.conflicts@[k] == (a, b)
                || inter.conflicts@[k] == (b, a));
        assert(inter.conflicts@[k] == (b, a) || inter.conflicts@[k] == (a, b));
    }
    if inter.conflict(b, a) {
        let k = choose|k: int|
            0 <= k < inter.conflicts@.len() && (#[trigger] inter.conflicts@[k] == (b, a)
                || inter.conflicts@[k] == (a, b));
        assert(inter.conflicts@[k] == (a, b) || inter.conflicts@[k] == (b, a));
    }
}

/// Automatic assignment is deterministic: two policies built for the same
/// intersection of the same map hold the same mapping, entry for entry and in the
/// same order.
pub proof fn lemma_assignment_deterministic(
    map: RoadMap,
    i: IntersectionID,
    a: StopSignView,
    b: StopSignView,
)
    requires
        a == assigned_policy(map, i),
        b == assigned_policy(map, i),
    ensures
        a.turns == b.turns,
        a.turns.len() == b.turns.len(),
        forall|k: int| 0 <= k < a.turns.len() ==> a.turns[k] == b.turns[k],
{
}

/// The mapping after setting the priority of turn `t` to `p`.
pub open spec fn with_priority(entries: Seq<(TurnID, TurnPriority)>, t: TurnID, p: TurnPriority) -> Seq<
    (TurnID, TurnPriority),
> {
    Seq::new(entries.len(), |k: int| if entries[k].0 == t { (t, p) } else { entries[k] })
}

/// The position of the entry for turn `t`, if there is one.
fn find_turn(entries: &Entries, t: TurnID) -> (r: Option<usize>)
    ensures
        r is None <==> !has_key(entries@, t),
        r matches Some(j) ==> j < entries@.len() && entries@[j as int].0 == t,
{
    let mut j: usize = 0;
    while j < entries.len()
        invariant
            j <= entries@.len(),
            forall|j2: int| 0 <= j2 < j ==> (#[trigger] entries@[j2]).0 != t,
        decreases entries@.len() - j,
    {
        if entries[j].0 == t {
            return Some(j);
        }
        j += 1;
    }
    None
}

impl ControlStopSign {
    /// The policy that automatic assignment gives intersection `intersection`. A road
    /// touching an intersection of more than two roads whose classification tag has
    /// no rank makes this fail with that tag.
    pub fn new(map: &RoadMap, intersection: IntersectionID) -> (r: Result<
        ControlStopSign,
        ClassificationError,
    >)
        requires
            map.wf(),
            intersection.0 < map.intersections@.len(),
            !map.spec_intersection(intersection).has_traffic_signal,
        ensures
            r is Err <==> assignment_fails(*map, intersection),
            r matches Ok(ss) ==> ss@ == assigned_policy(*map, intersection) && ss@.wf()
                && ss@.valid_for(*map),
            r matches Err(e) ==> exists|k: int|
                0 <= k < map.spec_intersection(intersection).touching_lanes().len() && {
                    let l = #[trigger] map.spec_intersection(intersection).touching_lanes()[k];
                    &&& lane_rank_of(*map, l) is None
                    &&& map.spec_parent(l).highway is Some
                    &&& e.tag@ == map.spec_parent(l).highway->0@
                },
    {
        let r = Self::smart_assignment(map, intersection);
        proof {
            lemma_assignment_covers_turns(*map, intersection);
            lemma_assignment_safe(*map, intersection);
        }
        r
    }

    /// A policy with saved state: the entries of `turns`, in order, and the flag
    /// `changed`, taken as they are. They are refused when their turns are not the
    /// intersection's, in identifier order, or when two priority turns conflict; the
    /// entries and flag of any valid policy come back unchanged.
    pub fn restore(map: &RoadMap, intersection: IntersectionID, turns: Entries, changed: bool) -> (r:
        Result<ControlStopSign, ValidationError>)
        requires
            map.wf(),
            intersection.0 < map.intersections@.len(),
            !map.spec_intersection(intersection).has_traffic_signal,
        ensures
            r == Err::<ControlStopSign, ValidationError>(ValidationError::IncompleteCoverage) <==> keys(
                turns@,
            ) != map.spec_intersection(intersection).turn_ids(),
            r is Ok <==> keys(turns@) == map.spec_intersection(intersection).turn_ids() && safe(
                turns@,
                map.spec_intersection(intersection),
            ),
            r matches Ok(ss) ==> ss@ == (StopSignView { intersection, turns: turns@, changed })
                && ss@.wf() && ss@.valid_for(*map),
    {
        let inter = map.get_i(intersection);
        if turns.len() != inter.turns.len() {
            assert(keys(turns@).len() != inter.turn_ids().len());
            return Err(ValidationError::IncompleteCoverage);
        }
        let mut k: usize = 0;
        while k < turns.len()
            invariant
                *inter == map.spec_intersection(intersection),
                k <= turns@.len(),
                turns@.len() == inter.turns@.len(),
                forall|j: int| 0 <= j < k ==> (#[trigger] turns@[j]).0 == inter.turns@[j].id,
            decreases turns@.len() - k,
        {
            if turns[k].0 != inter.turns[k].id {
                assert(keys(turns@)[k as int] != inter.turn_ids()[k as int]);
                return Err(ValidationError::IncompleteCoverage);
            }
            k += 1;
        }
        assert(keys(turns@) =~= inter.turn_ids());
        proof {
            lemma_keys_cover(turns@, *inter);
            assert(map.intersections@[intersection.0 as int].wf(map.lanes@.len()));
            lemma_keys_sorted(turns@, *inter, map.lanes@.len());
        }
        match validate(&turns, inter) {
            Ok(()) => Ok(ControlStopSign { intersection, turns, changed }),
            Err(e) => Err(e),
        }
    }

    /// The policy for an intersection of at most two roads: everything but crosswalks
    /// goes first, unless that makes priority turns conflict; then all-way stop.
    fn for_degenerate_and_deadend(map: &RoadMap, i: IntersectionID) -> (r: ControlStopSign)
        requires
            map.wf(),
            i.0 < map.intersections@.len(),
        ensures
            r@ == (StopSignView {
                intersection: i,
                turns: if safe(degenerate_entries(map.spec_intersection(i)), map.spec_intersection(i)) {
                    degenerate_entries(map.spec_intersection(i))
                } else {
                    all_stop_entries(map.spec_intersection(i))
                },
                changed: false,
            }),
            safe(r@.turns, map.spec_intersection(i)),
    {
        let inter = map.get_i(i);
        let candidate = degenerate_candidate(inter);
        proof {
            assert(keys(candidate@) =~= inter.turn_ids());
            lemma_keys_cover(candidate@, *inter);
            assert(map.intersections@[i.0 as int].wf(map.lanes@.len()));
            lemma_keys_sorted(candidate@, *inter, map.lanes@.len());
        }
        match validate(&candidate, inter) {
            Ok(()) => ControlStopSign { intersection: i, turns: candidate, changed: false },
            Err(_) => ControlStopSign { intersection: i, turns: all_way_stop(inter), changed: false },
        }
    }

    /// Chooses the assignment strategy from the intersection's shape and road ranks.
    fn smart_assignment(map: &RoadMap, intersection: IntersectionID) -> (r: Result<
        ControlStopSign,
        ClassificationError,
    >)
        requires
            map.wf(),
            intersection.0 < map.intersections@.len(),
        ensures
            r is Err <==> assignment_fails(*map, intersection),
            r matches Ok(ss) ==> ss@ == assigned_policy(*map, intersection) && ss@.wf() && keys(
                ss@.turns,
            ) == map.spec_intersection(intersection).turn_ids() && safe(
                ss@.turns,
                map.spec_intersection(intersection),
            ),
            r matches Err(e) ==> exists|k: int|
                0 <= k < map.spec_intersection(intersection).touching_lanes().len() && {
                    let l = #[trigger] map.spec_intersection(intersection).touching_lanes()[k];
                    &&& lane_rank_of(*map, l) is None
                    &&& map.spec_parent(l).highway is Some
                    &&& e.tag@ == map.spec_parent(l).highway->0@
                },
    {
        proof {
            lemma_assignment_covers_turns(*map, intersection);
            lemma_assignment_safe(*map, intersection);
        }
        let inter = map.get_i(intersection);
        if inter.roads.len() <= 2 {
            return Ok(Self::for_degenerate_and_deadend(map, intersection));
        }
        proof {
            assert(map.intersections@[intersection.0 as int].wf(map.lanes@.len()));
        }
        let lanes = touching_lanes(inter);
        let mut highest: usize = 0;
        let mut first: usize = 0;
        let mut uniform = true;
        let mut k: usize = 0;
        while k < lanes.len()
            invariant
                map.wf(),
                *inter == map.spec_intersection(intersection),
                inter.wf(map.lanes@.len()),
                lanes@ == inter.touching_lanes(),
                inter.roads@.len() > 2,
                k <= lanes@.len(),
                forall|j: int| 0 <= j < k ==> (#[trigger] lane_rank_of(*map, lanes@[j])) is Some,
                highest as nat == max_rank(*map, lanes@.take(k as int)),
                k > 0 ==> lane_rank_of(*map, lanes@[0]) == Some(first as nat),
                uniform <==> forall|j: int|
                    0 <= j < k ==> #[trigger] lane_rank_of(*map, lanes@[j]) == lane_rank_of(
                        *map,
                        lanes@[0],
                    ),
            decreases lanes@.len() - k,
        {
            let l = lanes[k];
            let rank = match lane_rank(map, l) {
                Ok(rank) => rank,
                Err(e) => {
                    assert(lane_rank_of(*map, inter.touching_lanes()[k as int]) is None);
                    return Err(e);
                },
            };
            if k == 0 {
                first = rank;
            } else if rank != first {
                uniform = false;
            }
            if rank > highest {
                highest = rank;
            }
            proof {
                assert(lanes@.take(k + 1).drop_last() =~= lanes@.take(k as int));
            }
            k += 1;
        }
        assert(lanes@.take(k as int) =~= lanes@);
        if uniform {
            return Ok(ControlStopSign { intersection, turns: all_way_stop(inter), changed: false });
        }
        let mut turns: Entries = Vec::new();
        let mut k: usize = 0;
        while k < inter.turns.len()
            invariant
                map.wf(),
                *inter == map.spec_intersection(intersection),
                inter.wf(map.lanes@.len()),
                ranks_known(*map, *inter),
                inter.roads@.len() > 2,
                !uniform_rank(*map, *inter),
                highest as nat == max_rank(*map, inter.touching_lanes()),
                k <= inter.turns@.len(),
                turns@ == ranked_entries(*map, *inter, highest as nat, k as nat),
            decreases inter.turns@.len() - k,
        {
            let t = inter.turns[k];
            proof {
                lemma_source_touches(*map, *inter, k as int);
            }
            let rank = match lane_rank(map, t.id.src) {
                Ok(rank) => rank,
                Err(e) => {
                    return Err(e);
                },
            };
            let p = if rank == highest {
                if (t.turn_type == TurnType::Straight || t.turn_type == TurnType::Right)
                    && priority_compatible(&turns, inter, t.id) {
                    TurnPriority::Priority
                } else {
                    TurnPriority::Yield
                }
            } else {
                TurnPriority::Stop
            };
            turns.push((t.id, p));
            k += 1;
        }
        Ok(ControlStopSign { intersection, turns, changed: false })
    }
}

impl ControlStopSign {
    /// The priority of turn `turn`, which must be one of the policy's turns.
    pub fn get_priority(&self, turn: TurnID) -> (r: TurnPriority)
        requires
            self@.wf(),
            has_key(self@.turns, turn),
        ensures
            r == self@.priority_of(turn),
    {
        let j = find_turn(&self.turns, turn).unwrap();
        proof {
            let j2 = choose|j2: int| 0 <= j2 < self@.turns.len() && self@.turns[j2].0 == turn;
            assert(self@.turns[j2].0 == self@.turns[j as int].0);
        }
        self.turns[j].1
    }

    /// Whether turn `id` conflicts with none of the policy's priority turns, so that
    /// it could become one. A turn never conflicts with itself.
    pub fn could_be_priority_turn(&self, id: TurnID, map: &RoadMap) -> (r: bool)
        requires
            self@.valid_for(*map),
        ensures
            r == compatible(self@.turns, map.spec_intersection(self@.intersection), id),
    {
        priority_compatible(&self.turns, map.get_i(self.intersection), id)
    }

    /// Sets the priority of turn `turn` and marks the policy as edited. The edit is
    /// refused, and the policy left as it was, when the turn is not one of the
    /// policy's or when it would become a priority turn that conflicts with another.
    pub fn set_priority(&mut self, turn: TurnID, priority: TurnPriority, map: &RoadMap) -> (r: Result<
        (),
        EditError,
    >)
        requires
            old(self)@.wf(),
            old(self)@.valid_for(*map),
        ensures
            r == Err::<(), EditError>(EditError::UnknownTurn) <==> !has_key(old(self)@.turns, turn),
            r == Err::<(), EditError>(EditError::ConflictingPriority) <==> has_key(old(self)@.turns, turn)
                && priority == TurnPriority::Priority && !compatible(
                old(self)@.turns,
                map.spec_intersection(old(self)@.intersection),
                turn,
            ),
            r is Err ==> final(self)@ == old(self)@,
            r is Ok ==> final(self)@ == (StopSignView {
                intersection: old(self)@.intersection,
                turns: with_priority(old(self)@.turns, turn, priority),
                changed: true,
            }),
            final(self)@.changed == (old(self)@.changed || r is Ok),
            final(self)@.wf(),
            final(self)@.valid_for(*map),
    {
        let j = match find_turn(&self.turns, turn) {
            Some(j) => j,
            None => {
                return Err(EditError::UnknownTurn);
            },
        };
        if priority == TurnPriority::Priority && !self.could_be_priority_turn(turn, map) {
            return Err(EditError::ConflictingPriority);
        }
        let ghost before = self.turns@;
        let ghost inter = map.spec_intersection(self.intersection);
        self.turns.set(j, (turn, priority));
        self.changed = true;
        proof {
            assert(self.turns@ =~= with_priority(before, turn, priority)) by {
                assert forall|k: int| 0 <= k < before.len() && k != j implies before[k].0 != turn by {
                    assert(before[k].0 != before[j as int].0);
                }
            }
            assert(keys(self.turns@) =~= keys(before));
            assert forall|a: int, b: int| 0 <= a < b < self.turns@.len() implies !#[trigger] clashes(
                self.turns@,
                inter,
                a,
                b,
            ) by {
                if a != j && b != j {
                    assert(!clashes(before, inter, a, b));
                } else if priority == TurnPriority::Priority {
                    let other = if a == j { b } else { a };
                    if before[other].1 == TurnPriority::Priority {
                        assert(!inter.conflict(before[other].0, turn));
                        lemma_conflict_symmetric(inter, before[other].0, turn);
                    }
                }
            }
        }
        Ok(())
    }

    /// The intersection that the policy controls.
    pub fn intersection(&self) -> (r: IntersectionID)
        ensures
            r == self@.intersection,
    {
        self.intersection
    }

    /// The policy's turn-to-priority entries, in the order of the turns' identifiers.
    pub fn entries(&self) -> (r: Entries)
        ensures
            r@ == self@.turns,
    {
        let mut r: Entries = Vec::new();
        let mut j: usize = 0;
        while j < self.turns.len()
            invariant
                j <= self.turns@.len(),
                r@ =~= self.turns@.take(j as int),
            decreases self.turns@.len() - j,
        {
            r.push(self.turns[j]);
            j += 1;
        }
        assert(self.turns@.take(j as int) =~= self.turns@);
        r
    }

    /// Whether the policy was edited by hand since it was assigned. An edit that
    /// happens to restore the assigned mapping still counts.
    pub fn is_changed(&self) -> (r: bool)
        ensures
            r == self@.changed,
    {
        self.changed
    }

    /// Whether some turn from lane `lane` has a priority above `Stop`.
    pub fn is_priority_lane(&self, lane: LaneID) -> (r: bool)
        ensures
            r == exists|j: int|
                0 <= j < self@.turns.len() && (#[trigger] self@.turns[j]).0.src == lane
                    && self@.turns[j].1.spec_level() > TurnPriority::Stop.spec_level(),
    {
        let mut j: usize = 0;
        while j < self.turns.len()
            invariant
                j <= self.turns@.len(),
                forall|j2: int|
                    0 <= j2 < j ==> !((#[trigger] self.turns@[j2]).0.src == lane
                        && self.turns@[j2].1.spec_level() > TurnPriority::Stop.spec_level()),
            decreases self.turns@.len() - j,
        {
            let (turn, pri) = self.turns[j];
            if turn.src == lane && pri > TurnPriority::Stop {
                assert(self@.turns[j as int].1.spec_level() > TurnPriority::Stop.spec_level());
                return true;
            }
            j += 1;
        }
        false
    }
}

/// The classification tag of a road, as characters.
pub open spec fn road_tag(road: Road) -> Option<Seq<char>> {
    match road.highway {
        Some(t) => Some(t@),
        None => None,
    }
}

/// Whether turn `k` of intersection `i` is a straight or right turn from a road
/// tagged `tag`.
pub open spec fn is_through_from(map: RoadMap, i: IntersectionID, k: int, tag: Seq<char>) -> bool {
    let t = map.spec_intersection(i).turns@[k];
    &&& road_tag(map.spec_parent(t.id.src)) == Some(tag)
    &&& (t.turn_type == TurnType::Straight || t.turn_type == TurnType::Right)
}

/// Once the first `k` turns are assigned, later steps of ranked assignment leave
/// their entries alone.
proof fn lemma_ranked_prefix(map: RoadMap, inter: Intersection, top: nat, n: nat, k: nat, j: int)
    requires
        0 <= j < k <= n <= inter.turns@.len(),
    ensures
        ranked_entries(map, inter, top, n)[j] == ranked_entries(map, inter, top, k)[j],
    decreases n,
{
    if n > k {
        lemma_ranked_entries(map, inter, top, (n - 1) as nat);
        lemma_ranked_prefix(map, inter, top, (n - 1) as nat, k, j);
    }
}

/// The rank that `max_rank` returns bounds every known rank, and, when it is not 0,
/// is the rank of one of the lanes.
proof fn lemma_max_rank(map: RoadMap, lanes: Seq<LaneID>)
    ensures
        forall|k: int|
            0 <= k < lanes.len() && (#[trigger] lane_rank_of(map, lanes[k])) is Some ==> lane_rank_of(
                map,
                lanes[k],
            )->0 <= max_rank(map, lanes),
        max_rank(map, lanes) == 0 || exists|k: int|
            0 <= k < lanes.len() && #[trigger] lane_rank_of(map, lanes[k]) == Some(max_rank(map, lanes)),
    decreases lanes.len(),
{
    if lanes.len() > 0 {
        let rest = lanes.drop_last();
        lemma_max_rank(map, rest);
        assert forall|k: int| 0 <= k < rest.len() implies rest[k] == lanes[k] by {}
        if max_rank(map, lanes) != 0 && max_rank(map, lanes) == max_rank(map, rest) {
            let k = choose|k: int|
                0 <= k < rest.len() && #[trigger] lane_rank_of(map, rest[k]) == Some(max_rank(map, rest));
            assert(lane_rank_of(map, lanes[k]) == Some(max_rank(map, lanes)));
        }
        if max_rank(map, lanes) != max_rank(map, rest) {
            assert(lane_rank_of(map, lanes[lanes.len() - 1]) == Some(max_rank(map, lanes)));
        }
    }
}

/// At an intersection of at most two roads whose two turns are a straight turn
/// `s` and a crosswalk `c`, the straight turn gets priority and the crosswalk stops.
pub proof fn lemma_degenerate_straight_and_crosswalk(map: RoadMap, i: IntersectionID, s: int, c: int)
    requires
        map.wf(),
        i.0 < map.intersections@.len(),
        map.spec_intersection(i).roads@.len() <= 2,
        map.spec_intersection(i).turns@.len() == 2,
        0 <= s < 2,
        0 <= c < 2,
        s != c,
        map.spec_intersection(i).turns@[s].turn_type == TurnType::Straight,
        map.spec_intersection(i).turns@[c].turn_type == TurnType::Crosswalk,
    ensures
        !assignment_fails(map, i),
        assigned_entries(map, i).len() == 2,
        assigned_entries(map, i)[s] == (map.spec_intersection(i).turns@[s].id, TurnPriority::Priority),
        assigned_entries(map, i)[c] == (map.spec_intersection(i).turns@[c].id, TurnPriority::Stop),
{
    let inter = map.spec_intersection(i);
    let d = degenerate_entries(inter);
    assert(d[c].1 == TurnPriority::Stop);
    assert forall|j: int, k: int| 0 <= j < k < d.len() implies !#[trigger] clashes(d, inter, j, k) by {
        assert(j == c || k == c);
    }
}

/// At an intersection of more than two roads where every touching lane belongs to a
/// road with the same known tag, every turn stops.
pub proof fn lemma_uniform_all_way_stop(map: RoadMap, i: IntersectionID, tag: Seq<char>)
    requires
        map.wf(),
        i.0 < map.intersections@.len(),
        map.spec_intersection(i).roads@.len() > 2,
        tag_rank(tag) is Some,
        forall|k: int|
            0 <= k < map.spec_intersection(i).touching_lanes().len() ==> road_tag(
                map.spec_parent(#[trigger] map.spec_intersection(i).touching_lanes()[k]),
            ) == Some(tag),
    ensures
        !assignment_fails(map, i),
        assigned_entries(map, i) == all_stop_entries(map.spec_intersection(i)),
{
    let inter = map.spec_intersection(i);
    let lanes = inter.touching_lanes();
    assert forall|k: int| 0 <= k < lanes.len() implies #[trigger] lane_rank_of(map, lanes[k]) == tag_rank(tag) by {
        assert(road_tag(map.spec_parent(lanes[k])) == Some(tag));
    }
    assert(ranks_known(map, inter));
    if lanes.len() > 0 {
        assert(lane_rank_of(map, lanes[0]) == tag_rank(tag));
    }
    assert(uniform_rank(map, inter));
}

/// Entry `k` of ranked assignment is the choice made for turn `k` after the turns
/// before it.
proof fn lemma_ranked_entry(map: RoadMap, inter: Intersection, top: nat, n: nat, k: int)
    requires
        0 <= k < n <= inter.turns@.len(),
    ensures
        ranked_entries(map, inter, top, n)[k] == (inter.turns@[k].id, ranked_choice(
            map,
            inter,
            top,
            ranked_entries(map, inter, top, k as nat),
            inter.turns@[k],
        )),
{
    lemma_ranked_prefix(map, inter, top, n, (k + 1) as nat, k);
    lemma_ranked_entries(map, inter, top, k as nat);
}

/// Whether every lane touching intersection `i` belongs to a road tagged `major` or
/// `minor`, both tags occur, and both have ranks, `major` the higher.
pub open spec fn major_crosses_minor(map: RoadMap, i: IntersectionID, major: Seq<char>, minor: Seq<char>) -> bool {
    let lanes = map.spec_intersection(i).touching_lanes();
    &&& tag_rank(major) is Some
    &&& tag_rank(minor) is Some
    &&& tag_rank(minor)->0 < tag_rank(major)->0
    &&& forall|k: int|
        0 <= k < lanes.len() ==> road_tag(map.spec_parent(#[trigger] lanes[k])) == Some(major)
            || road_tag(map.spec_parent(lanes[k])) == Some(minor)
    &&& exists|k: int| 0 <= k < lanes.len() && road_tag(map.spec_parent(#[trigger] lanes[k])) == Some(major)
    &&& exists|k: int| 0 <= k < lanes.len() && road_tag(map.spec_parent(#[trigger] lanes[k])) == Some(minor)
}

/// With a `major` road crossing a `minor` one, every rank is known, ranks differ,
/// and the highest is that of `major`, the rank exactly of the turns that leave a
/// `major` road.
proof fn lemma_major_is_top(map: RoadMap, i: IntersectionID, major: Seq<char>, minor: Seq<char>) -> (top: nat)
    requires
        map.wf(),
        i.0 < map.intersections@.len(),
        major_crosses_minor(map, i, major, minor),
    ensures
        ranks_known(map, map.spec_intersection(i)),
        !uniform_rank(map, map.spec_intersection(i)),
        top == max_rank(map, map.spec_intersection(i).touching_lanes()),
        forall|k: int|
            0 <= k < map.spec_intersection(i).turns@.len() ==> (road_tag(
                map.spec_parent(#[trigger] map.spec_intersection(i).turns@[k].id.src),
            ) == Some(major) <==> lane_rank_of(map, map.spec_intersection(i).turns@[k].id.src)
                == Some(top)) && (road_tag(map.spec_parent(map.spec_intersection(i).turns@[k].id.src))
                == Some(major) || road_tag(map.spec_parent(map.spec_intersection(i).turns@[k].id.src))
                == Some(minor)),
{
    let inter = map.spec_intersection(i);
    let lanes = inter.touching_lanes();
    assert(inter.wf(map.lanes@.len()));
    let rmaj = tag_rank(major)->0;
    let rmin = tag_rank(minor)->0;
    assert forall|k: int| 0 <= k < lanes.len() implies (#[trigger] lane_rank_of(map, lanes[k])
        == Some(rmaj) && road_tag(map.spec_parent(lanes[k])) == Some(major)) || (lane_rank_of(
        map,
        lanes[k],
    ) == Some(rmin) && road_tag(map.spec_parent(lanes[k])) == Some(minor)) by {
        assert(road_tag(map.spec_parent(lanes[k])) == Some(major) || road_tag(
            map.spec_parent(lanes[k]),
        ) == Some(minor));
    }
    let k1 = choose|k: int| 0 <= k < lanes.len() && road_tag(map.spec_parent(#[trigger] lanes[k])) == Some(major);
    let k2 = choose|k: int| 0 <= k < lanes.len() && road_tag(map.spec_parent(#[trigger] lanes[k])) == Some(minor);
    assert(lane_rank_of(map, lanes[k1]) == Some(rmaj));
    assert(lane_rank_of(map, lanes[k2]) == Some(rmin));
    lemma_max_rank(map, lanes);
    let top = max_rank(map, lanes);
    assert(top == rmaj);
    assert forall|k: int| 0 <= k < inter.turns@.len() implies (road_tag(
        map.spec_parent(#[trigger] inter.turns@[k].id.src),
    ) == Some(major) <==> lane_rank_of(map, inter.turns@[k].id.src) == Some(top)) && (road_tag(
        map.spec_parent(inter.turns@[k].id.src),
    ) == Some(major) || road_tag(map.spec_parent(inter.turns@[k].id.src)) == Some(minor)) by {
        lemma_source_touches(map, inter, k);
        let j = choose|j: int| 0 <= j < lanes.len() && #[trigger] lanes[j] == inter.turns@[k].id.src;
        assert(lane_rank_of(map, lanes[j]) is Some);
    }
    top
}

/// Whether no two straight or right turns from roads tagged `tag` conflict.
pub open spec fn through_turns_compatible(map: RoadMap, i: IntersectionID, tag: Seq<char>) -> bool {
    forall|j: int, k: int|
        0 <= j < map.spec_intersection(i).turns@.len() && 0 <= k < map.spec_intersection(i).turns@.len()
            && #[trigger] is_through_from(map, i, j, tag) && #[trigger] is_through_from(map, i, k, tag)
            ==> !map.spec_intersection(i).conflict(
            map.spec_intersection(i).turns@[j].id,
            map.spec_intersection(i).turns@[k].id,
        )
}

/// The ranked entry of one turn when a `major` road crosses a `minor` one.
proof fn lemma_major_turn(map: RoadMap, i: IntersectionID, major: Seq<char>, minor: Seq<char>, k: int)
    requires
        map.wf(),
        i.0 < map.intersections@.len(),
        map.spec_intersection(i).roads@.len() > 2,
        major_crosses_minor(map, i, major, minor),
        0 <= k < map.spec_intersection(i).turns@.len(),
    ensures
        !assignment_fails(map, i),
        assigned_entries(map, i)[k].0 == map.spec_intersection(i).turns@[k].id,
        road_tag(map.spec_parent(map.spec_intersection(i).turns@[k].id.src)) == Some(minor)
            ==> assigned_entries(map, i)[k].1 == TurnPriority::Stop,
        road_tag(map.spec_parent(map.spec_intersection(i).turns@[k].id.src)) == Some(major)
            && !is_through_from(map, i, k, major) ==> assigned_entries(map, i)[k].1
            == TurnPriority::Yield,
        through_turns_compatible(map, i, major) && is_through_from(map, i, k, major)
            ==> assigned_entries(map, i)[k].1 == TurnPriority::Priority,
{
    let inter = map.spec_intersection(i);
    let n = inter.turns@.len();
    let top = lemma_major_is_top(map, i, major, minor);
    let e = assigned_entries(map, i);
    assert(e == ranked_entries(map, inter, top, n));
    lemma_ranked_entry(map, inter, top, n, k);
    assert(road_tag(map.spec_parent(inter.turns@[k].id.src)) == Some(major) <==> lane_rank_of(map, inter.turns@[k].id.src) == Some(top));
    if through_turns_compatible(map, i, major) && is_through_from(map, i, k, major) {
        let prev = ranked_entries(map, inter, top, k as nat);
        lemma_ranked_entries(map, inter, top, k as nat);
        assert forall|j: int| 0 <= j < prev.len() && (#[trigger] prev[j]).1 == TurnPriority::Priority
            implies !inter.conflict(prev[j].0, inter.turns@[k].id) by {
            lemma_ranked_entry(map, inter, top, k as nat, j);
            assert(keys(prev)[j] == inter.turns@[j].id);
            assert(road_tag(map.spec_parent(inter.turns@[j].id.src)) == Some(major) <==> lane_rank_of(map, inter.turns@[j].id.src) == Some(top));
            assert(is_through_from(map, i, j, major));
        }
    }
}

/// At an intersection of more than two roads where every touching lane belongs to a
/// road tagged `major` or `minor`, both occur, and `major` ranks higher: turns from
/// `minor` roads stop, turns from `major` roads that are neither straight nor right
/// turns yield, and when no two straight or right turns from `major` roads
/// conflict, all of those get priority.
pub proof fn lemma_ranked_major_over_minor(
    map: RoadMap,
    i: IntersectionID,
    major: Seq<char>,
    minor: Seq<char>,
)
    requires
        map.wf(),
        i.0 < map.intersections@.len(),
        map.spec_intersection(i).roads@.len() > 2,
        major_crosses_minor(map, i, major, minor),
    ensures
        !assignment_fails(map, i),
        keys(assigned_entries(map, i)) == map.spec_intersection(i).turn_ids(),
        forall|k: int|
            0 <= k < map.spec_intersection(i).turns@.len() && road_tag(
                map.spec_parent(map.spec_intersection(i).turns@[k].id.src),
            ) == Some(minor) ==> (#[trigger] assigned_entries(map, i)[k]).1 == TurnPriority::Stop,
        forall|k: int|
            0 <= k < map.spec_intersection(i).turns@.len() && road_tag(
                map.spec_parent(map.spec_intersection(i).turns@[k].id.src),
            ) == Some(major) && !is_through_from(map, i, k, major) ==> (#[trigger] assigned_entries(
                map,
                i,
            )[k]).1 == TurnPriority::Yield,
        through_turns_compatible(map, i, major) ==> forall|k: int|
            0 <= k < map.spec_intersection(i).turns@.len() && is_through_from(map, i, k, major)
                ==> (#[trigger] assigned_entries(map, i)[k]).1 == TurnPriority::Priority,
{
    lemma_assignment_covers_turns(map, i);
    lemma_major_is_top(map, i, major, minor);
    assert forall|k: int| 0 <= k < map.spec_intersection(i).turns@.len() implies {
        &&& road_tag(map.spec_parent(map.spec_intersection(i).turns@[k].id.src)) == Some(minor)
            ==> (#[trigger] assigned_entries(map, i)[k]).1 == TurnPriority::Stop
        &&& road_tag(map.spec_parent(map.spec_intersection(i).turns@[k].id.src)) == Some(major)
            && !is_through_from(map, i, k, major) ==> assigned_entries(map, i)[k].1
            == TurnPriority::Yield
        &&& through_turns_compatible(map, i, major) && is_through_from(map, i, k, major)
            ==> assigned_entries(map, i)[k].1 == TurnPriority::Priority
    } by {
        lemma_major_turn(map, i, major, minor, k);
    }
}

/// Whether a run of edits went as `set_priority` says: `states[s + 1]` is the policy
/// after edit `s`, which was accepted when `accepted[s]` holds.
pub open spec fn edit_run(states: Seq<StopSignView>, accepted: Seq<bool>) -> bool {
    &&& states.len() == accepted.len() + 1
    &&& forall|s: int|
        0 <= s < accepted.len() ==> (#[trigger] states[s + 1]).changed == (states[s].changed
            || accepted[s])
}

/// After a freshly assigned policy goes through a run of edits, it reads as changed
/// exactly when at least one edit was accepted.
pub proof fn lemma_changed_after_edits(states: Seq<StopSignView>, accepted: Seq<bool>)
    requires
        edit_run(states, accepted),
        !states[0].changed,
    ensures
        states.last().changed <==> exists|s: int| 0 <= s < accepted.len() && #[trigger] accepted[s],
    decreases accepted.len(),
{
    if accepted.len() == 0 {
        assert(states.last() == states[0]);
    } else {
        let m = accepted.len() - 1;
        let s2 = states.drop_last();
        let a2 = accepted.drop_last();
        assert forall|s: int| 0 <= s < a2.len() implies (#[trigger] s2[s + 1]).changed == (s2[s].changed
            || a2[s]) by {
            assert(states[s + 1].changed == (states[s].changed || accepted[s]));
        }
        lemma_changed_after_edits(s2, a2);
        assert(states[m + 1].changed == (states[m].changed || accepted[m]));
        assert(s2.last() == states[m]);
        assert(states.last() == states[m + 1]);
        if exists|s: int| 0 <= s < a2.len() && #[trigger] a2[s] {
            let s = choose|s: int| 0 <= s < a2.len() && #[trigger] a2[s];
            assert(accepted[s]);
        }
        if exists|s: int| 0 <= s < accepted.len() && #[trigger] accepted[s] {
            let s = choose|s: int| 0 <= s < accepted.len() && #[trigger] accepted[s];
            if s < m {
                assert(a2[s]);
            }
        }
    }
}

} // verus!
