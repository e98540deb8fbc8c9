use vstd::prelude::*;

verus! {

/// Identifies an intersection: its index in `RoadMap::intersections`.
#[derive(Debug, Clone, Copy, PartialEq, Eq, Structural)]
pub struct IntersectionID(pub usize);

/// Identifies a lane: its index in `RoadMap::lanes`.
#[derive(Debug, Clone, Copy, PartialEq, Eq, Structural)]
pub struct LaneID(pub usize);

/// Identifies a road: its index in `RoadMap::roads`.
#[derive(Debug, Clone, Copy, PartialEq, Eq, Structural)]
pub struct RoadID(pub usize);

/// Identifies a turn by the intersection it crosses and the lanes it joins.
#[derive(Debug, Clone, Copy, PartialEq, Eq, Structural)]
pub struct TurnID {
    pub parent: IntersectionID,
    pub src: LaneID,
    pub dst: LaneID,
}

impl TurnID {
    /// The order of turn identifiers: by intersection, then source lane, then
    /// destination lane.
    pub open spec fn spec_lt(self, other: TurnID) -> bool {
        ||| self.parent.0 < other.parent.0
        ||| (self.parent.0 == other.parent.0 && self.src.0 < other.src.0)
        ||| (self.parent.0 == other.parent.0 && self.src.0 == other.src.0 && self.dst.0 < other.dst.0)
    }
}

/// The shape of a turn.
#[derive(Debug, Clone, Copy, PartialEq, Eq, Structural)]
pub enum TurnType {
    Straight,
    Right,
    Left,
    Crosswalk,
    Other,
}

/// One permitted movement through an intersection.
#[derive(Debug, Clone, Copy, PartialEq, Eq, Structural)]
pub struct Turn {
    pub id: TurnID,
    pub turn_type: TurnType,
}

/// A lane, with a reference to the road that owns it.
#[derive(Debug, Clone)]
pub struct Lane {
    pub parent: RoadID,
}

/// A road and its functional classification (the `highway` tag), if any.
#[derive(Debug, Clone)]
pub struct Road {
    pub highway: Option<String>,
}

/// The structure of one intersection, as the map model reports it.
///
/// `turns` lists the intersection's turns in increasing order of identifier.
/// `conflicts` lists pairs of turns whose paths cross or merge; the relation is
/// read in both directions, and a turn never conflicts with itself.
#[derive(Debug, Clone)]
pub struct Intersection {
    pub roads: Vec<RoadID>,
    pub incoming_lanes: Vec<LaneID>,
    pub outgoing_lanes: Vec<LaneID>,
    pub turns: Vec<Turn>,
    pub conflicts: Vec<(TurnID, TurnID)>,
    pub has_traffic_signal: bool,
}

/// The read-only part of the map model that stop-sign policies consult.
#[derive(Debug, Clone)]
pub struct RoadMap {
    pub roads: Vec<Road>,
    pub lanes: Vec<Lane>,
    pub intersections: Vec<Intersection>,
}

impl Intersection {
    /// Whether two turns may not run at the same time.
    pub open spec fn conflict(self, a: TurnID, b: TurnID) -> bool {
        &&& a != b
        &&& exists|k: int|
            0 <= k < self.conflicts@.len() && (#[trigger] self.conflicts@[k] == (a, b)
                || self.conflicts@[k] == (b, a))
    }

    /// The identifiers of the turns, in the intersection's order.
    pub open spec fn turn_ids(self) -> Seq<TurnID> {
        Seq::new(self.turns@.len(), |k: int| self.turns@[k].id)
    }

    /// Every lane that touches the intersection: incoming lanes, then outgoing ones.
    pub open spec fn touching_lanes(self) -> Seq<LaneID> {
        self.incoming_lanes@ + self.outgoing_lanes@
    }

    /// Whether `l` is one of the intersection's incoming lanes.
    pub open spec fn is_incoming(self, l: LaneID) -> bool {
        exists|j: int| 0 <= j < self.incoming_lanes@.len() && #[trigger] self.incoming_lanes@[j] == l
    }

    /// Well-formedness against a map with `n_lanes` lanes: lanes exist, turns are
    /// listed in strictly increasing identifier order (so identifiers are distinct),
    /// and each turn leaves from an incoming lane.
    pub open spec fn wf(self, n_lanes: nat) -> bool {
        &&& forall|k: int|
            0 <= k < self.touching_lanes().len() ==> (#[trigger] self.touching_lanes()[k]).0
                < n_lanes
        &&& forall|j: int, k: int|
            0 <= j < k < self.turns@.len() ==> (#[trigger] self.turns@[j]).id.spec_lt(
                (#[trigger] self.turns@[k]).id,
            )
        &&& forall|k: int| 0 <= k < self.turns@.len() ==> self.is_incoming(#[trigger] self.turns@[k].id.src)
    }

    /// Whether turns `a` and `b` conflict.
    pub fn conflicts_with(&self, a: TurnID, b: TurnID) -> (r: bool)
        ensures
            r == self.conflict(a, b),
    {
        if a == b {
            return false;
        }
        let mut k: usize = 0;
        while k < self.conflicts.len()
            invariant
                k <= self.conflicts@.len(),
                a != b,
                forall|j: int|
                    0 <= j < k ==> !(#[trigger] self.conflicts@[j] == (a, b) || self.conflicts@[j]
                        == (b, a)),
            decreases self.conflicts@.len() - k,
        {
            let (x, y) = self.conflicts[k];
            if (x == a && y == b) || (x == b && y == a) {
                return true;
            }
            k += 1;
        }
        false
    }
}

impl RoadMap {
    /// The intersection with identifier `i`.
    pub open spec fn spec_intersection(self, i: IntersectionID) -> Intersection {
        self.intersections@[i.0 as int]
    }

    /// The road that owns lane `l`.
    pub open spec fn spec_parent(self, l: LaneID) -> Road {
        self.roads@[self.lanes@[l.0 as int].parent.0 as int]
    }

    /// Every reference inside the map points at an existing record, and each turn
    /// names the intersection that lists it.
    pub open spec fn wf(self) -> bool {
        &&& forall|i: int, k: int|
            0 <= i < self.intersections@.len() && 0 <= k < self.intersections@[i].turns@.len()
                ==> (#[trigger] self.intersections@[i].turns@[k]).id.parent.0 == i
        &&& forall|k: int| 0 <= k < self.lanes@.len() ==> (#[trigger] self.lanes@[k]).parent.0 < self.roads@.len()
        &&& forall|k: int|
            0 <= k < self.intersections@.len() ==> (#[trigger] self.intersections@[k]).wf(
                self.lanes@.len(),
            )
    }

    /// The intersection with identifier `i`.
    pub fn get_i(&self, i: IntersectionID) -> (r: &Intersection)
        requires
            i.0 < self.intersections@.len(),
        ensures
            *r == self.spec_intersection(i),
    {
        &self.intersections[i.0]
    }

    /// The road that owns lane `l`.
    pub fn get_parent(&self, l: LaneID) -> (r: &Road)
        requires
            self.wf(),
            l.0 < self.lanes@.len(),
        ensures
            *r == self.spec_parent(l),
    {
        let p = self.lanes[l.0].parent;
        &self.roads[p.0]
    }
}

} // verus!
