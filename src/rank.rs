use vstd::prelude::*;
use crate::map::{LaneID, Road, RoadMap};

verus! {

/// A road classification tag that the rank table does not know.
#[derive(Debug, Clone)]
pub struct ClassificationError {
    pub tag: String,
}

/// The rank of a classification tag, higher for more important roads, or `None`
/// for a tag the table does not know.
pub open spec fn tag_rank(tag: Seq<char>) -> Option<nat> {
    if tag == "motorway"@ {
        Some(20)
    } else if tag == "motorway_link"@ {
        Some(19)
    } else if tag == "trunk"@ {
        Some(17)
    } else if tag == "trunk_link"@ {
        Some(16)
    } else if tag == "primary"@ {
        Some(15)
    } else if tag == "primary_link"@ {
        Some(14)
    } else if tag == "secondary"@ {
        Some(13)
    } else if tag == "secondary_link"@ {
        Some(12)
    } else if tag == "tertiary"@ {
        Some(10)
    } else if tag == "tertiary_link"@ {
        Some(9)
    } else if tag == "residential"@ {
        Some(5)
    } else if tag == "footway"@ {
        Some(1)
    } else if tag == "unclassified"@ || tag == "road"@ || tag.len() == 0 {
        Some(0)
    } else {
        None
    }
}

/// The rank of a road; a road without a tag ranks 0.
pub open spec fn road_rank_of(road: Road) -> Option<nat> {
    match road.highway {
        Some(t) => tag_rank(t@),
        None => Some(0),
    }
}

/// The rank of the road that owns lane `l`.
pub open spec fn lane_rank_of(map: RoadMap, l: LaneID) -> Option<nat> {
    road_rank_of(map.spec_parent(l))
}

/// Whether two strings hold the same characters.
fn text_eq(s: &str, t: &str) -> (r: bool)
    ensures
        r == (s@ == t@),
{
    let n = s.unicode_len();
    if n != t.unicode_len() {
        return false;
    }
    let mut k: usize = 0;
    while k < n
        invariant
            n == s@.len(),
            n == t@.len(),
            k <= n,
            forall|j: int| 0 <= j < k ==> s@[j] == t@[j],
        decreases n - k,
    {
        if s.get_char(k) != t.get_char(k) {
            return false;
        }
        k += 1;
    }
    assert(s@ =~= t@);
    true
}

/// The rank of a road with classification tag `highway`: 20 for a motorway down to
/// 0 for an unclassified or generic road, or a road without a tag. A tag that the
/// table does not know is an error that carries the tag.
pub fn road_rank(highway: Option<&str>) -> (r: Result<usize, ClassificationError>)
    ensures
        highway is None ==> r == Ok::<usize, ClassificationError>(0),
        highway is Some ==> match tag_rank(highway->0@) {
            Some(k) => r is Ok && r->Ok_0 == k,
            None => r is Err && r->Err_0.tag@ == highway->0@,
        },
{
    let tag = match highway {
        None => {
            return Ok(0);
        },
        Some(t) => t,
    };
    if text_eq(tag, "motorway") {
        Ok(20)
    } else if text_eq(tag, "motorway_link") {
        Ok(19)
    } else if text_eq(tag, "trunk") {
        Ok(17)
    } else if text_eq(tag, "trunk_link") {
        Ok(16)
    } else if text_eq(tag, "primary") {
        Ok(15)
    } else if text_eq(tag, "primary_link") {
        Ok(14)
    } else if text_eq(tag, "secondary") {
        Ok(13)
    } else if text_eq(tag, "secondary_link") {
        Ok(12)
    } else if text_eq(tag, "tertiary") {
        Ok(10)
    } else if text_eq(tag, "tertiary_link") {
        Ok(9)
    } else if text_eq(tag, "residential") {
        Ok(5)
    } else if text_eq(tag, "footway") {
        Ok(1)
    } else if text_eq(tag, "unclassified") || text_eq(tag, "road") || tag.unicode_len() == 0 {
        Ok(0)
    } else {
        Err(ClassificationError { tag: String::from_str(tag) })
    }
}

/// The rank of the road that owns lane `l`.
pub fn lane_rank(map: &RoadMap, l: LaneID) -> (r: Result<usize, ClassificationError>)
    requires
        map.wf(),
        l.0 < map.lanes@.len(),
    ensures
        match lane_rank_of(*map, l) {
            Some(k) => r is Ok && r->Ok_0 == k,
            None => r is Err && map.spec_parent(l).highway is Some && r->Err_0.tag@
                == map.spec_parent(l).highway->0@,
        },
{
    let road = map.get_parent(l);
    match &road.highway {
        Some(t) => road_rank(Some(t.as_str())),
        None => road_rank(None),
    }
}

} // verus!
