pub mod map;
pub mod priority;
pub mod rank;
pub mod stop_signs;

pub use map::{Intersection, IntersectionID, Lane, LaneID, RoadMap, Road, RoadID, Turn, TurnID, TurnType};
pub use priority::TurnPriority;
pub use rank::{road_rank, ClassificationError};
pub use stop_signs::{validate, ControlStopSign, EditError, Entries, ValidationError};
