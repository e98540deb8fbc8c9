use vstd::prelude::*;

verus! {

/// How freely a turn may be taken at a stop-sign intersection.
///
/// The three values are totally ordered by `level`: `Stop < Yield < Priority`.
#[derive(Debug, Clone, Copy, PartialEq, Eq, Structural)]
pub enum TurnPriority {
    /// Vehicles must come to a full stop before taking the turn.
    Stop,
    /// Vehicles may go when no conflicting movement is already under way.
    Yield,
    /// Vehicles do not have to stop; never conflicts with another priority turn.
    Priority,
}

impl TurnPriority {
    /// The position of a priority in the total order.
    pub open spec fn spec_level(self) -> nat {
        match self {
            TurnPriority::Stop => 0,
            TurnPriority::Yield => 1,
            TurnPriority::Priority => 2,
        }
    }

    /// The position of this priority in the total order.
    pub fn level(&self) -> (r: u8)
        ensures
            r as nat == self.spec_level(),
    {
        match self {
            TurnPriority::Stop => 0,
            TurnPriority::Yield => 1,
            TurnPriority::Priority => 2,
        }
    }

    /// Ordering of two priorities by level.
    pub open spec fn spec_cmp(self, other: TurnPriority) -> core::cmp::Ordering {
        if self.spec_level() < other.spec_level() {
            core::cmp::Ordering::Less
        } else if self.spec_level() == other.spec_level() {
            core::cmp::Ordering::Equal
        } else {
            core::cmp::Ordering::Greater
        }
    }
}

impl PartialOrd for TurnPriority {
    fn partial_cmp(&self, other: &TurnPriority) -> (r: Option<core::cmp::Ordering>)
        ensures
            r == Some(self.spec_cmp(*other)),
    {
        let a = self.level();
        let b = other.level();
        if a < b {
            Some(core::cmp::Ordering::Less)
        } else if a == b {
            Some(core::cmp::Ordering::Equal)
        } else {
            Some(core::cmp::Ordering::Greater)
        }
    }
}

impl vstd::std_specs::cmp::PartialOrdSpecImpl for TurnPriority {
    open spec fn obeys_partial_cmp_spec() -> bool {
        true
    }

    open spec fn partial_cmp_spec(&self, other: &TurnPriority) -> Option<core::cmp::Ordering> {
        Some(self.spec_cmp(*other))
    }
}

/// The order on priorities is total, with `Stop < Yield < Priority`: the comparison
/// that `<` and `>` use puts the three values in that order, two priorities compare
/// equal exactly when they are the same, and comparing the other way round gives the
/// opposite answer, and the order is transitive.
pub proof fn lemma_priority_total_order(a: TurnPriority, b: TurnPriority, c: TurnPriority)
    ensures
        TurnPriority::Stop.spec_cmp(TurnPriority::Yield) == core::cmp::Ordering::Less,
        TurnPriority::Yield.spec_cmp(TurnPriority::Priority) == core::cmp::Ordering::Less,
        TurnPriority::Stop.spec_cmp(TurnPriority::Priority) == core::cmp::Ordering::Less,
        a.spec_cmp(b) == core::cmp::Ordering::Equal <==> a == b,
        a.spec_cmp(b) == core::cmp::Ordering::Less <==> b.spec_cmp(a)
            == core::cmp::Ordering::Greater,
        a.spec_cmp(b) == core::cmp::Ordering::Less || a.spec_cmp(b) == core::cmp::Ordering::Equal
            || a.spec_cmp(b) == core::cmp::Ordering::Greater,
        a.spec_cmp(b) == core::cmp::Ordering::Less && b.spec_cmp(c) == core::cmp::Ordering::Less
            ==> a.spec_cmp(c) == core::cmp::Ordering::Less,
{
}

} // verus!
