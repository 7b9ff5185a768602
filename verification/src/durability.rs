use vstd::prelude::*;

verus! {

/// Durability tier of a base input: how rarely it is expected to change.
/// Tiers are totally ordered, `Low < Medium < High`.  A derived memo carries
/// the minimum durability over all dependencies it read, and the revision
/// clock records, per tier, the last revision at which an input of that tier
/// or a higher one was mutated.
#[derive(Clone, Copy, Debug, PartialEq, Eq, Structural)]
pub enum Durability {
    Low,
    Medium,
    High,
}

/// The lower of two durability tiers.
pub open spec fn dur_min(a: Durability, b: Durability) -> Durability {
    if a.idx() <= b.idx() {
        a
    } else {
        b
    }
}

impl Durability {
    /// Position of the tier in the order `Low < Medium < High`.
    pub open spec fn idx(self) -> int {
        match self {
            Durability::Low => 0,
            Durability::Medium => 1,
            Durability::High => 2,
        }
    }

    /// The tier's position as a machine integer, `Low` lowest.
    pub fn tier_index(&self) -> (r: u8)
        ensures
            r as int == self.idx(),
    {
        match self {
            Durability::Low => 0,
            Durability::Medium => 1,
            Durability::High => 2,
        }
    }

    /// The lower of `self` and `other`, as used when a derived memo
    /// aggregates the durabilities of its dependencies.
    pub fn min_with(self, other: Durability) -> (r: Durability)
        ensures
            r == dur_min(self, other),
    {
        let a = self.tier_index();
        let b = other.tier_index();
        if a <= b {
            self
        } else {
            other
        }
    }
}

} // verus!
