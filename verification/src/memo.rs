use vstd::prelude::*;

use crate::durability::Durability;

verus! {

/// How a memo's value came to exist.  The variant decides the deep
/// verification strategy for the memo.
#[derive(Debug)]
pub enum QueryOrigin {
    /// Set directly by a mutator; never stale independently of the
    /// durability clock.
    BaseInput,
    /// A structural field fixed when its owning entity was built; likewise
    /// never stale on its own.
    Field,
    /// Written as a side effect of the given producer query; its validity
    /// follows the producer and is never independently re-verifiable.
    Assigned(usize),
    /// Computed, but some inputs escaped tracking; no proof of
    /// unchanged-ness is ever possible.
    DerivedUntracked(Vec<usize>),
    /// Computed reading only tracked queries; the edges are the dependency
    /// keys in the exact order they were read during execution.
    Derived(Vec<usize>),
}

/// The ordered dependency edges recorded in an origin; empty for origins
/// that record none.
pub open spec fn origin_edges(o: QueryOrigin) -> Seq<usize> {
    match o {
        QueryOrigin::Derived(e) => e@,
        QueryOrigin::DerivedUntracked(e) => e@,
        _ => Seq::empty(),
    }
}

/// The immutable part of a stored memo: every field but `verified_at` and
/// the value slot.  Once installed for a key, a `MemoCore` is only ever
/// replaced whole, never mutated, so readers cannot observe a torn record;
/// `verified_at` and the value live in slots of their own beside it.
#[derive(Debug)]
pub struct MemoCore {
    /// Revision at which the value last logically changed (after
    /// backdating).
    pub changed_at: u64,
    /// Minimum durability over everything the computation read.
    pub durability: Durability,
    /// How the value came to exist.
    pub origin: QueryOrigin,
}

/// A memo as the contracts speak of it: the stored immutable core assembled
/// together with the separately updated `verified_at` and value slots.
pub struct Memo {
    pub value: Option<u64>,
    pub changed_at: u64,
    pub verified_at: u64,
    pub durability: Durability,
    pub origin: QueryOrigin,
}

} // verus!
