use vstd::prelude::*;

verus! {

/// A replicated value that accumulates a pending delta next to its committed
/// value and folds the delta in on `apply_delta`.
pub trait Crdt<T: ?Sized, D: ?Sized>: Sized {
    type Error;

    /// The states on which the operations are defined.
    spec fn crdt_wf(&self) -> bool;

    /// The states on which `add_delta` is defined.
    spec fn accepts_deltas(&self) -> bool;

    /// The committed value, if any.
    fn value(&self) -> Option<&T>;

    /// The pending delta, if any.
    fn delta(&self) -> Option<&D>;

    /// Accumulates `delta` into the pending delta, returning the pending
    /// delta after the call.
    fn add_delta(&mut self, delta: &D) -> (r: Result<&D, Self::Error>)
        requires
            old(self).accepts_deltas(),
        ensures
            old(self).crdt_wf() ==> final(self).crdt_wf(),
    ;

    /// Folds the pending delta into the committed value.
    fn apply_delta(&mut self) -> (r: &Self)
        requires
            old(self).crdt_wf(),
        ensures
            final(self).crdt_wf(),
    ;

    /// The configured `(lower, upper)` limits, if the type has any.
    fn limits(&self) -> Option<(&T, &T)>;

    fn is_numeric(&self) -> bool;

    fn is_commutative(&self) -> bool;
}

/// A CRDT that reports how much room it takes in a cache.
pub trait CacheableCrdt<T: ?Sized, D: ?Sized>: Crdt<T, D> {
    fn cache_weight(&self) -> usize;
}

} // verus!
