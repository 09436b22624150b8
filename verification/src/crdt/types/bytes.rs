use vstd::prelude::*;

use crate::crdt::crdt::{CacheableCrdt, Crdt};
use crate::crdt::state::error::StateError;

verus! {

/// A byte string whose delta is its current value: setting a delta replaces
/// the value, and applying it changes nothing.
#[derive(Debug, PartialEq)]
pub struct Bytes {
    pub delta: Option<Vec<u8>>,
}

impl View for Bytes {
    type V = Option<Seq<u8>>;

    open spec fn view(&self) -> Option<Seq<u8>> {
        match self.delta {
            Some(v) => Some(v@),
            None => None,
        }
    }
}

impl Bytes {
    /// A value holding `data`.
    pub fn new(data: Vec<u8>) -> (r: Result<Bytes, StateError>)
        ensures
            r matches Ok(b) && b@ == Some(data@),
    {
        Ok(Bytes { delta: Some(data) })
    }
}

impl Clone for Bytes {
    fn clone(&self) -> (r: Bytes)
        ensures
            r@ == self@,
    {
        match &self.delta {
            Some(v) => Bytes { delta: Some(vstd::slice::slice_to_vec(v.as_slice())) },
            None => Bytes { delta: None },
        }
    }
}

impl Default for Bytes {
    fn default() -> (r: Bytes)
        ensures
            r@ is None,
    {
        Bytes { delta: None }
    }
}

impl Crdt<[u8], [u8]> for Bytes {
    type Error = StateError;

    open spec fn crdt_wf(&self) -> bool {
        true
    }

    open spec fn accepts_deltas(&self) -> bool {
        self.crdt_wf()
    }

    /// The current bytes, which are the delta.
    fn value(&self) -> (r: Option<&[u8]>)
        ensures
            r is Some <==> self@ is Some,
            r matches Some(s) ==> self@ == Some(s@),
    {
        match &self.delta {
            Some(v) => Some(v.as_slice()),
            None => None,
        }
    }

    fn delta(&self) -> (r: Option<&[u8]>)
        ensures
            r is Some <==> self@ is Some,
            r matches Some(s) ==> self@ == Some(s@),
    {
        match &self.delta {
            Some(v) => Some(v.as_slice()),
            None => None,
        }
    }

    /// Replaces the value with `delta`; never fails.
    fn add_delta(&mut self, delta: &[u8]) -> (r: Result<&[u8], StateError>)
        ensures
            final(self)@ == Some(delta@),
            r matches Ok(s) && s@ == delta@,
    {
        self.delta = Some(vstd::slice::slice_to_vec(delta));
        match &self.delta {
            Some(v) => Ok(v.as_slice()),
            None => Err(StateError::NoValue),
        }
    }

    /// Leaves the value as it is.
    fn apply_delta(&mut self) -> (r: &Bytes)
        ensures
            *final(self) == *old(self),
            *r == *old(self),
    {
        self
    }

    fn limits(&self) -> (r: Option<(&[u8], &[u8])>)
        ensures
            r is None,
    {
        None
    }

    fn is_numeric(&self) -> (r: bool)
        ensures
            !r,
    {
        false
    }

    fn is_commutative(&self) -> (r: bool)
        ensures
            !r,
    {
        false
    }
}

impl CacheableCrdt<[u8], [u8]> for Bytes {
    /// The size of the struct plus the number of payload bytes (saturating at
    /// `usize::MAX`).
    fn cache_weight(&self) -> (r: usize)
        ensures
            r == match self@ {
                Some(s) => vstd::math::min(
                    (vstd::layout::size_of::<Bytes>() + s.len()) as int,
                    usize::MAX as int,
                ),
                None => vstd::layout::size_of::<Bytes>() as int,
            },
    {
        let base = core::mem::size_of::<Bytes>();
        match &self.delta {
            Some(v) => base.saturating_add(v.len()),
            None => base,
        }
    }
}

} // verus!
