use vstd::prelude::*;

use crate::crdt::state::error::StateError;
use crate::store::traits::StoreError;

verus! {

/// Errors of the execution caches: from a value, or from a store.
#[derive(Debug, PartialEq)]
pub enum Error {
    State(StateError),
    Store(StoreError),
}

impl From<StateError> for Error {
    fn from(error: StateError) -> (r: Error) {
        Error::State(error)
    }
}

impl vstd::std_specs::convert::FromSpecImpl<StateError> for Error {
    open spec fn obeys_from_spec() -> bool {
        true
    }

    open spec fn from_spec(error: StateError) -> Error {
        Error::State(error)
    }
}

impl From<StoreError> for Error {
    fn from(error: StoreError) -> (r: Error) {
        Error::Store(error)
    }
}

impl vstd::std_specs::convert::FromSpecImpl<StoreError> for Error {
    open spec fn obeys_from_spec() -> bool {
        true
    }

    open spec fn from_spec(error: StoreError) -> Error {
        Error::Store(error)
    }
}

} // verus!
