//! Shared CRDT values, deltas, and access tracking.

pub mod delta;
pub mod error;

pub use delta::{Delta, DeltaOp};
pub use error::{NumericError, StateError};
pub mod numeric;
pub use numeric::Numeric;
pub mod value;
pub use value::Value;
pub mod tracked_value;
pub use tracked_value::TrackedValue;
