pub mod crdt;
pub mod state;
pub mod types;

pub use self::crdt::Crdt;
pub use types::{Bytes, I64, U256, U64, U64Set};
pub use types::{bytes, int64, u256, u64_set, uint64, word};
pub mod codecs;
