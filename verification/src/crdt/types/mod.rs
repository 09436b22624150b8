pub mod int64;
pub mod uint64;
pub mod word;

pub use int64::I64;
pub use uint64::U64;
pub mod u256;
pub use u256::U256;
pub mod bytes;
pub use bytes::Bytes;
pub mod u64_set;
pub use u64_set::U64Set;
pub mod path_meta;
pub use path_meta::{PathDelta, PathMeta};
