pub mod block_cache;
pub mod error;
pub mod vm_cache;

pub use block_cache::BlockCache;
pub use error::Error;

pub use vm_cache::VmCache;
