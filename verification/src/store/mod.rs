pub mod traits;

pub use traits::StoreError;
pub mod cached;
