pub mod crdt;
pub mod collections;
pub mod store;
pub mod execution;
