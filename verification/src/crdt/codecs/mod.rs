pub mod internal;
pub mod rlp;
