pub mod im_map;
pub mod delta_set;
pub mod shard_map;
