pub mod block;
pub mod block_builder;
pub mod coding;
pub mod format;
pub mod hash_index;
