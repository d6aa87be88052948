//! Implementations of regions and containers.

pub mod codec;
pub mod columns;
pub mod consolidate;
pub mod deduplicate;
pub mod fixed_columns;
pub mod huffman_container;
pub mod index;
pub mod mirror;
pub mod negate;
pub mod option;
pub mod result;
pub mod offsets;
pub mod slice;
pub mod slice_copy;
pub mod slice_owned;
pub mod storage;
pub mod string;
pub mod tuple;
pub mod vec;
