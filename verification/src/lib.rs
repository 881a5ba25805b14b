//! Succinct data structures: an indexable bit vector with `access`, `rank`
//! and `select` queries backed by a two-level popcount index, and a LOUDS
//! (Level-Order Unary Degree Sequence) tree encoding layered on top of it.

pub mod bit_string;
pub mod bit_vector;
pub mod bits;
pub mod louds;
pub mod popcount_table;
pub mod raw_bit_vector;

pub use bit_string::BitVectorString;
pub use bit_vector::{BitVector, BitVectorBuilder};
pub use louds::{Louds, LoudsBitString, LoudsBuilder, LoudsIndex, LoudsNodeNum};
pub use popcount_table::PopcountTable;
pub use raw_bit_vector::RawBitVector;
