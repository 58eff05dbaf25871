//! Counter-based pseudorandom generators in two word widths, with kernels
//! that fill caller-supplied buffers from their output stream.

pub mod philox32x4;
pub mod philox64x2;

pub use philox32x4::{philox32x4_new, next_u32s, rand_i32s, Philox32x4};
pub use philox64x2::{philox64x2_new, next_u64s, rand_i64s, Philox64x2};

