//! Truncated binary encoding over a least-significant-bit-first bit stream.
//!
//! The crate has three layers:
//! - `bits`: the mathematical model of bit streams (sequences of booleans,
//!   least significant bit first) and the lemmas connecting machine bit
//!   operations to that model;
//! - `stream`: a bit writer that packs sub-byte writes into bytes, and a bit
//!   reader that mirrors it;
//! - `tbe`: the truncated binary code itself, which represents a value in
//!   `[0, n)` with either `k` or `k + 1` bits, `k = floor(log2(n))`.

pub mod bits;
pub mod stream;
pub mod tbe;

pub use crate::stream::{BitReader, BitWriter, StreamError};
pub use crate::tbe::{exp2, floor_log2, Tbe, TbeStruct};
