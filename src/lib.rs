use vstd::prelude::*;

pub mod client;
pub mod fixed;
pub mod parser;
pub mod pool;

pub use pool::{Asset, Pool, Swap, Symbol};

verus! {

/// One unit in the 18-decimal fixed-point representation used on chain.
pub const FIXED_ONE: u128 = 1_000_000_000_000_000_000;

/// What can go wrong when moving values between the chain and the planner.
#[derive(Debug, Clone, Copy, PartialEq, Eq, Structural)]
pub enum Error {
    /// An on-chain value cannot be read as a symbol or a fixed-point number.
    Decode,
    /// A value cannot be written on chain (symbol too long, malformed number).
    Encode,
    /// A target symbol is missing from the snapshot or named twice, or the
    /// snapshot is empty.
    Precondition,
    /// A quantity leaves the range the planner computes in: an overflow, or a
    /// balance that would fall below zero.
    OutOfRange,
}

} // verus!
