//! Diagnostics: attributing the per-row cost of the hot loop to its parts.
//!
//! Each mode removes or swaps one stage, so the difference between two adjacent modes is the
//! marginal cost of the stage between them. What a mode computes is folded into a sink, an XOR
//! over every row, which is independent of how the rows happened to be reached: two modes that
//! agree on the rows must end with the same sink.

pub mod borrowed;
pub mod count;
pub mod drain;
pub mod modes;
pub mod room;
pub mod rows;
pub mod split;
pub mod sweep;
pub mod take;
