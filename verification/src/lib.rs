//! The One Billion Row Challenge: reading `<station>;<temperature>` lines and reporting the
//! minimum, mean and maximum per station.

pub mod block;
pub mod bytes;
pub mod calls;
pub mod chunk;
pub mod config;
pub mod engine;
pub mod feed;
pub mod format;
pub mod generate;
pub mod hash;
pub mod hot;
pub mod inline_table;
pub mod intake;
pub mod keys;
pub mod lanes;
pub mod merge;
pub mod output;
pub mod parse;
pub mod probing;
pub mod reading;
pub mod rows;
pub mod schedule;
pub mod slots;
pub mod swar;
pub mod table;
pub mod versions;
pub mod workers;

use vstd::prelude::*;

verus! {

/// Longest legal line: 100-byte name + ';' + "-99.9" + '\n'.
pub const MAX_LINE_LEN: usize = 107;

/// The challenge caps unique station names at 10,000.
pub const MAX_STATIONS: usize = 10_000;

} // verus!
