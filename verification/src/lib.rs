//! A small collection of verified containers and routines.
//!
//! The centre of the crate is [`dict::Dict`], an open-addressing table with a
//! bounded linear-probe window that grows when a window fills up.

pub mod dict;
mod hashing;
pub mod linkedlist;
pub mod merge;
pub mod order;
pub mod qsort;
pub mod runs;
