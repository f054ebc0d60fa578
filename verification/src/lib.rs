//! Profiling of compute units and heap in Solana programs: the state that the
//! profiling syscalls drive, the post-processing of what they record, and the
//! markdown benchmark reports built from the results.
pub mod text;
pub mod mollusk;
pub mod report;
