//! A mutation-testing engine for Solidity-style source programs.
//!
//! Given a parsed syntax tree and the original source bytes, the library
//! discovers locations where small randomized edits apply, generates candidate
//! mutant programs, deduplicates them, and hands each candidate out for an
//! external validity check before it is persisted by the caller.

pub mod ast;
pub mod bytes;
pub mod chars;
pub mod doc;
pub mod mutation;
pub mod params;
pub mod rng;
pub mod run;
