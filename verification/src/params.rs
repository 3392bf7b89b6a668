//! Run configuration: what to mutate, how many mutants, and the seed.

use vstd::prelude::*;

verus! {

/// Configuration of a mutation run.
pub struct MutationParams {
    /// Path of a configuration file, when one drives the run.
    pub json: Option<String>,
    /// Files to mutate.
    pub filename: Option<Vec<String>>,
    /// The mutant quota.
    pub num_mutants: i64,
    /// Directory to store all mutants.
    pub outdir: String,
    /// Seed for the random stream.
    pub seed: u64,
    /// The compiler used to parse sources and check candidate validity.
    pub solc: String,
}

/// What the tool is asked to do.
pub enum Command {
    Mutate(MutationParams),
}

} // verus!
