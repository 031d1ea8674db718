//! Dependency-propagation engine for a fleet of repositories that share
//! lockfile-style dependency links. Given a changed repository and a map of
//! per-repository declared dependencies, the planner computes the ordered
//! chain of update steps, and the executor state machine drives each step
//! (update, stage, commit, push) with strict preconditions and fail-fast
//! semantics.

use vstd::prelude::*;

pub mod config;
pub mod exec;
pub mod graph;
pub mod plan;
pub mod repos;

verus! {

/// A single step in the update chain: the repository to update and the
/// dependency names to re-resolve in it.
pub struct UpdateStep {
    /// Repository to update (directory name under the workspace base dir).
    pub repo: String,
    /// Dependency inputs to pass to the resolution command.
    pub inputs: Vec<String>,
}

impl UpdateStep {
    /// The step as a pair of mathematical values.
    pub open spec fn view(self) -> (Seq<char>, Seq<Seq<char>>) {
        (self.repo@, crate::graph::views(self.inputs@))
    }
}

} // verus!
