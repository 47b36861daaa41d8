//! What the analysis reports when it cannot give a result.

use vstd::prelude::*;

verus! {

/// Why the analysis of a task set stopped.
#[derive(Debug, PartialEq, Eq)]
pub enum AnalysisError {
    /// The named task cannot meet its deadline.
    NonSchedulable(String),
    /// The named resource is locked by a task but has no priority ceiling.
    MissingCeiling(String),
}

/// Mathematical model of an [`AnalysisError`].
pub enum Failure {
    NonSchedulable(Seq<char>),
    MissingCeiling(Seq<char>),
}

impl View for AnalysisError {
    type V = Failure;

    open spec fn view(&self) -> Failure {
        match self {
            AnalysisError::NonSchedulable(task) => Failure::NonSchedulable(task@),
            AnalysisError::MissingCeiling(resource) => Failure::MissingCeiling(resource@),
        }
    }
}

} // verus!
