//! A short form of the command line.
use crate::path::PathBuf;
use vstd::prelude::*;

verus! {

/// The form in which solutions are printed.
#[derive(Debug, Clone, Copy, PartialEq, Eq, Structural)]
pub enum OutputMode {
    Dzn,
}

/// What the user asks for.
#[derive(Debug)]
pub struct Args {
    pub model: PathBuf,
    pub data: Option<PathBuf>,
    pub output_mode: Option<OutputMode>,
    /// Whether the objective is printed.
    pub output_objective: bool,
    /// Whether the search that the model asks for is ignored.
    pub ignore_search: bool,
    pub threads: Option<usize>,
}

} // verus!
