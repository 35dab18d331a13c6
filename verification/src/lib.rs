//! Parsing and interpretation of BTOR2 model-checker witness traces.
//!
//! A witness is the textual counterexample a bounded model checker emits for
//! a BTOR2 model: a `sat` marker, a header naming the violated properties,
//! a sequence of stepped frames holding state and input assignments, and a
//! trace terminator. This crate parses that wire format into structured
//! values and resolves the reported property indices against the model's
//! own property declarations.

use vstd::prelude::*;

pub mod grammar;
pub mod interpret;
pub mod laws;
pub mod model;
pub mod parser;
pub mod text;
pub mod witness;

verus! {

/// Kind of a checked property: `Bad` is a safety property (an error state is
/// reachable), `Justice` a liveness/fairness property.
#[derive(Debug, Clone, Copy, PartialEq, Eq, Structural)]
pub enum PropKind {
    Bad,
    Justice,
}

/// A property as it appears in a witness header: its kind and its
/// declaration index among the properties of that kind.
#[derive(Debug, Clone, Copy, PartialEq, Eq, Structural)]
pub struct Prop {
    pub kind: PropKind,
    pub idx: u64,
}

/// The one action the command line selects: parse a witness, read from the
/// named file, or from standard input when no file is given.
#[derive(Debug, Clone, PartialEq, Eq)]
pub enum Config {
    ParseWitness { file: Option<String> },
}

/// Settings for a benchmarking session around the model checker: an
/// optional per-run timeout in milliseconds, the file names to keep, the
/// named argument sets to run, and an optional path for the results store.
#[derive(Debug, Clone, PartialEq, Eq)]
pub struct BenchConfig {
    pub timeout: Option<u128>,
    pub files: Vec<String>,
    pub runs: Vec<(String, String)>,
    pub results_path: Option<String>,
}

impl Default for BenchConfig {
    /// The empty configuration: no timeout, no files, no runs, no path.
    fn default() -> (r: Self)
        ensures
            r.timeout is None,
            r.files@.len() == 0,
            r.runs@.len() == 0,
            r.results_path is None,
    {
        BenchConfig { timeout: None, files: Vec::new(), runs: Vec::new(), results_path: None }
    }
}

} // verus!
