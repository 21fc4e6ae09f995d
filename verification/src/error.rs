use vstd::prelude::*;

verus! {

/// The error taxonomy of the crate.
///
/// `CliUsage` and `InvalidSpiderName` are configuration errors: they prevent
/// a run from starting. `Fetch` is a per-fetch transient failure: it is
/// contained at the worker level and never aborts a run.
#[derive(Debug)]
pub enum Error {
    CliUsage,
    InvalidSpiderName(String),
    Fetch(String),
}

} // verus!
