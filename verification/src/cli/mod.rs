//! Command-line arguments.
use vstd::prelude::*;

verus! {

/// The arguments of the `build` command: the project root, a path written
/// with '/' separators.
#[derive(Debug, Clone)]
pub struct CLIArguments {
    pub root: String,
}

} // verus!
