//! The command line of the compiler.
use vstd::prelude::*;

verus! {

/// The command line: the input file (`-koopa INPUT`) and the output file
/// (`-o OUTPUT`).
pub struct Args {
    pub input: String,
    pub output: String,
}

} // verus!
