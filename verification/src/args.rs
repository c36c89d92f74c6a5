//! Command-line options, as plain values.
//!
//! Parsing the actual command line is a collaborator's job; the parsed
//! options are handed in here as data.

use vstd::prelude::*;

verus! {

/// Verbosity options of one program run.
#[derive(Clone, Copy, PartialEq, Eq, Structural)]
pub struct Args {
    /// How many steps above the default log level to show.
    pub verbose: u8,
    /// Suppress all output on the error stream.
    pub quiet: bool,
}

impl Args {
    pub fn new(verbose: u8, quiet: bool) -> (r: Args)
        ensures
            r.verbose == verbose,
            r.quiet == quiet,
    {
        Args { verbose, quiet }
    }
}

} // verus!
