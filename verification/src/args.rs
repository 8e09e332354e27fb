//! Command line arguments for the CLI interface.

use vstd::prelude::*;

verus! {

/// Command line arguments for the CLI interface.
pub struct Args {
    input_files: Vec<String>,
    verbose: bool,
}

impl Args {
    /// The named input files.
    pub closed spec fn spec_input_files(self) -> Seq<String> {
        self.input_files@
    }

    /// Whether verbose logging was requested.
    pub closed spec fn spec_verbose(self) -> bool {
        self.verbose
    }

    /// Bundles the parsed arguments: the input files, and whether verbose
    /// logging was requested.
    pub fn new(input_files: Vec<String>, verbose: bool) -> (r: Self)
        ensures
            r.spec_input_files() == input_files@,
            r.spec_verbose() == verbose,
    {
        Args { input_files, verbose }
    }

    /// The list of CSV input files specified.
    pub fn input_files(&self) -> (r: &[String])
        ensures
            r@ == self.spec_input_files(),
    {
        self.input_files.as_slice()
    }

    /// True if verbose logging is enabled.
    pub fn verbose(&self) -> (r: bool)
        ensures
            r == self.spec_verbose(),
    {
        self.verbose
    }
}

/// Error produced when the command line is unusable.
#[derive(Clone, Debug)]
pub enum ArgsError {
    /// No input file was named on the command line.
    NoInputFilesSpecified,
}

} // verus!
