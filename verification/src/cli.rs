//! The command line's switches and what they select.

use vstd::prelude::*;

use crate::formatter::Options;
use std::path::PathBuf;

verus! {

/// A file path, carried through unread.
#[verifier::external_type_specification]
#[verifier::external_body]
pub struct ExPathBuf(PathBuf);

/// The command line: the files to format and the switches.
pub struct Cli {
    /// Files to be formatted in VDF format
    pub paths: Vec<PathBuf>,
    /// Write to the input file, rather than outputting the formatted content to stdout
    pub write: bool,
    /// Reflow comments that look like disabled KeyValues pairs
    pub reflow_comments: bool,
    /// Leave true, false, and numeric values unquoted
    pub bare_literals: bool,
}

impl Cli {
    /// Files are written back in place when asked, or whenever more than one is given.
    pub fn writes_in_place(&self) -> (r: bool)
        ensures
            r == (self.write || self.paths@.len() > 1),
    {
        self.write || self.paths.len() > 1
    }

    /// The formatter options that the switches select.
    pub fn options(&self) -> (o: Options)
        ensures
            o == (Options { reflow_comments: self.reflow_comments, bare_literals: self.bare_literals }),
    {
        Options { reflow_comments: self.reflow_comments, bare_literals: self.bare_literals }
    }
}

} // verus!
