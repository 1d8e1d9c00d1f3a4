//! The settings of one run.

use vstd::prelude::*;

verus! {

/// The threshold used when the caller names none.
pub const DEFAULT_COMPRESS_THRESHOLD: u64 = 256;

/// How entries are ordered by name before they are rewritten.
#[derive(Copy, Clone, Debug, PartialEq, Eq, Structural)]
pub enum Sort {
    /// By the bytes of the name: upper case comes before lower case.
    Normal,
    /// By the case-folded name.
    IgnoreCase,
}

impl Sort {
    /// The word that selects this ordering on a command line.
    pub open spec fn spec_keyword(self) -> Seq<char> {
        match self {
            Sort::Normal => "normal"@,
            Sort::IgnoreCase => "ignore-case"@,
        }
    }

    /// The word that selects this ordering on a command line.
    pub fn keyword(self) -> (word: &'static str)
        ensures
            word@ == self.spec_keyword(),
    {
        match self {
            Sort::Normal => "normal",
            Sort::IgnoreCase => "ignore-case",
        }
    }
}

/// The settings of one run. They do not change while a file is processed.
#[derive(Copy, Clone, Debug)]
pub struct ProcessParams {
    /// Visit and list the entries, but build nothing.
    pub dry_run: bool,
    /// Files whose declared size reaches this many bytes are deflated.
    pub compress_threshold: u64,
    /// The order in which entries are visited; `None` keeps the archive's own.
    pub sort: Option<Sort>,
}

} // verus!
