//! The resolved configuration of one listing.

use crate::entry::DOT;
use vstd::prelude::*;

verus! {

/// The family of glyphs that the connectors are drawn with.
#[derive(Debug, Clone, Copy, PartialEq, Eq, Structural)]
pub enum Charset {
    Utf8,
    Ascii,
}

/// The attribute by which the entries of one directory are ordered.
#[derive(Debug, Clone, Copy, PartialEq, Eq, Structural)]
pub enum SortArgs {
    Filename,
    Size,
    CreatedTime,
    ModifiedTime,
}

/// Everything a listing is configured with. It is resolved once, before the
/// walk begins, and only read afterwards.
#[derive(Debug)]
pub struct Context {
    /// Directory to list, as the bytes of its path; the current working
    /// directory when absent.
    pub dir: Option<Vec<u8>>,
    /// Character set of the connectors.
    pub charset: Charset,
    /// Sort key; without one the entries keep the order of enumeration.
    pub sort: Option<SortArgs>,
    /// Reverse the order of the sort.
    pub reverse: bool,
    /// All entries are listed, hidden ones too.
    pub all: bool,
    /// List directories only.
    pub direction_only: bool,
    /// Show the full path of each entry instead of its name.
    pub full: bool,
}

impl Context {
    /// The path of the root: the configured directory, or `.`.
    pub open spec fn root(&self) -> Seq<u8> {
        match self.dir {
            Some(path) => path@,
            None => seq![DOT],
        }
    }

    /// The directory at which the listing starts.
    pub fn dir(&self) -> (path: &[u8])
        ensures
            path@ == self.root(),
    {
        match &self.dir {
            Some(path) => path.as_slice(),
            None => {
                let here: &[u8] = &[DOT];
                assert(here@ =~= seq![DOT]);
                here
            },
        }
    }
}

} // verus!
