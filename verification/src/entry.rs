//! What the filesystem reports of one child of a directory, as plain values.

use vstd::prelude::*;

verus! {

/// The metadata of an entry, as far as the listing reads it.
#[derive(Debug, Clone, Copy, PartialEq, Eq)]
pub struct Metadata {
    /// The entry is a directory.
    pub is_dir: bool,
    /// The entry is a regular file.
    pub is_file: bool,
    /// Length in bytes.
    pub size: u64,
    /// Permission bits.
    pub mode: u32,
    /// Time of creation in nanoseconds since the epoch, where the filesystem
    /// records one.
    pub created: Option<i128>,
    /// Time of the last modification in nanoseconds since the epoch, where
    /// the filesystem records one.
    pub modified: Option<i128>,
}

/// One child of a directory.
///
/// The type of the entry and its metadata come from separate lookups, and
/// each can fail by itself.
#[derive(Debug, PartialEq, Eq)]
pub struct Entry {
    /// The base name, as the bytes that the filesystem holds.
    pub name: Vec<u8>,
    /// The path from the root of the listing, as bytes.
    pub path: Vec<u8>,
    /// Whether the entry is a directory, or why that could not be determined.
    pub is_dir: Result<bool, String>,
    /// The metadata, unless the lookup failed.
    pub metadata: Option<Metadata>,
}

/// One item of an enumeration: an entry, or the error met in its place.
pub type Slot = Result<Entry, String>;

/// The byte of a dot.
pub const DOT: u8 = 0x2e;

/// Whether a name starts with a dot.
pub open spec fn dotted(name: Seq<u8>) -> bool {
    name.len() > 0 && name[0] == DOT
}

/// A name is hidden when it starts with a dot and is not the single dot
/// that stands for the directory itself.
pub open spec fn hidden(name: Seq<u8>) -> bool {
    dotted(name) && name != seq![DOT]
}

/// Whether the entry's name starts with a dot.
pub fn starts_with_dot(entry: &Entry) -> (d: bool)
    ensures
        d == dotted(entry.name@),
{
    entry.name.len() > 0 && entry.name[0] == DOT
}

/// Whether the entry's name marks it as hidden. The name is judged by its
/// bytes, whether they are text or not.
pub fn is_hidden(entry: &Entry) -> (h: bool)
    ensures
        h == hidden(entry.name@),
{
    proof {
        if entry.name@.len() == 1 && entry.name@[0] == DOT {
            assert(entry.name@ =~= seq![DOT]);
        }
    }
    starts_with_dot(entry) && entry.name.len() != 1
}

} // verus!
