//! Which entries of one directory are shown.

use crate::entry::{dotted, starts_with_dot, Entry, Slot};
use vstd::prelude::*;

verus! {

/// Which of the resolved entries are shown. Without a filter all of them are.
///
/// Both filters go by the dot in front of a name alone. So they drop the
/// single dot too, which no enumeration yields and which is not counted
/// among the hidden names.
#[derive(Debug, Clone, Copy, PartialEq, Eq, Structural)]
pub enum Filter {
    /// Directories whose name does not start with a dot.
    Directories,
    /// Entries whose name does not start with a dot.
    Visible,
}

impl Filter {
    /// Whether the filter lets the entry through. An entry whose type could
    /// not be determined is no directory.
    pub open spec fn admits(self, entry: Entry) -> bool {
        match self {
            Filter::Directories => entry.is_dir == Ok::<bool, String>(true) && !dotted(entry.name@),
            Filter::Visible => !dotted(entry.name@),
        }
    }

    /// Decides whether an entry is shown.
    pub fn keep(&self, entry: &Entry) -> (k: bool)
        ensures
            k == self.admits(*entry),
    {
        match self {
            Filter::Directories => match &entry.is_dir {
                Ok(d) => *d && !starts_with_dot(entry),
                Err(_) => false,
            },
            Filter::Visible => !starts_with_dot(entry),
        }
    }
}

/// Whether a slot of an enumeration is shown. An enumeration error always
/// is, so that it surfaces when the walk reaches it.
pub open spec fn keeps(filter: Option<Filter>, slot: Slot) -> bool {
    match slot {
        Err(_) => true,
        Ok(entry) => match filter {
            None => true,
            Some(f) => f.admits(entry),
        },
    }
}

/// Decides whether a slot of an enumeration is shown.
pub fn retains(filter: &Option<Filter>, slot: &Slot) -> (k: bool)
    ensures
        k == keeps(*filter, *slot),
{
    match slot {
        Err(_) => true,
        Ok(entry) => match filter {
            None => true,
            Some(f) => f.keep(entry),
        },
    }
}

/// The number of slots that are shown.
pub open spec fn shown(slots: Seq<Slot>, filter: Option<Filter>) -> nat
    decreases slots.len(),
{
    if slots.len() == 0 {
        0
    } else {
        shown(slots.drop_last(), filter) + if keeps(filter, slots.last()) {
            1nat
        } else {
            0nat
        }
    }
}

} // verus!
