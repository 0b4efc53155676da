//! Lists a directory as an indented tree.
//!
//! The crate holds the decisions of a tree listing: which entries of a
//! directory are shown, in which order, how each line is drawn, and where the
//! walk descends. Reading directories and writing lines is left to the
//! caller, who hands the entries of each directory over as plain values,
//! names and paths as the bytes that the filesystem holds, and carries out
//! the steps that [`dir::Printer::print`] returns. What the walk
//! of a whole tree comes to is told in [`listing`].

pub mod args;
pub mod arrange;
pub mod dir;
pub mod entry;
pub mod filter;
pub mod format;
pub mod listing;
pub mod order;
pub mod text;
pub mod walk;
