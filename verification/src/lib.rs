//! Normalizes the ordering of child-entry lists inside the group blocks of an
//! Xcode-style project manifest. Within every group's children list, entries
//! that are not declared in the file-reference section come first
//! (alphabetically), followed by the declared file references (also
//! alphabetically); every other line passes through unchanged.

use vstd::prelude::*;

pub mod file_string;
pub mod laws;
pub mod order;
pub mod scan;

pub use scan::{Entry, ReadMode, make_path, reduce_read_mode, transform};

verus! {

/// The failures the library and its callers can report. Parse failures are
/// raised only at call sites that assert a shape must hold; during scanning,
/// a failed extraction merely routes the line to verbatim output.
#[derive(Clone, Copy, Debug, PartialEq, Eq, Structural)]
pub enum SortError {
    ChildrenNameParserError,
    FileIdParserError,
    OpenFileError,
    ReadLineError,
    WriteToFileError,
}

} // verus!
