//! What the file system says about a path.
use vstd::prelude::*;

use crate::path::Path;

verus! {

/// The kinds of things that a path can name.
#[derive(Debug, Clone, Copy, PartialEq, Eq, Structural)]
pub enum FileType {
    TypeFile,
    TypeDirectory,
    TypeNamedPipe,
    TypeBlockSpecial,
    TypeSymlink,
    TypeUnknown,
}

/// The part of a path's status that the watchers read.
#[derive(Debug, Clone, Copy, PartialEq, Eq, Structural)]
pub struct FileStat {
    pub kind: FileType,
    /// The time of the last change of the contents, in milliseconds.
    pub modified: u64,
    pub inode: u64,
}

/// Something that a walk through a directory has come upon.
#[derive(Debug)]
pub struct Found {
    pub path: Path,
    pub stat: FileStat,
}

/// A find with its path as a byte sequence.
pub struct FoundView {
    pub path: Seq<u8>,
    pub stat: FileStat,
}

impl View for Found {
    type V = FoundView;

    open spec fn view(&self) -> FoundView {
        FoundView { path: self.path@, stat: self.stat }
    }
}

/// The contents of a list of finds.
pub open spec fn contents(walk: Seq<Found>) -> Seq<FoundView> {
    walk.map_values(|found: Found| found@)
}

} // verus!
