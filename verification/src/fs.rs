//! A snapshot of a directory tree, as plain data.
//!
//! The scanner works on a snapshot rather than on the live filesystem:
//! the caller enumerates directories (however it likes) and hands the
//! library one `Vec<FsEntry>` per root.  An unreadable directory or file
//! is marked rather than omitted, so the walker's skip rules stay visible
//! to verification.

use vstd::prelude::*;

verus! {

/// One entry of a directory listing.
pub enum FsEntry {
    /// A plain file with its name, byte size, and whether its metadata
    /// could be read.
    File { name: String, size: u64, readable: bool },
    /// A directory with its name, whether the entry is a symbolic link,
    /// whether its listing could be read, and that listing.
    Dir { name: String, symlink: bool, readable: bool, entries: Vec<FsEntry> },
}

impl FsEntry {
    /// The entry's name.
    pub open spec fn name(&self) -> Seq<char> {
        match self {
            FsEntry::File { name, .. } => name@,
            FsEntry::Dir { name, .. } => name@,
        }
    }

    /// Whether the entry is a directory.
    pub open spec fn is_dir(&self) -> bool {
        self is Dir
    }
}

/// A valid entry name: nonempty and without a path separator.
pub open spec fn valid_name(name: Seq<char>) -> bool {
    name.len() > 0 && forall|i: int| 0 <= i < name.len() ==> name[i] != '/'
}

/// A well-formed entry: its name is valid and, for a directory, its
/// listing is well-formed.
pub open spec fn wf_entry(e: FsEntry) -> bool
    decreases e,
{
    valid_name(e.name()) && match e {
        FsEntry::File { .. } => true,
        FsEntry::Dir { entries, .. } => wf_entries(entries@),
    }
}

/// A well-formed directory listing: every entry is well-formed and the
/// names are distinct, as a real directory guarantees.
pub open spec fn wf_entries(entries: Seq<FsEntry>) -> bool
    decreases entries,
{
    (forall|i: int| 0 <= i < entries.len() ==> wf_entry(#[trigger] entries[i]))
        && (forall|i: int, j: int|
        0 <= i < j < entries.len() ==> entries[i].name() != entries[j].name())
}

} // verus!
