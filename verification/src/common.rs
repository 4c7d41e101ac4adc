//! The configuration of a walk and what a walk yields.

use vstd::prelude::*;

verus! {

/// The unit in which byte counts are shown.
#[derive(Clone, Copy, Debug, PartialEq, Eq, Structural)]
pub enum ByteFormat {
    /// Powers of 1000, with the unit that fits best.
    Metric,
    /// Powers of 1024, with the unit that fits best.
    Binary,
    /// Plain bytes.
    Bytes,
    /// Gigabytes.
    GB,
    /// Gibibytes.
    GiB,
    /// Megabytes.
    MB,
    /// Mebibytes.
    MiB,
}

/// Whether output is coloured.
#[derive(Clone, Copy, Debug, PartialEq, Eq, Structural)]
pub enum Color {
    /// Plain text only.
    Off,
    /// Escape sequences for a terminal.
    Terminal,
}

/// The order in which the children of a directory are visited.
#[derive(Clone, Copy, Debug, PartialEq, Eq, Structural)]
pub enum TraversalSorting {
    /// Whatever order the walk happens to produce.
    Unsorted,
    /// Siblings in case-sensitive order of their file names.
    AlphabeticalByFileName,
}

/// How to walk and how to count.
#[derive(Clone, Copy, Debug)]
pub struct WalkOptions {
    /// The number of worker threads; 0 lets the walker choose.
    pub threads: usize,
    /// The unit of byte counts in output.
    pub byte_format: ByteFormat,
    /// Whether output is coloured.
    pub color: Color,
    /// Count the length of a file instead of the space it occupies on disk.
    pub apparent_size: bool,
    /// Count a file once for each of its hard links.
    pub count_hard_links: bool,
    /// The order of siblings.
    pub sorting: TraversalSorting,
}

/// What a finished walk reports besides the sizes.
#[derive(Clone, Copy, Debug, PartialEq, Eq, Structural)]
pub struct WalkResult {
    /// The number of entries that could not be read or measured.
    pub num_errors: u64,
}

/// The identity of a file on its filesystem.
#[derive(Clone, Copy, Debug, PartialEq, Eq, Structural)]
pub struct Inode {
    /// The device that holds the file.
    pub device: u64,
    /// The number of the file on that device.
    pub number: u64,
}

/// What the filesystem says about one entry.
#[derive(Clone, Copy, Debug, PartialEq, Eq, Structural)]
pub struct Metadata {
    /// Whether the entry is a directory.
    pub is_dir: bool,
    /// The logical length of the file in bytes.
    pub len: u64,
    /// The identity of the file, where the host exposes one.
    pub inode: Option<Inode>,
    /// The bytes the file occupies on disk, or `None` if that could not be found out.
    pub size_on_disk: Option<u64>,
}

/// One entry of a walk.
#[derive(Clone, Debug)]
pub struct Entry {
    /// The file name: the last component of the entry's path.
    pub name: String,
    /// How far below its root the entry lies; a root itself has depth 0.
    pub depth: usize,
    /// The entry's metadata, or `None` if it is missing or could not be read.
    pub metadata: Option<Metadata>,
}

/// One step of a walk: an entry, or the failure to read one.
#[derive(Clone, Debug)]
pub enum WalkItem {
    /// An entry was read.
    Found(Entry),
    /// A directory could not be listed or an entry could not be read.
    Failed,
}

impl WalkItem {
    /// The metadata of the entry, if the step found an entry and it has any.
    pub open spec fn metadata(self) -> Option<Metadata> {
        match self {
            WalkItem::Found(entry) => entry.metadata,
            WalkItem::Failed => None,
        }
    }
}

} // verus!
