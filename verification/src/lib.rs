//! Disk usage analysis: totals per root, a navigable tree of sizes, and the state
//! of the interactive explorer.

pub mod aggregate;
pub mod common;
pub mod inodefilter;
pub mod interactive;
pub mod program;
pub mod sorting;
pub mod text;
pub mod traverse;

pub use aggregate::{
    aggregate, path_color, write_path, PathTotal, Report, RootWalk, Statistics, TooLarge,
};
pub use common::{
    ByteFormat, Color, Entry, Inode, Metadata, TraversalSorting, WalkItem, WalkOptions,
    WalkResult,
};
pub use inodefilter::InodeFilter;
pub use program::{cwd_dirlist, exit_code, paths_from};
pub use text::TextColor;
pub use traverse::{path_of, EntryData, Traversal, Tree, TreeIndex};
