//! The panes of the explorer.

pub mod mark;

pub use mark::{EntryMark, EntryMarkMap, MarkPane, MarkPaneProps};
