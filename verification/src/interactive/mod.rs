//! The interactive explorer: what is shown, what is selected and what is marked.

pub mod common;
pub mod navigation;
pub mod state;
pub mod widgets;

pub use common::{fit_string_graphemes_with_ellipsis, CursorDirection, Key};
pub use navigation::{sorted_children, Frame, NavigationState, SortMode};
pub use state::{Action, AppState, Binding};
