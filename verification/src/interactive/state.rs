//! The explorer as a whole: what a key means, and what it does.

use crate::interactive::common::{CursorDirection, Key};
use crate::interactive::navigation::{
    can_enter, entered, is_sorted_view, left, moved_within, sorted_children, with_selection, Frame,
    NavigationState, SortMode,
};
use crate::interactive::widgets::mark::{
    direction_of, last_of, moved_selection, toggled, EntryMarkView, MarkPane, MarkPaneState,
};
use crate::traverse::{Tree, TreeIndex};
use vstd::prelude::*;

verus! {

/// What a key asks for.
#[derive(Clone, Copy, Debug, PartialEq, Eq, Structural)]
pub enum Binding {
    /// Move the selection.
    Move(CursorDirection),
    /// Enter the selected directory.
    Enter,
    /// Leave the directory shown.
    Leave,
    /// Switch to the next order of entries.
    CycleSort,
    /// Select the first entry.
    First,
    /// Select the last entry.
    Last,
    /// Mark the selected entry, or take its mark away.
    ToggleMark,
    /// Give the focus to the pane of marks.
    FocusMarks,
    /// Give the focus back to the list of entries.
    Unfocus,
    /// Delete everything that is marked.
    DeleteMarked,
    /// Leave the program.
    Exit,
    /// Nothing.
    Nothing,
}

/// What the event loop has to do after a key.
#[derive(Clone, Copy, Debug, PartialEq, Eq, Structural)]
pub enum Action {
    /// Draw and wait for the next key.
    Continue,
    /// Delete what is marked, then draw and wait for the next key.
    Delete,
    /// Restore the terminal and return.
    Exit,
}

/// What a key asks for while the list of entries has the focus.
pub open spec fn main_binding(key: Key) -> Binding {
    match direction_of(key) {
        Some(direction) => Binding::Move(direction),
        None => match key {
            Key::Char('o') | Key::Char('\n') | Key::Right => Binding::Enter,
            Key::Char('u') | Key::Left | Key::Backspace => Binding::Leave,
            Key::Char('s') => Binding::CycleSort,
            Key::Char('g') => Binding::First,
            Key::Char('G') => Binding::Last,
            Key::Char(' ') => Binding::ToggleMark,
            Key::Char('d') => Binding::FocusMarks,
            Key::Char('x') | Key::Char('q') => Binding::Exit,
            _ => Binding::Nothing,
        },
    }
}

/// What a key asks for while the pane of marks has the focus: the keys that move a
/// cursor move the selection, Ctrl and R together delete what is marked, and any
/// other key gives the focus back.
pub open spec fn mark_binding(key: Key) -> Binding {
    match direction_of(key) {
        Some(direction) => Binding::Move(direction),
        None => match key {
            Key::Ctrl('r') | Key::Ctrl('R') => Binding::DeleteMarked,
            _ => Binding::Unfocus,
        },
    }
}

/// What a key asks for.
pub open spec fn binding_of(key: Key, marks_focused: bool) -> Binding {
    if marks_focused {
        mark_binding(key)
    } else {
        main_binding(key)
    }
}

/// What a key asks for.
pub fn binding(key: Key, marks_focused: bool) -> (binding: Binding)
    ensures
        binding == binding_of(key, marks_focused),
{
    match key {
        Key::Ctrl('u') | Key::PageUp => Binding::Move(CursorDirection::PageUp),
        Key::Char('k') | Key::Up => Binding::Move(CursorDirection::Up),
        Key::Char('j') | Key::Down => Binding::Move(CursorDirection::Down),
        Key::Ctrl('d') | Key::PageDown => Binding::Move(CursorDirection::PageDown),
        _ => if marks_focused {
            match key {
                Key::Ctrl('r') | Key::Ctrl('R') => Binding::DeleteMarked,
                _ => Binding::Unfocus,
            }
        } else {
            match key {
                Key::Char('o') | Key::Char('\n') | Key::Right => Binding::Enter,
                Key::Char('u') | Key::Left | Key::Backspace => Binding::Leave,
                Key::Char('s') => Binding::CycleSort,
                Key::Char('g') => Binding::First,
                Key::Char('G') => Binding::Last,
                Key::Char(' ') => Binding::ToggleMark,
                Key::Char('d') => Binding::FocusMarks,
                Key::Char('x') | Key::Char('q') => Binding::Exit,
                _ => Binding::Nothing,
            }
        },
    }
}

/// The explorer: where it stands in the tree, and what is marked. There is a pane of
/// marks only while something is marked.
pub struct AppState {
    /// Where the explorer stands.
    pub navigation: NavigationState,
    /// The pane of marks, if anything is marked.
    pub marks: Option<MarkPane>,
}

/// The explorer as mathematical values.
pub struct AppStateView {
    pub stack: Seq<Frame>,
    pub sort: SortMode,
    pub marks: Option<MarkPaneState>,
}

impl View for AppState {
    type V = AppStateView;

    open spec fn view(&self) -> AppStateView {
        AppStateView {
            stack: self.navigation.stack(),
            sort: self.navigation.sort_mode(),
            marks: match self.marks {
                Some(pane) => Some(pane@),
                None => None,
            },
        }
    }
}

impl AppStateView {
    /// Whether the pane of marks has the focus.
    pub open spec fn marks_focused(self) -> bool {
        self.marks matches Some(pane) && pane.focused
    }
}

/// A pane without marks.
pub open spec fn empty_pane() -> MarkPaneState {
    MarkPaneState {
        marks: Map::empty(),
        selection: None,
        focused: false,
        sorting_index: 0,
        offset: 0,
    }
}

/// The pane of marks after `node` was toggled. A pane appears with the first mark
/// and goes with the last.
pub open spec fn toggled_pane(pane: Option<MarkPaneState>, node: TreeIndex, tree: &Tree) -> Option<
    MarkPaneState,
> {
    let before = match pane {
        Some(p) => p,
        None => empty_pane(),
    };
    let marks = toggled(before.marks, node, tree, (before.sorting_index + 1) as usize);
    if marks.dom() =~= Set::<TreeIndex>::empty() {
        None
    } else {
        Some(
            MarkPaneState {
                marks,
                sorting_index: if !before.marks.contains_key(node) && node < tree.len() {
                    (before.sorting_index + 1) as usize
                } else {
                    before.sorting_index
                },
                ..before
            },
        )
    }
}

/// The explorer after `binding` was carried out, where `shown` are the entries of
/// the directory shown, as they are shown.
pub open spec fn applied(
    state: AppStateView,
    binding: Binding,
    tree: &Tree,
    shown: Seq<TreeIndex>,
) -> AppStateView {
    let selected = state.stack.last().selected;
    match binding {
        Binding::Move(direction) => if state.marks_focused() {
            let pane = state.marks.unwrap();
            AppStateView {
                marks: Some(
                    MarkPaneState {
                        selection: moved_selection(
                            pane.selection,
                            direction,
                            pane.marks.dom().len(),
                        ),
                        ..pane
                    },
                ),
                ..state
            }
        } else {
            AppStateView {
                stack: with_selection(
                    state.stack,
                    moved_within(selected, direction, shown.len()),
                ),
                ..state
            }
        },
        Binding::Enter => if can_enter(tree, shown, selected) {
            AppStateView { stack: entered(state.stack, shown[selected as int]), ..state }
        } else {
            state
        },
        Binding::Leave => AppStateView { stack: left(state.stack), ..state },
        Binding::CycleSort => AppStateView { sort: state.sort.next(), ..state },
        Binding::First => AppStateView { stack: with_selection(state.stack, 0), ..state },
        Binding::Last => AppStateView {
            stack: with_selection(state.stack, last_of(shown.len())),
            ..state
        },
        Binding::ToggleMark => if selected < shown.len() {
            AppStateView { marks: toggled_pane(state.marks, shown[selected as int], tree), ..state }
        } else {
            state
        },
        Binding::FocusMarks => match state.marks {
            Some(pane) => AppStateView {
                marks: Some(
                    MarkPaneState {
                        focused: true,
                        selection: Some(last_of(pane.marks.dom().len())),
                        ..pane
                    },
                ),
                ..state
            },
            None => state,
        },
        Binding::Unfocus => match state.marks {
            Some(pane) => AppStateView {
                marks: Some(MarkPaneState { focused: false, selection: None, ..pane }),
                ..state
            },
            None => state,
        },
        Binding::DeleteMarked | Binding::Exit | Binding::Nothing => state,
    }
}

/// What the event loop has to do after `binding` was carried out.
pub open spec fn action_of(binding: Binding) -> Action {
    match binding {
        Binding::DeleteMarked => Action::Delete,
        Binding::Exit => Action::Exit,
        _ => Action::Continue,
    }
}

impl AppState {
    /// The explorer at the node above the roots, with nothing marked.
    pub fn new() -> (state: AppState)
        ensures
            state@ == (AppStateView {
                stack: seq![Frame { node: 0, selected: 0 }],
                sort: SortMode::SizeDescending,
                marks: None,
            }),
    {
        AppState { navigation: NavigationState::new(), marks: None }
    }

    /// Whether the pane of marks has the focus.
    pub fn marks_focused(&self) -> (focused: bool)
        ensures
            focused == self@.marks_focused(),
    {
        match &self.marks {
            Some(pane) => pane.has_focus(),
            None => false,
        }
    }

    /// The entries of the directory shown, in the order in which they are shown.
    pub fn entries(&self, tree: &Tree) -> (shown: Vec<TreeIndex>)
        requires
            tree.wf(),
        ensures
            is_sorted_view(shown@, tree, self@.stack.last().node, self@.sort),
    {
        sorted_children(tree, self.navigation.current().node, self.navigation.sort())
    }

    /// Carries out what `key` asks for and says what the event loop has to do next.
    /// A key goes to the pane of marks if that has the focus, else to the list of
    /// entries.
    pub fn process_key(self, key: Key, tree: &Tree) -> (res: (AppState, Action))
        requires
            tree.wf(),
            self@.marks matches Some(pane) ==> pane.sorting_index < usize::MAX,
        ensures
            res.1 == action_of(binding_of(key, self@.marks_focused())),
            exists|shown: Seq<TreeIndex>|
                #![trigger is_sorted_view(shown, tree, self@.stack.last().node, self@.sort)]
                is_sorted_view(shown, tree, self@.stack.last().node, self@.sort) && res.0@
                    == applied(self@, binding_of(key, self@.marks_focused()), tree, shown),
    {
        let ghost before = self@;
        let focused = self.marks_focused();
        let shown = self.entries(tree);
        let binding = binding(key, focused);
        let AppState { navigation, marks } = self;
        let mut navigation = navigation;
        let mut marks = marks;
        match binding {
            Binding::Move(direction) => {
                if focused {
                    match marks {
                        Some(pane) => {
                            let mut pane = pane;
                            proof {
                                pane.lemma_count_is_len();
                            }
                            pane.key(key);
                            marks = Some(pane);
                        },
                        None => {},
                    }
                } else {
                    navigation.move_selection(direction, shown.len());
                }
            },
            Binding::Enter => {
                navigation.enter(tree, &shown);
            },
            Binding::Leave => {
                navigation.leave();
            },
            Binding::CycleSort => {
                navigation.cycle_sort();
            },
            Binding::First => {
                navigation.select_first();
            },
            Binding::Last => {
                navigation.select_last(shown.len());
            },
            Binding::ToggleMark => {
                let selected = navigation.current().selected;
                if selected < shown.len() {
                    let pane = match marks {
                        Some(pane) => pane,
                        None => MarkPane::new(),
                    };
                    marks = pane.toggle_index(shown[selected], tree);
                }
            },
            Binding::FocusMarks => {
                match marks {
                    Some(pane) => {
                        let mut pane = pane;
                        proof {
                            pane.lemma_count_is_len();
                        }
                        pane.set_focus(true);
                        marks = Some(pane);
                    },
                    None => {},
                }
            },
            Binding::Unfocus => {
                match marks {
                    Some(pane) => {
                        let mut pane = pane;
                        pane.set_focus(false);
                        marks = Some(pane);
                    },
                    None => {},
                }
            },
            Binding::DeleteMarked | Binding::Exit | Binding::Nothing => {},
        }
        let action = match binding {
            Binding::DeleteMarked => Action::Delete,
            Binding::Exit => Action::Exit,
            _ => Action::Continue,
        };
        let state = AppState { navigation, marks };
        proof {
            assert(is_sorted_view(shown@, tree, before.stack.last().node, before.sort));
            assert(state@ =~~= applied(before, binding_of(key, before.marks_focused()), tree, shown@));
        }
        (state, action)
    }
}

} // verus!
