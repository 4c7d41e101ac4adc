use dua::interactive::common::{CursorDirection, Key};
use dua::interactive::navigation::{sorted_children, Frame, NavigationState, SortMode};
use dua::interactive::state::{binding, Action, AppState, Binding};
use dua::traverse::Tree;

fn explorer_tree() -> Tree {
    let mut tree = Tree::new();
    let root = tree.add_child(0, "root".to_string(), true, 0, false).unwrap();
    tree.add_child(root, "b.txt".to_string(), false, 20, false).unwrap();
    let dir = tree.add_child(root, "Dir".to_string(), true, 0, false).unwrap();
    tree.add_child(dir, "inner".to_string(), false, 300, false).unwrap();
    tree.add_child(root, "a.txt".to_string(), false, 20, false).unwrap();
    tree.add_child(root, "c.txt".to_string(), false, 1, false).unwrap();
    tree
}

const ROOT: usize = 1;
const B: usize = 2;
const DIR: usize = 3;
const INNER: usize = 4;
const A: usize = 5;
const C: usize = 6;

fn press(state: AppState, tree: &Tree, keys: &[Key]) -> (AppState, Action) {
    let mut state = state;
    let mut action = Action::Continue;
    for key in keys {
        let (next, act) = state.process_key(*key, tree);
        state = next;
        action = act;
    }
    (state, action)
}

#[test]
fn entries_are_shown_in_the_order_asked_for() {
    let tree = explorer_tree();
    assert_eq!(sorted_children(&tree, ROOT, SortMode::SizeDescending), vec![DIR, B, A, C]);
    assert_eq!(sorted_children(&tree, ROOT, SortMode::SizeAscending), vec![C, B, A, DIR]);
    assert_eq!(sorted_children(&tree, ROOT, SortMode::Name), vec![DIR, A, B, C]);
    assert_eq!(sorted_children(&tree, 0, SortMode::Name), vec![ROOT]);
    assert!(sorted_children(&tree, C, SortMode::Name).is_empty());
    assert!(sorted_children(&tree, 99, SortMode::Name).is_empty());
}

#[test]
fn the_sort_modes_follow_each_other_in_a_circle() {
    assert_eq!(SortMode::SizeDescending.cycled(), SortMode::SizeAscending);
    assert_eq!(SortMode::SizeAscending.cycled(), SortMode::Name);
    assert_eq!(SortMode::Name.cycled(), SortMode::SizeDescending);
}

#[test]
fn the_selection_stays_within_the_entries() {
    let mut nav = NavigationState::new();
    nav.move_selection(CursorDirection::Down, 3);
    nav.move_selection(CursorDirection::Down, 3);
    assert_eq!(nav.current(), Frame { node: 0, selected: 2 });
    nav.move_selection(CursorDirection::Down, 3);
    assert_eq!(nav.current().selected, 2);
    nav.move_selection(CursorDirection::PageUp, 3);
    assert_eq!(nav.current().selected, 0);
    nav.move_selection(CursorDirection::Up, 3);
    assert_eq!(nav.current().selected, 0);
    nav.move_selection(CursorDirection::PageDown, 30);
    assert_eq!(nav.current().selected, 10);
    nav.move_selection(CursorDirection::Down, 0);
    assert_eq!(nav.current().selected, 0);
    nav.select_last(5);
    assert_eq!(nav.current().selected, 4);
    nav.select_first();
    assert_eq!(nav.current().selected, 0);
    nav.select_last(0);
    assert_eq!(nav.current().selected, 0);
}

#[test]
fn entering_and_leaving_restores_the_selection() {
    let tree = explorer_tree();
    let mut nav = NavigationState::new();
    assert!(!nav.can_leave());
    assert!(!nav.leave());
    assert_eq!(nav.root(), 0);
    assert!(nav.enter(&tree, &vec![ROOT]));
    assert_eq!(nav.current(), Frame { node: ROOT, selected: 0 });
    assert_eq!(nav.root(), 0);
    let shown = sorted_children(&tree, ROOT, nav.sort());
    nav.move_selection(CursorDirection::Down, shown.len());
    assert!(!nav.enter(&tree, &shown));
    nav.move_selection(CursorDirection::Up, shown.len());
    assert!(nav.enter(&tree, &shown));
    assert_eq!(nav.current(), Frame { node: DIR, selected: 0 });
    assert!(nav.can_leave());
    assert!(nav.leave());
    assert_eq!(nav.current(), Frame { node: ROOT, selected: 0 });
    nav.select_last(shown.len());
    let before = nav.current();
    assert!(!nav.enter(&tree, &shown));
    nav.select_first();
    nav.move_selection(CursorDirection::Down, shown.len());
    let before_entering = nav.current();
    assert_ne!(before, before_entering);
    nav.select_first();
    assert!(nav.enter(&tree, &shown));
    assert!(nav.leave());
    assert_eq!(nav.current().selected, 0);
    assert!(!nav.enter(&tree, &Vec::new()));
}

#[test]
fn keys_mean_what_the_table_says() {
    for (key, meaning) in [
        (Key::Char('j'), Binding::Move(CursorDirection::Down)),
        (Key::Down, Binding::Move(CursorDirection::Down)),
        (Key::Char('k'), Binding::Move(CursorDirection::Up)),
        (Key::Up, Binding::Move(CursorDirection::Up)),
        (Key::Ctrl('d'), Binding::Move(CursorDirection::PageDown)),
        (Key::PageDown, Binding::Move(CursorDirection::PageDown)),
        (Key::Ctrl('u'), Binding::Move(CursorDirection::PageUp)),
        (Key::PageUp, Binding::Move(CursorDirection::PageUp)),
        (Key::Char('o'), Binding::Enter),
        (Key::Char('\n'), Binding::Enter),
        (Key::Right, Binding::Enter),
        (Key::Char('u'), Binding::Leave),
        (Key::Left, Binding::Leave),
        (Key::Backspace, Binding::Leave),
        (Key::Char('s'), Binding::CycleSort),
        (Key::Char('g'), Binding::First),
        (Key::Char('G'), Binding::Last),
        (Key::Char(' '), Binding::ToggleMark),
        (Key::Char('d'), Binding::FocusMarks),
        (Key::Char('x'), Binding::Exit),
        (Key::Char('q'), Binding::Exit),
        (Key::Char('z'), Binding::Nothing),
        (Key::Esc, Binding::Nothing),
        (Key::Ctrl('r'), Binding::Nothing),
        (Key::Alt('j'), Binding::Nothing),
        (Key::Other, Binding::Nothing),
    ] {
        assert_eq!(binding(key, false), meaning);
    }
    for (key, meaning) in [
        (Key::Char('j'), Binding::Move(CursorDirection::Down)),
        (Key::Up, Binding::Move(CursorDirection::Up)),
        (Key::PageDown, Binding::Move(CursorDirection::PageDown)),
        (Key::Ctrl('u'), Binding::Move(CursorDirection::PageUp)),
        (Key::Ctrl('r'), Binding::DeleteMarked),
        (Key::Ctrl('R'), Binding::DeleteMarked),
        (Key::Char('q'), Binding::Unfocus),
        (Key::Char('d'), Binding::Unfocus),
        (Key::Esc, Binding::Unfocus),
        (Key::Other, Binding::Unfocus),
    ] {
        assert_eq!(binding(key, true), meaning);
    }
}

#[test]
fn the_explorer_walks_the_tree() {
    let tree = explorer_tree();
    let state = AppState::new();
    assert_eq!(state.entries(&tree), vec![ROOT]);
    let (state, action) = press(state, &tree, &[Key::Char('o')]);
    assert_eq!(action, Action::Continue);
    assert_eq!(state.navigation.current(), Frame { node: ROOT, selected: 0 });
    assert_eq!(state.entries(&tree), vec![DIR, B, A, C]);
    let (state, _) = press(state, &tree, &[Key::Char('G')]);
    assert_eq!(state.navigation.current().selected, 3);
    let (state, _) = press(state, &tree, &[Key::Down, Key::Char('k')]);
    assert_eq!(state.navigation.current().selected, 2);
    let (state, _) = press(state, &tree, &[Key::Right]);
    assert_eq!(state.navigation.current(), Frame { node: ROOT, selected: 2 });
    let (state, _) = press(state, &tree, &[Key::Char('s')]);
    assert_eq!(state.navigation.sort(), SortMode::SizeAscending);
    assert_eq!(state.entries(&tree), vec![C, B, A, DIR]);
    let (state, _) = press(state, &tree, &[Key::Char('j'), Key::Char('\n')]);
    assert_eq!(state.navigation.current(), Frame { node: DIR, selected: 0 });
    assert_eq!(state.entries(&tree), vec![INNER]);
    let (state, _) = press(state, &tree, &[Key::Backspace]);
    assert_eq!(state.navigation.current(), Frame { node: ROOT, selected: 3 });
    let (state, _) = press(state, &tree, &[Key::Char('g'), Key::Char('u'), Key::Left]);
    assert_eq!(state.navigation.current(), Frame { node: 0, selected: 0 });
    let (state, action) = press(state, &tree, &[Key::Char('z')]);
    assert_eq!(action, Action::Continue);
    let (_, action) = press(state, &tree, &[Key::Char('q')]);
    assert_eq!(action, Action::Exit);
    let (_, action) = press(AppState::new(), &tree, &[Key::Char('x')]);
    assert_eq!(action, Action::Exit);
}

#[test]
fn marks_are_set_focused_and_deleted_by_keys() {
    let tree = explorer_tree();
    let (state, _) = press(AppState::new(), &tree, &[Key::Char('d')]);
    assert!(state.marks.is_none());
    assert!(!state.marks_focused());
    let (state, _) = press(state, &tree, &[Key::Char('o'), Key::Char(' ')]);
    assert_eq!(state.marks.as_ref().unwrap().marked().keys().copied().collect::<Vec<_>>(), vec![DIR]);
    let (state, _) = press(state, &tree, &[Key::Down, Key::Char(' '), Key::Up, Key::Char(' ')]);
    assert_eq!(state.marks.as_ref().unwrap().marked().keys().copied().collect::<Vec<_>>(), vec![B]);
    let (state, _) = press(state, &tree, &[Key::Char('G'), Key::Char(' ')]);
    let (state, action) = press(state, &tree, &[Key::Ctrl('r')]);
    assert_eq!(action, Action::Continue);
    let (state, _) = press(state, &tree, &[Key::Char('d')]);
    assert!(state.marks_focused());
    assert_eq!(state.marks.as_ref().unwrap().selected(), Some(1));
    let (state, _) = press(state, &tree, &[Key::Up]);
    assert_eq!(state.marks.as_ref().unwrap().selected(), Some(0));
    assert_eq!(state.navigation.current(), Frame { node: ROOT, selected: 3 });
    let (state, action) = press(state, &tree, &[Key::Ctrl('r')]);
    assert_eq!(action, Action::Delete);
    assert!(state.marks_focused());
    let queue = state.marks.as_ref().unwrap().deletion_queue();
    assert_eq!(queue, vec![(B, "root/b.txt".to_string()), (C, "root/c.txt".to_string())]);
    let (state, action) = press(state, &tree, &[Key::Char('q')]);
    assert_eq!(action, Action::Continue);
    assert!(!state.marks_focused());
    assert_eq!(state.marks.as_ref().unwrap().selected(), None);
    let (state, _) = press(state, &tree, &[Key::Char(' '), Key::Char('g')]);
    let (state, _) = press(state, &tree, &[Key::Down, Key::Char(' ')]);
    assert!(state.marks.is_none());
}
