use dua::interactive::common::{
    fit_graphemes_with_ellipsis, fit_string_graphemes_with_ellipsis, CursorDirection, Key,
};
use dua::interactive::widgets::mark::{help_line, title, EntryMark, MarkPane, MarkPaneProps};
use dua::traverse::Tree;

fn sample_tree() -> Tree {
    let mut tree = Tree::new();
    let root = tree.add_child(0, "/r".to_string(), true, 0, false).unwrap();
    tree.add_child(root, "X".to_string(), false, 100, false).unwrap();
    tree.add_child(root, "Y".to_string(), false, 200, false).unwrap();
    tree.add_child(root, "Z".to_string(), true, 0, false).unwrap();
    tree.add_child(4, "inner".to_string(), false, 50, false).unwrap();
    tree
}

const X: usize = 2;
const Y: usize = 3;
const Z: usize = 4;

fn props() -> MarkPaneProps {
    MarkPaneProps { byte_column_width: 10, byte_total_width: 13 }
}

#[test]
fn a_mark_holds_size_path_and_order() {
    let tree = sample_tree();
    let pane = MarkPane::new().toggle_index(Z, &tree).unwrap();
    let pane = pane.toggle_index(X, &tree).unwrap();
    assert_eq!(pane.marked().len(), 2);
    assert_eq!(
        pane.marked().get(&Z),
        Some(&EntryMark { size: 50, path: "/r/Z".to_string(), index: 1 })
    );
    assert_eq!(
        pane.marked().get(&X),
        Some(&EntryMark { size: 100, path: "/r/X".to_string(), index: 2 })
    );
}

#[test]
fn toggling_twice_restores_the_marks() {
    let tree = sample_tree();
    let pane = MarkPane::new().toggle_index(X, &tree).unwrap();
    let before = pane.marked().clone();
    let pane = pane.toggle_index(Y, &tree).unwrap();
    let pane = pane.toggle_index(Y, &tree).unwrap();
    assert_eq!(pane.marked(), &before);
    let pane = pane.toggle_index(Z, &tree).unwrap().toggle_index(Z, &tree).unwrap();
    assert_eq!(pane.marked(), &before);
}

#[test]
fn toggling_a_marked_node_twice_keeps_it_marked() {
    let tree = sample_tree();
    let pane = MarkPane::new().toggle_index(X, &tree).unwrap().toggle_index(Y, &tree).unwrap();
    let nodes: Vec<usize> = pane.marked().keys().copied().collect();
    let pane = pane.toggle_index(X, &tree).unwrap().toggle_index(X, &tree).unwrap();
    assert_eq!(pane.marked().keys().copied().collect::<Vec<usize>>(), nodes);
    assert_eq!(pane.marked().get(&X).unwrap().index, 3);
}

#[test]
fn the_last_mark_taken_away_leaves_no_pane() {
    let tree = sample_tree();
    let pane = MarkPane::new().toggle_index(X, &tree).unwrap();
    assert!(pane.toggle_index(X, &tree).is_none());
}

#[test]
fn a_node_that_is_not_in_the_tree_is_not_marked() {
    let tree = sample_tree();
    assert!(MarkPane::new().toggle_index(99, &tree).is_none());
    let pane = MarkPane::new().toggle_index(X, &tree).unwrap().toggle_index(99, &tree).unwrap();
    assert_eq!(pane.marked().len(), 1);
}

#[test]
fn focus_selects_the_last_mark_and_losing_it_clears_the_selection() {
    let tree = sample_tree();
    let mut pane =
        MarkPane::new().toggle_index(X, &tree).unwrap().toggle_index(Y, &tree).unwrap();
    assert!(!pane.has_focus());
    assert_eq!(pane.selected(), None);
    pane.set_focus(true);
    assert!(pane.has_focus());
    assert_eq!(pane.selected(), Some(1));
    pane.set_focus(false);
    assert!(!pane.has_focus());
    assert_eq!(pane.selected(), None);
    let mut empty = MarkPane::new();
    empty.set_focus(true);
    assert_eq!(empty.selected(), Some(0));
}

#[test]
fn keys_move_the_selection_within_the_marks() {
    let tree = sample_tree();
    let mut pane = MarkPane::new();
    for node in [X, Y, Z] {
        pane = pane.toggle_index(node, &tree).unwrap();
    }
    pane.key(Key::Down);
    assert_eq!(pane.selected(), None);
    pane.set_focus(true);
    assert_eq!(pane.selected(), Some(2));
    pane.key(Key::Down);
    assert_eq!(pane.selected(), Some(2));
    pane.key(Key::Char('k'));
    assert_eq!(pane.selected(), Some(1));
    pane.key(Key::Up);
    assert_eq!(pane.selected(), Some(0));
    pane.key(Key::Up);
    assert_eq!(pane.selected(), Some(0));
    pane.key(Key::Char('j'));
    assert_eq!(pane.selected(), Some(1));
    pane.key(Key::PageDown);
    assert_eq!(pane.selected(), Some(2));
    pane.key(Key::Ctrl('u'));
    assert_eq!(pane.selected(), Some(0));
    pane.key(Key::Ctrl('d'));
    assert_eq!(pane.selected(), Some(2));
    pane.key(Key::PageUp);
    assert_eq!(pane.selected(), Some(0));
    pane.key(Key::Char('z'));
    assert_eq!(pane.selected(), Some(0));
}

#[test]
fn the_cursor_moves_by_one_or_by_a_page() {
    assert_eq!(CursorDirection::Down.move_cursor(3), 4);
    assert_eq!(CursorDirection::Up.move_cursor(3), 2);
    assert_eq!(CursorDirection::Up.move_cursor(0), 0);
    assert_eq!(CursorDirection::PageDown.move_cursor(3), 13);
    assert_eq!(CursorDirection::PageUp.move_cursor(13), 3);
    assert_eq!(CursorDirection::PageUp.move_cursor(9), 0);
    assert_eq!(CursorDirection::Down.move_cursor(usize::MAX), usize::MAX);
    assert_eq!(CursorDirection::PageDown.move_cursor(usize::MAX - 3), usize::MAX);
}

#[test]
fn the_pane_lists_marks_in_the_order_of_marking() {
    let tree = sample_tree();
    let mut pane = MarkPane::new();
    for node in [Z, X, Y] {
        pane = pane.toggle_index(node, &tree).unwrap();
    }
    let view = pane.render(&props(), 40);
    assert_eq!(view.num_items, 3);
    assert_eq!(view.total_size, 350);
    assert_eq!(view.entry_in_view, 2);
    assert!(!view.show_help);
    let nodes: Vec<usize> = view.lines.iter().map(|l| l.node).collect();
    assert_eq!(nodes, vec![Z, X, Y]);
    let first = &view.lines[0];
    assert_eq!(first.path, " /r/Z  ");
    assert_eq!(first.path_len, 7);
    assert_eq!(first.spacer, 20);
    assert_eq!(first.size, 50);
    assert!(!first.is_selected);
    assert_eq!(view.lines[1].size, 100);
    assert_eq!(view.lines[2].size, 200);
}

#[test]
fn the_selected_line_is_told_and_kept_in_view() {
    let tree = sample_tree();
    let mut pane = MarkPane::new();
    for node in [X, Y, Z] {
        pane = pane.toggle_index(node, &tree).unwrap();
    }
    pane.set_focus(true);
    pane.key(Key::Up);
    let view = pane.render(&props(), 40);
    assert!(view.show_help);
    assert_eq!(view.entry_in_view, 1);
    let selected: Vec<bool> = view.lines.iter().map(|l| l.is_selected).collect();
    assert_eq!(selected, vec![false, true, false]);
}

#[test]
fn a_path_that_does_not_fit_loses_its_beginning() {
    let mut tree = Tree::new();
    let root = tree.add_child(0, "/a/long/way/down".to_string(), true, 0, false).unwrap();
    let file = tree.add_child(root, "file.txt".to_string(), false, 1, false).unwrap();
    let mut pane = MarkPane::new().toggle_index(file, &tree).unwrap();
    let view = pane.render(&props(), 25);
    let line = &view.lines[0];
    assert_eq!(line.path, "…/file.txt  ");
    assert_eq!(line.path_len, 12);
    assert_eq!(line.spacer, 0);
    let view = pane.render(&props(), 13);
    assert_eq!(view.lines[0].path, "…");
    assert_eq!(view.lines[0].path_len, 1);
    let view = pane.render(&props(), 5);
    assert_eq!(view.lines[0].path, "…");
    assert_eq!(view.lines[0].spacer, 0);
    let view = pane.render(&props(), 41);
    assert_eq!(view.lines[0].path, " /a/long/way/down/file.txt  ");
    assert_eq!(view.lines[0].path_len, 28);
    assert_eq!(view.lines[0].spacer, 0);
    let view = pane.render(&props(), 45);
    assert_eq!(view.lines[0].spacer, 4);
}

#[test]
fn text_is_cut_by_grapheme_clusters() {
    let text = "a\u{310}e\u{301}o\u{308}\u{332}xy".to_string();
    assert_eq!(
        fit_string_graphemes_with_ellipsis(text.clone(), 5),
        ("a\u{310}e\u{301}o\u{308}\u{332}xy".to_string(), 5)
    );
    assert_eq!(
        fit_string_graphemes_with_ellipsis(text.clone(), 4),
        ("…o\u{308}\u{332}xy".to_string(), 4)
    );
    assert_eq!(fit_string_graphemes_with_ellipsis(text.clone(), 2), ("…y".to_string(), 2));
    assert_eq!(fit_string_graphemes_with_ellipsis(text.clone(), 1), ("…".to_string(), 1));
    assert_eq!(fit_string_graphemes_with_ellipsis(text, 0), ("…".to_string(), 1));
    assert_eq!(fit_string_graphemes_with_ellipsis(String::new(), 0), (String::new(), 0));
}

#[test]
fn text_is_cut_to_the_clusters_given() {
    let clusters = vec!["ab".to_string(), "c".to_string(), "de".to_string()];
    assert_eq!(
        fit_graphemes_with_ellipsis("abcde".to_string(), &clusters, 3),
        ("abcde".to_string(), 3)
    );
    assert_eq!(
        fit_graphemes_with_ellipsis("abcde".to_string(), &clusters, 2),
        ("…de".to_string(), 2)
    );
}

#[test]
fn the_title_counts_the_marks() {
    assert_eq!(title(3, "1.20 MB"), "Marked 3 items (1.20 MB) ");
    assert_eq!(title(0, ""), "Marked 0 items () ");
    let (keys, meaning) = help_line();
    assert_eq!(keys, " Ctrl + Shift + r");
    assert_eq!(meaning, " permanently deletes list without prompt");
}

#[test]
fn marking_two_and_unmarking_one_deletes_the_other() {
    let tree = sample_tree();
    let pane = MarkPane::new().toggle_index(X, &tree).unwrap();
    let pane = pane.toggle_index(Y, &tree).unwrap();
    let mut pane = pane.toggle_index(X, &tree).unwrap();
    pane.set_focus(true);
    let queue = pane.deletion_queue();
    assert_eq!(queue, vec![(Y, "/r/Y".to_string())]);
    let outcomes: Vec<(usize, bool)> = queue.iter().map(|(node, _)| (*node, true)).collect();
    let (left, successes, failures) = pane.record_deletions(&outcomes);
    assert!(left.is_none());
    assert_eq!((successes, failures), (1, 0));
}

#[test]
fn what_could_not_be_deleted_stays_marked() {
    let tree = sample_tree();
    let mut pane = MarkPane::new();
    for node in [Z, Y, X] {
        pane = pane.toggle_index(node, &tree).unwrap();
    }
    pane.set_focus(true);
    assert_eq!(pane.selected(), Some(2));
    let queue = pane.deletion_queue();
    let paths: Vec<&str> = queue.iter().map(|(_, path)| path.as_str()).collect();
    assert_eq!(paths, vec!["/r/Z", "/r/Y", "/r/X"]);
    let (left, successes, failures) =
        pane.record_deletions(&vec![(Z, true), (Y, false), (X, true)]);
    let left = left.unwrap();
    assert_eq!((successes, failures), (2, 1));
    assert_eq!(left.marked().keys().copied().collect::<Vec<usize>>(), vec![Y]);
    assert_eq!(left.selected(), Some(0));
    assert!(left.has_focus());
    assert_eq!(left.deletion_queue(), vec![(Y, "/r/Y".to_string())]);
}
