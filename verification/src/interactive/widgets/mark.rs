//! The pane that lists what is marked for deletion.

use crate::interactive::common::{
    fit_graphemes_with_ellipsis, fitted_len, fitted_text, CursorDirection, Key,
};
use crate::text::{decimal, grapheme_clusters, graphemes, push_char, push_decimal};
use crate::traverse::{path_of, Tree, TreeIndex};
use itertools::Itertools;
use std::collections::BTreeMap;
use vstd::prelude::*;
use vstd::string::*;

verus! {

/// The marks, each under the node it marks.
pub type EntryMarkMap = BTreeMap<TreeIndex, EntryMark>;

/// What is kept of a marked entry.
#[derive(Clone, Debug, PartialEq, Eq)]
pub struct EntryMark {
    /// The bytes of the entry and of everything below it, when it was marked.
    pub size: u64,
    /// The path of the entry, when it was marked.
    pub path: String,
    /// The place of the mark in the order of marking: later marks have larger ones.
    pub index: usize,
}

/// A mark as mathematical values.
pub struct EntryMarkView {
    pub size: u64,
    pub path: Seq<char>,
    pub index: usize,
}

impl View for EntryMark {
    type V = EntryMarkView;

    open spec fn view(&self) -> EntryMarkView {
        EntryMarkView { size: self.size, path: self.path@, index: self.index }
    }
}

/// The marks of a map, each as mathematical values.
pub open spec fn mark_views(marked: Map<TreeIndex, EntryMark>) -> Map<TreeIndex, EntryMarkView> {
    Map::new(|node: TreeIndex| marked.dom().contains(node), |node: TreeIndex| marked[node]@)
}

/// The pane of marked entries: the marks, and which of them is selected while the
/// pane has the focus.
pub struct MarkPane {
    selected: Option<usize>,
    marked: EntryMarkMap,
    list_offset: usize,
    has_focus: bool,
    last_sorting_index: usize,
}

/// What the pane needs to know of its surroundings to lay out its lines.
#[derive(Clone, Copy, Debug)]
pub struct MarkPaneProps {
    /// The width of the column in which byte counts are right-aligned.
    pub byte_column_width: usize,
    /// The width that a byte count takes together with its unit.
    pub byte_total_width: usize,
}

/// One line of the pane.
#[derive(Clone, Debug, PartialEq, Eq)]
pub struct MarkLine {
    /// The node that the line stands for.
    pub node: TreeIndex,
    /// The path as it is shown, cut at its beginning if the line is too narrow.
    pub path: String,
    /// The number of grapheme clusters of `path`.
    pub path_len: usize,
    /// The number of blanks between the path and the byte count.
    pub spacer: usize,
    /// The bytes of the entry.
    pub size: u64,
    /// Whether the line is the selected one.
    pub is_selected: bool,
}

/// A line of the pane as mathematical values.
pub struct MarkLineView {
    pub node: TreeIndex,
    pub path: Seq<char>,
    pub path_len: nat,
    pub spacer: nat,
    pub size: u64,
    pub is_selected: bool,
}

impl View for MarkLine {
    type V = MarkLineView;

    open spec fn view(&self) -> MarkLineView {
        MarkLineView {
            node: self.node,
            path: self.path@,
            path_len: self.path_len as nat,
            spacer: self.spacer as nat,
            size: self.size,
            is_selected: self.is_selected,
        }
    }
}

/// What the pane shows.
#[derive(Clone, Debug)]
pub struct MarkPaneView {
    /// The number of marks.
    pub num_items: usize,
    /// The bytes of all marks together.
    pub total_size: u128,
    /// The lines, first-marked first.
    pub lines: Vec<MarkLine>,
    /// The line that has to be visible.
    pub entry_in_view: usize,
    /// Whether the line that explains deletion is shown.
    pub show_help: bool,
}

/// The mark that a node of `tree` gets when it is marked as number `sorting_index`.
pub open spec fn mark_of(tree: &Tree, node: TreeIndex, sorting_index: usize) -> EntryMarkView {
    EntryMarkView {
        size: tree.entry(node as int).size,
        path: tree.path_of(node as int),
        index: sorting_index,
    }
}

/// The marks after `node` was toggled: a marked node loses its mark, a node of the
/// tree that is not marked gets one, and anything else changes nothing.
pub open spec fn toggled(
    marks: Map<TreeIndex, EntryMarkView>,
    node: TreeIndex,
    tree: &Tree,
    sorting_index: usize,
) -> Map<TreeIndex, EntryMarkView> {
    if marks.contains_key(node) {
        marks.remove(node)
    } else if node < tree.len() {
        marks.insert(node, mark_of(tree, node, sorting_index))
    } else {
        marks
    }
}

/// Whether `listing` holds every mark of `marks` once, under its node, in the order
/// of marking; marks with the same place in that order stand in the order of their
/// nodes.
pub open spec fn is_listing(
    listing: Seq<(TreeIndex, EntryMarkView)>,
    marks: Map<TreeIndex, EntryMarkView>,
) -> bool {
    &&& listing.len() == marks.dom().len()
    &&& forall|i: int|
        0 <= i < listing.len() ==> marks.contains_key((#[trigger] listing[i]).0)
            && marks[listing[i].0] == listing[i].1
    &&& forall|node: TreeIndex| #[trigger]
        marks.contains_key(node) ==> exists|i: int|
            0 <= i < listing.len() && (#[trigger] listing[i]).0 == node
    &&& forall|i: int, j: int|
        #![trigger listing[i], listing[j]]
        0 <= i < j < listing.len() ==> listing[i].1.index < listing[j].1.index || (
        listing[i].1.index == listing[j].1.index && listing[i].0 < listing[j].0)
}

/// A list of marks with their nodes, as mathematical values.
pub open spec fn listing_views(listing: Seq<(TreeIndex, EntryMark)>) -> Seq<
    (TreeIndex, EntryMarkView),
> {
    listing.map_values(|pair: (TreeIndex, EntryMark)| (pair.0, pair.1@))
}

/// The move that a key asks for, if it asks for one.
pub open spec fn direction_of(key: Key) -> Option<CursorDirection> {
    match key {
        Key::Ctrl('u') | Key::PageUp => Some(CursorDirection::PageUp),
        Key::Char('k') | Key::Up => Some(CursorDirection::Up),
        Key::Char('j') | Key::Down => Some(CursorDirection::Down),
        Key::Ctrl('d') | Key::PageDown => Some(CursorDirection::PageDown),
        _ => None,
    }
}

/// The index of the last of `count` entries, or 0 if there is none.
pub open spec fn last_of(count: nat) -> usize {
    if count >= 1 {
        (count - 1) as usize
    } else {
        0
    }
}

/// A selection after a move in a list of `count` entries: it never leaves the list.
pub open spec fn moved_selection(
    selected: Option<usize>,
    direction: CursorDirection,
    count: nat,
) -> Option<usize> {
    match selected {
        Some(s) => Some(
            if direction.moved(s) <= last_of(count) {
                direction.moved(s)
            } else {
                last_of(count)
            },
        ),
        None => None,
    }
}

/// A path as the pane shows it: a blank before it and two after it.
pub open spec fn shown_path(path: Seq<char>) -> Seq<char> {
    seq![' '] + path + seq![' ', ' ']
}

/// The line of the mark `mark` of `node`, which stands at `position`, in a pane that
/// is `width` cells wide. Where the path and the byte count do not both fit, the
/// path is cut down to the room that the byte count leaves.
pub open spec fn line_of(
    node: TreeIndex,
    mark: EntryMarkView,
    position: int,
    selected: Option<usize>,
    props: MarkPaneProps,
    width: u16,
) -> MarkLineView {
    let text = shown_path(mark.path);
    let clusters = grapheme_clusters(text);
    let desired = if clusters.len() + props.byte_total_width > width {
        if width >= props.byte_total_width {
            (width - props.byte_total_width) as nat
        } else {
            0
        }
    } else {
        clusters.len()
    };
    let path_len = fitted_len(clusters, desired);
    MarkLineView {
        node,
        path: fitted_text(text, clusters, desired),
        path_len,
        spacer: if width >= path_len + props.byte_total_width {
            (width - path_len - props.byte_total_width) as nat
        } else {
            0
        },
        size: mark.size,
        is_selected: selected == Some(position as usize),
    }
}

/// The views of the lines.
pub open spec fn line_views(lines: Seq<MarkLine>) -> Seq<MarkLineView> {
    lines.map_values(|line: MarkLine| line@)
}

/// The bytes of all lines together.
pub open spec fn sum_of_sizes(lines: Seq<MarkLineView>) -> nat
    decreases lines.len(),
{
    if lines.len() == 0 {
        0
    } else {
        sum_of_sizes(lines.drop_last()) + lines.last().size as nat
    }
}

/// The marks that the lines stand for, each with its node.
pub open spec fn marks_of_lines(
    lines: Seq<MarkLineView>,
    marks: Map<TreeIndex, EntryMarkView>,
) -> Seq<(TreeIndex, EntryMarkView)> {
    Seq::new(lines.len(), |i: int| (lines[i].node, marks[lines[i].node]))
}

/// The title of the pane.
pub open spec fn title_of(num_items: nat, formatted_total: Seq<char>) -> Seq<char> {
    "Marked "@ + decimal(num_items) + " items ("@ + formatted_total + ") "@
}

/// The title of the pane: how many entries are marked, and their size as
/// `formatted_total` shows it.
pub fn title(num_items: usize, formatted_total: &str) -> (text: String)
    ensures
        text@ == title_of(num_items as nat, formatted_total@),
{
    let mut text = String::from_str("Marked ");
    push_decimal(&mut text, num_items as u64);
    text.append(" items (");
    text.append(formatted_total);
    text.append(") ");
    text
}

/// `BTreeMap::iter` of the standard library, sorted with `Itertools::sorted_by_key`
/// by the place of each mark in the order of marking, and copied into a vector. The
/// map hands out each of its entries once, in the order of the nodes, and the sort
/// is stable.
#[verifier::external_body]
fn marks_by_index(marked: &EntryMarkMap) -> (listing: Vec<(TreeIndex, EntryMark)>)
    ensures
        is_listing(listing_views(listing@), mark_views(marked@)),
{
    marked.iter().sorted_by_key(|(_, mark)| mark.index).map(
        |(node, mark)| (*node, mark.clone()),
    ).collect()
}

impl MarkPane {
    /// The marks, each under the node it marks.
    pub closed spec fn marks(&self) -> Map<TreeIndex, EntryMarkView> {
        mark_views(self.marked@)
    }

    /// The number of marks.
    pub closed spec fn count(&self) -> nat {
        self.marked@.dom().len()
    }

    /// The selected line, if the pane has the focus.
    pub closed spec fn selection(&self) -> Option<usize> {
        self.selected
    }

    /// Whether the pane has the focus.
    pub closed spec fn focused(&self) -> bool {
        self.has_focus
    }

    /// The place in the order of marking that was given out last.
    pub closed spec fn sorting_index(&self) -> usize {
        self.last_sorting_index
    }

    /// The first line that the list shows.
    pub closed spec fn offset(&self) -> usize {
        self.list_offset
    }

    /// The number of marks is the size of the map of marks.
    pub proof fn lemma_count_is_len(&self)
        ensures
            self.count() == self.marks().dom().len(),
    {
        assert(self.marks().dom() =~= self.marked@.dom());
    }

    /// A pane without marks and without the focus.
    pub fn new() -> (pane: MarkPane)
        ensures
            pane.marks() == Map::<TreeIndex, EntryMarkView>::empty(),
            pane.count() == 0,
            pane.selection() is None,
            !pane.focused(),
            pane.sorting_index() == 0,
            pane.offset() == 0,
    {
        let pane = MarkPane {
            selected: None,
            marked: BTreeMap::new(),
            list_offset: 0,
            has_focus: false,
            last_sorting_index: 0,
        };
        assert(pane.marks() =~= Map::<TreeIndex, EntryMarkView>::empty());
        pane
    }

    /// Whether the pane has the focus.
    pub fn has_focus(&self) -> (focus: bool)
        ensures
            focus == self.focused(),
    {
        self.has_focus
    }

    /// The selected line, if the pane has the focus.
    pub fn selected(&self) -> (selected: Option<usize>)
        ensures
            selected == self.selection(),
    {
        self.selected
    }

    /// Gives the pane the focus, which selects its last line, or takes the focus
    /// away, which clears the selection.
    pub fn set_focus(&mut self, has_focus: bool)
        ensures
            final(self).focused() == has_focus,
            final(self).selection() == if has_focus {
                Some(last_of(old(self).count()))
            } else {
                None
            },
            final(self).marks() == old(self).marks(),
            final(self).count() == old(self).count(),
            final(self).sorting_index() == old(self).sorting_index(),
            final(self).offset() == old(self).offset(),
            old(self).is_numbered() ==> final(self).is_numbered(),
    {
        self.has_focus = has_focus;
        if has_focus {
            self.selected = Some(self.marked.len().saturating_sub(1));
        } else {
            self.selected = None
        }
        proof {
            old(self).lemma_numbered_by_marks(self);
        }
    }

    /// The place in the order of marking that was given out last.
    pub fn last_sorting_index(&self) -> (index: usize)
        ensures
            index == self.sorting_index(),
    {
        self.last_sorting_index
    }

    /// The first line that the list shows.
    pub fn list_offset(&self) -> (offset: usize)
        ensures
            offset == self.offset(),
    {
        self.list_offset
    }

    /// Remembers the first line that the list shows.
    pub fn set_list_offset(&mut self, offset: usize)
        ensures
            final(self).offset() == offset,
            final(self).marks() == old(self).marks(),
            final(self).count() == old(self).count(),
            final(self).selection() == old(self).selection(),
            final(self).focused() == old(self).focused(),
            final(self).sorting_index() == old(self).sorting_index(),
            old(self).is_numbered() ==> final(self).is_numbered(),
    {
        self.list_offset = offset;
        proof {
            old(self).lemma_numbered_by_marks(self);
        }
    }

    /// The marks, each under the node it marks.
    pub fn marked(&self) -> (marked: &EntryMarkMap)
        ensures
            mark_views(marked@) == self.marks(),
            marked@.dom().len() == self.count(),
    {
        &self.marked
    }
}

impl MarkPane {
    /// Whether no mark has a place in the order of marking that was not given out
    /// yet.
    pub closed spec fn is_numbered(&self) -> bool {
        forall|node: TreeIndex| #[trigger]
            self.marks().contains_key(node) ==> self.marks()[node].index <= self.sorting_index()
    }

    /// Marks the node `index` of `tree` if it is not marked, and takes its mark away
    /// if it is. A new mark holds the size and the path that the node has now, and
    /// the next place in the order of marking. Returns `None` if no mark is left.
    pub fn toggle_index(self, index: TreeIndex, tree: &Tree) -> (res: Option<MarkPane>)
        requires
            tree.wf(),
            self.sorting_index() < usize::MAX,
        ensures
            res is None <==> toggled(
                self.marks(),
                index,
                tree,
                (self.sorting_index() + 1) as usize,
            ).dom() =~= Set::<TreeIndex>::empty(),
            res matches Some(pane) ==> {
                &&& pane.marks() == toggled(
                    self.marks(),
                    index,
                    tree,
                    (self.sorting_index() + 1) as usize,
                )
                &&& pane.sorting_index() == if !self.marks().contains_key(index) && index
                    < tree.len() {
                    (self.sorting_index() + 1) as usize
                } else {
                    self.sorting_index()
                }
                &&& pane.selection() == self.selection()
                &&& pane.focused() == self.focused()
                &&& pane.offset() == self.offset()
                &&& self.is_numbered() ==> pane.is_numbered()
            },
    {
        let ghost before = self.marks();
        let ghost numbered = self.is_numbered();
        let MarkPane { selected, marked, list_offset, has_focus, last_sorting_index } = self;
        let mut marked = marked;
        let mut last_sorting_index = last_sorting_index;
        if marked.contains_key(&index) {
            marked.remove(&index);
            proof {
                assert(mark_views(marked@) =~= before.remove(index));
            }
        } else {
            match tree.node_weight(index) {
                Some(e) => {
                    let sorting_index = last_sorting_index + 1;
                    last_sorting_index = sorting_index;
                    marked.insert(
                        index,
                        EntryMark { size: e.size, path: path_of(tree, index), index: sorting_index },
                    );
                    proof {
                        assert(mark_views(marked@) =~= before.insert(
                            index,
                            mark_of(tree, index, sorting_index),
                        ));
                    }
                },
                None => {},
            }
        }
        let ghost after = mark_views(marked@);
        proof {
            assert(after.dom() =~= marked@.dom());
        }
        if marked.is_empty() {
            None
        } else {
            let pane = MarkPane { selected, marked, list_offset, has_focus, last_sorting_index };
            proof {
                if numbered {
                    assert forall|node: TreeIndex| #[trigger]
                        pane.marks().contains_key(node) implies pane.marks()[node].index
                        <= pane.sorting_index() by {
                        if node != index {
                            assert(before.contains_key(node));
                        }
                    }
                }
            }
            Some(pane)
        }
    }

    /// Moves the selection, if there is one, and keeps it within the list.
    fn change_selection(&mut self, direction: CursorDirection)
        ensures
            final(self).selection() == moved_selection(
                old(self).selection(),
                direction,
                old(self).count(),
            ),
            final(self).marks() == old(self).marks(),
            final(self).count() == old(self).count(),
            final(self).focused() == old(self).focused(),
            final(self).sorting_index() == old(self).sorting_index(),
            final(self).offset() == old(self).offset(),
            old(self).is_numbered() ==> final(self).is_numbered(),
    {
        match self.selected {
            Some(selected) => {
                let moved = direction.move_cursor(selected);
                let last = self.marked.len().saturating_sub(1);
                self.selected = Some(
                    if moved <= last {
                        moved
                    } else {
                        last
                    },
                );
            },
            None => {},
        }
        proof {
            assert(self.marked@ == old(self).marked@);
            if old(self).is_numbered() {
                assert forall|node: TreeIndex| #[trigger]
                    self.marks().contains_key(node) implies self.marks()[node].index
                    <= self.sorting_index() by {
                    assert(old(self).marks().contains_key(node));
                }
            }
        }
    }

    /// Handles a key while the pane has the focus: the keys that move a cursor move
    /// the selection, all others change nothing.
    pub fn key(&mut self, key: Key)
        ensures
            final(self).selection() == match direction_of(key) {
                Some(direction) => moved_selection(
                    old(self).selection(),
                    direction,
                    old(self).count(),
                ),
                None => old(self).selection(),
            },
            final(self).marks() == old(self).marks(),
            final(self).count() == old(self).count(),
            final(self).focused() == old(self).focused(),
            final(self).sorting_index() == old(self).sorting_index(),
            final(self).offset() == old(self).offset(),
            old(self).is_numbered() ==> final(self).is_numbered(),
    {
        match key {
            Key::Ctrl('u') | Key::PageUp => self.change_selection(CursorDirection::PageUp),
            Key::Char('k') | Key::Up => self.change_selection(CursorDirection::Up),
            Key::Char('j') | Key::Down => self.change_selection(CursorDirection::Down),
            Key::Ctrl('d') | Key::PageDown => self.change_selection(CursorDirection::PageDown),
            _ => {},
        };
    }
}

impl MarkPane {
    /// Whether the marks are numbered depends on the marks and on the number given
    /// out last alone.
    proof fn lemma_numbered_by_marks(&self, other: &MarkPane)
        requires
            self.marked@ == other.marked@,
            self.last_sorting_index == other.last_sorting_index,
        ensures
            self.is_numbered() ==> other.is_numbered(),
    {
        if self.is_numbered() {
            assert forall|node: TreeIndex| #[trigger]
                other.marks().contains_key(node) implies other.marks()[node].index
                <= other.sorting_index() by {
                assert(self.marks().contains_key(node));
            }
        }
    }

    /// Lays out the pane for a width of `width` cells: one line for each mark, in the
    /// order of marking, with the path cut to fit, the sum of all sizes, and the line
    /// that has to be visible. A pane without a selection shows its list from the
    /// top and keeps its last line visible.
    pub fn render(&mut self, props: &MarkPaneProps, width: u16) -> (view: MarkPaneView)
        ensures
            final(self).marks() == old(self).marks(),
            final(self).count() == old(self).count(),
            final(self).selection() == old(self).selection(),
            final(self).focused() == old(self).focused(),
            final(self).sorting_index() == old(self).sorting_index(),
            final(self).offset() == if old(self).selection() is None {
                0
            } else {
                old(self).offset()
            },
            old(self).is_numbered() ==> final(self).is_numbered(),
            view.num_items == old(self).count(),
            view.lines@.len() == old(self).count(),
            is_listing(
                marks_of_lines(line_views(view.lines@), old(self).marks()),
                old(self).marks(),
            ),
            forall|i: int|
                0 <= i < view.lines@.len() ==> (#[trigger] view.lines@[i])@ == line_of(
                    view.lines@[i].node,
                    old(self).marks()[view.lines@[i].node],
                    i,
                    old(self).selection(),
                    *props,
                    width,
                ),
            view.total_size == sum_of_sizes(line_views(view.lines@)),
            view.entry_in_view == match old(self).selection() {
                Some(selected) => selected,
                None => last_of(old(self).count()),
            },
            view.show_help == old(self).focused(),
    {
        let listing = marks_by_index(&self.marked);
        let ghost marks = self.marks();
        proof {
            self.lemma_count_is_len();
        }
        let cells = width as usize;
        let mut lines: Vec<MarkLine> = Vec::new();
        let mut total: u128 = 0;
        let mut i: usize = 0;
        while i < listing.len()
            invariant
                i <= listing.len(),
                lines.len() == i,
                cells == width,
                is_listing(listing_views(listing@), marks),
                total == sum_of_sizes(line_views(lines@)),
                total <= i * 0xffff_ffff_ffff_ffff,
                forall|j: int|
                    0 <= j < i ==> (#[trigger] lines@[j])@ == line_of(
                        listing@[j].0,
                        listing@[j].1@,
                        j,
                        self.selected,
                        *props,
                        width,
                    ),
            decreases listing.len() - i,
        {
            let node = listing[i].0;
            let mark = &listing[i].1;
            let mut text = String::new();
            push_char(&mut text, ' ');
            text.append(mark.path.as_str());
            push_char(&mut text, ' ');
            push_char(&mut text, ' ');
            proof {
                assert(text@ =~= shown_path(mark.path@));
            }
            let clusters = graphemes(text.as_str());
            let count = clusters.len();
            let overflows = props.byte_total_width > cells || count > cells
                - props.byte_total_width;
            let desired = if overflows {
                cells.saturating_sub(props.byte_total_width)
            } else {
                count
            };
            let (path, path_len) = fit_graphemes_with_ellipsis(text, &clusters, desired);
            let spacer = cells.saturating_sub(path_len).saturating_sub(props.byte_total_width);
            let is_selected = match self.selected {
                Some(selected) => selected == i,
                None => false,
            };
            let ghost shown = line_views(lines@);
            lines.push(MarkLine { node, path, path_len, spacer, size: mark.size, is_selected });
            proof {
                assert(line_views(lines@).drop_last() =~= shown);
            }
            total = total + mark.size as u128;
            i += 1;
        }
        proof {
            assert(listing_views(listing@).len() == listing@.len());
            assert(marks_of_lines(line_views(lines@), marks) =~= listing_views(listing@)) by {
                assert forall|j: int| 0 <= j < lines@.len() implies marks_of_lines(
                    line_views(lines@),
                    marks,
                )[j] == listing_views(listing@)[j] by {
                    assert(lines@[j]@.node == listing@[j].0);
                    assert(marks[listing_views(listing@)[j].0] == listing_views(listing@)[j].1);
                }
            }
            assert forall|j: int| 0 <= j < lines@.len() implies (#[trigger] lines@[j])@
                == line_of(lines@[j].node, marks[lines@[j].node], j, self.selected, *props, width) by {
                assert(lines@[j]@.node == listing@[j].0);
                assert(marks[listing_views(listing@)[j].0] == listing_views(listing@)[j].1);
            }
        }
        let num_items = self.marked.len();
        let entry_in_view = match self.selected {
            Some(selected) => selected,
            None => {
                self.list_offset = 0;
                num_items.saturating_sub(1)
            },
        };
        proof {
            old(self).lemma_numbered_by_marks(self);
        }
        MarkPaneView {
            num_items,
            total_size: total,
            lines,
            entry_in_view,
            show_help: self.has_focus,
        }
    }
}

/// The two parts of the line that explains deletion: the keys to press, and what
/// they do.
pub fn help_line() -> (parts: (String, String))
    ensures
        parts.0@ == " Ctrl + Shift + r"@,
        parts.1@ == " permanently deletes list without prompt"@,
{
    (
        String::from_str(" Ctrl + Shift + r"),
        String::from_str(" permanently deletes list without prompt"),
    )
}

/// Toggling a node twice leaves the nodes marked that were marked before. Marking a
/// node and taking the mark away again leaves every mark as it was.
pub proof fn lemma_toggle_twice_restores(
    marks: Map<TreeIndex, EntryMarkView>,
    node: TreeIndex,
    tree: &Tree,
    first: usize,
    second: usize,
)
    requires
        marks.contains_key(node) ==> node < tree.len(),
    ensures
        toggled(toggled(marks, node, tree, first), node, tree, second).dom() == marks.dom(),
        !marks.contains_key(node) ==> toggled(toggled(marks, node, tree, first), node, tree, second)
            == marks,
{
    let twice = toggled(toggled(marks, node, tree, first), node, tree, second);
    assert(twice.dom() =~= marks.dom());
    if !marks.contains_key(node) {
        assert(twice =~= marks);
    }
}

/// A node that is marked anew comes last in the order of marking.
pub proof fn lemma_new_mark_is_last(pane: &MarkPane, node: TreeIndex, tree: &Tree, other: TreeIndex)
    requires
        pane.is_numbered(),
        pane.sorting_index() < usize::MAX,
        !pane.marks().contains_key(node),
        node < tree.len(),
        pane.marks().contains_key(other),
    ensures
        ({
            let after = toggled(pane.marks(), node, tree, (pane.sorting_index() + 1) as usize);
            after[other].index < after[node].index
        }),
{
}

/// The pane as mathematical values.
pub struct MarkPaneState {
    pub marks: Map<TreeIndex, EntryMarkView>,
    pub selection: Option<usize>,
    pub focused: bool,
    pub sorting_index: usize,
    pub offset: usize,
}

impl View for MarkPane {
    type V = MarkPaneState;

    open spec fn view(&self) -> MarkPaneState {
        MarkPaneState {
            marks: self.marks(),
            selection: self.selection(),
            focused: self.focused(),
            sorting_index: self.sorting_index(),
            offset: self.offset(),
        }
    }
}

/// The marks that are left once the outcomes of deletions are known: a node that was
/// deleted loses its mark, a node that could not be deleted keeps it.
pub open spec fn after_deletions(
    marks: Map<TreeIndex, EntryMarkView>,
    outcomes: Seq<(TreeIndex, bool)>,
) -> Map<TreeIndex, EntryMarkView>
    decreases outcomes.len(),
{
    if outcomes.len() == 0 {
        marks
    } else if outcomes.last().1 {
        after_deletions(marks, outcomes.drop_last()).remove(outcomes.last().0)
    } else {
        after_deletions(marks, outcomes.drop_last())
    }
}

/// The number of deletions that succeeded.
pub open spec fn successes(outcomes: Seq<(TreeIndex, bool)>) -> nat
    decreases outcomes.len(),
{
    if outcomes.len() == 0 {
        0
    } else {
        successes(outcomes.drop_last()) + if outcomes.last().1 {
            1nat
        } else {
            0nat
        }
    }
}

/// A selection that is held within a list of `count` entries.
pub open spec fn held_within(selection: Option<usize>, count: nat) -> Option<usize> {
    match selection {
        Some(selected) => Some(
            if selected <= last_of(count) {
                selected
            } else {
                last_of(count)
            },
        ),
        None => None,
    }
}

/// The number of deletions after which the screen is drawn anew.
pub const DELETIONS_PER_REDRAW: usize = 16;

impl MarkPane {
    /// What is to be deleted: the node and the path of every mark, in the order of
    /// marking.
    pub fn deletion_queue(&self) -> (queue: Vec<(TreeIndex, String)>)
        ensures
            queue@.len() == self.count(),
            is_listing(
                Seq::new(queue@.len(), |i: int| (queue@[i].0, self.marks()[queue@[i].0])),
                self.marks(),
            ),
            forall|i: int|
                0 <= i < queue@.len() ==> (#[trigger] queue@[i]).1@ == self.marks()[queue@[i].0].path,
    {
        let listing = marks_by_index(&self.marked);
        let ghost marks = self.marks();
        proof {
            self.lemma_count_is_len();
        }
        let mut queue: Vec<(TreeIndex, String)> = Vec::new();
        let mut i: usize = 0;
        while i < listing.len()
            invariant
                i <= listing.len(),
                queue.len() == i,
                is_listing(listing_views(listing@), marks),
                forall|j: int|
                    0 <= j < i ==> (#[trigger] queue@[j]).0 == listing@[j].0 && queue@[j].1@
                        == listing@[j].1.path@,
            decreases listing.len() - i,
        {
            queue.push((listing[i].0, listing[i].1.path.clone()));
            i += 1;
        }
        proof {
            let paired = Seq::new(queue@.len(), |i: int| (queue@[i].0, marks[queue@[i].0]));
            assert(paired =~= listing_views(listing@)) by {
                assert forall|j: int| 0 <= j < paired.len() implies paired[j] == listing_views(
                    listing@,
                )[j] by {
                    assert(queue@[j].0 == listing@[j].0);
                    assert(marks[listing_views(listing@)[j].0] == listing_views(listing@)[j].1);
                }
            }
            assert forall|j: int| 0 <= j < queue@.len() implies (#[trigger] queue@[j]).1@
                == marks[queue@[j].0].path by {
                assert(marks[listing_views(listing@)[j].0] == listing_views(listing@)[j].1);
            }
        }
        queue
    }

    /// Takes the marks of the nodes that were deleted away and says how many deletions
    /// succeeded and how many failed. Marks of nodes that could not be deleted stay.
    /// Returns no pane if no mark is left.
    pub fn record_deletions(self, outcomes: &Vec<(TreeIndex, bool)>) -> (res: (
        Option<MarkPane>,
        usize,
        usize,
    ))
        ensures
            res.0 is None <==> after_deletions(self.marks(), outcomes@).dom() =~= Set::<
                TreeIndex,
            >::empty(),
            res.0 matches Some(pane) ==> {
                &&& pane.marks() == after_deletions(self.marks(), outcomes@)
                &&& pane.selection() == held_within(self.selection(), pane.marks().dom().len())
                &&& pane.focused() == self.focused()
                &&& pane.sorting_index() == self.sorting_index()
                &&& pane.offset() == self.offset()
                &&& self.is_numbered() ==> pane.is_numbered()
            },
            res.1 == successes(outcomes@),
            res.1 + res.2 == outcomes@.len(),
    {
        let ghost before = self.marks();
        let ghost numbered = self.is_numbered();
        let MarkPane { selected, marked, list_offset, has_focus, last_sorting_index } = self;
        let mut marked = marked;
        let mut succeeded: usize = 0;
        let mut failed: usize = 0;
        let mut i: usize = 0;
        while i < outcomes.len()
            invariant
                i <= outcomes.len(),
                mark_views(marked@) == after_deletions(before, outcomes@.take(i as int)),
                succeeded == successes(outcomes@.take(i as int)),
                succeeded + failed == i,
                forall|node: TreeIndex| #[trigger]
                    marked@.dom().contains(node) ==> before.contains_key(node) && mark_views(
                        marked@,
                    )[node] == before[node],
            decreases outcomes.len() - i,
        {
            proof {
                assert(outcomes@.take(i + 1).drop_last() =~= outcomes@.take(i as int));
            }
            let ghost earlier = mark_views(marked@);
            if outcomes[i].1 {
                marked.remove(&outcomes[i].0);
                proof {
                    assert(mark_views(marked@) =~= earlier.remove(outcomes@[i as int].0));
                }
                succeeded += 1;
            } else {
                failed += 1;
            }
            i += 1;
        }
        proof {
            assert(outcomes@.take(i as int) =~= outcomes@);
            assert(mark_views(marked@).dom() =~= marked@.dom());
        }
        if marked.is_empty() {
            (None, succeeded, failed)
        } else {
            let last = marked.len().saturating_sub(1);
            let selected = match selected {
                Some(s) => Some(
                    if s <= last {
                        s
                    } else {
                        last
                    },
                ),
                None => None,
            };
            let pane = MarkPane { selected, marked, list_offset, has_focus, last_sorting_index };
            proof {
                pane.lemma_count_is_len();
                if numbered {
                    assert forall|node: TreeIndex| #[trigger]
                        pane.marks().contains_key(node) implies pane.marks()[node].index
                        <= pane.sorting_index() by {
                        assert(pane.marked@.dom().contains(node));
                        assert(before.contains_key(node));
                    }
                }
            }
            (Some(pane), succeeded, failed)
        }
    }
}

} // verus!
