//! Where the explorer stands in the tree: the directories entered, the selection in
//! each of them, and the order in which entries are shown.

use crate::interactive::common::CursorDirection;
use crate::interactive::widgets::mark::last_of;
use crate::sorting::{arranged, is_stable_order, stable_order};
use crate::traverse::{Tree, TreeIndex};
use vstd::prelude::*;

verus! {

/// The order in which the entries of a directory are shown.
#[derive(Clone, Copy, Debug, PartialEq, Eq, Structural)]
pub enum SortMode {
    /// Largest first.
    SizeDescending,
    /// Smallest first.
    SizeAscending,
    /// By name.
    Name,
}

impl SortMode {
    /// The mode that follows this one: largest first, smallest first, by name, and
    /// round again.
    pub open spec fn next(self) -> SortMode {
        match self {
            SortMode::SizeDescending => SortMode::SizeAscending,
            SortMode::SizeAscending => SortMode::Name,
            SortMode::Name => SortMode::SizeDescending,
        }
    }

    /// The mode that follows this one.
    pub fn cycled(self) -> (mode: SortMode)
        ensures
            mode == self.next(),
    {
        match self {
            SortMode::SizeDescending => SortMode::SizeAscending,
            SortMode::SizeAscending => SortMode::Name,
            SortMode::Name => SortMode::SizeDescending,
        }
    }
}

/// A directory that is shown, and the entry selected in it.
#[derive(Clone, Copy, Debug, PartialEq, Eq, Structural)]
pub struct Frame {
    /// The node of the directory.
    pub node: TreeIndex,
    /// The index of the selected entry among the entries as they are shown.
    pub selected: usize,
}

/// The keys by which the entries `nodes` are sorted by size. For the largest first,
/// a larger entry gets a smaller key.
pub open spec fn size_keys(tree: &Tree, nodes: Seq<TreeIndex>, descending: bool) -> Seq<u64> {
    Seq::new(
        nodes.len(),
        |i: int|
            if descending {
                (u64::MAX - tree.entry(nodes[i] as int).size) as u64
            } else {
                tree.entry(nodes[i] as int).size
            },
    )
}

/// The names of the entries `nodes`.
pub open spec fn name_keys(tree: &Tree, nodes: Seq<TreeIndex>) -> Seq<String> {
    Seq::new(nodes.len(), |i: int| tree.entry(nodes[i] as int).name)
}

/// Whether `shown` are the children of `node` in the order of `mode`. Entries that
/// the order does not tell apart stand as they were found. A node that is not in
/// the tree shows nothing.
pub open spec fn is_sorted_view(
    shown: Seq<TreeIndex>,
    tree: &Tree,
    node: TreeIndex,
    mode: SortMode,
) -> bool {
    if node < tree.len() {
        let nodes = tree.children(node as int);
        exists|order: Seq<usize>|
            shown == arranged(nodes, order) && match mode {
                SortMode::SizeDescending => is_stable_order(order, size_keys(tree, nodes, true)),
                SortMode::SizeAscending => is_stable_order(order, size_keys(tree, nodes, false)),
                SortMode::Name => is_stable_order(order, name_keys(tree, nodes)),
            }
    } else {
        shown.len() == 0
    }
}

/// The children of `node` in the order of `mode`.
pub fn sorted_children(tree: &Tree, node: TreeIndex, mode: SortMode) -> (shown: Vec<TreeIndex>)
    requires
        tree.wf(),
    ensures
        is_sorted_view(shown@, tree, node, mode),
{
    let mut shown: Vec<TreeIndex> = Vec::new();
    if node >= tree.node_count() {
        return shown;
    }
    let nodes = tree.children_of(node);
    let order = match mode {
        SortMode::Name => {
            let mut names: Vec<String> = Vec::new();
            let mut i: usize = 0;
            while i < nodes.len()
                invariant
                    tree.wf(),
                    node < tree.len(),
                    nodes@ == tree.children(node as int),
                    i <= nodes.len(),
                    names.len() == i,
                    forall|j: int| 0 <= j < i ==> names@[j] == tree.entry(nodes@[j] as int).name,
                decreases nodes.len() - i,
            {
                assert(tree.children(node as int)[i as int] < tree.len());
                names.push(tree.entry_of(nodes[i]).name.clone());
                i += 1;
            }
            proof {
                assert(names@ =~= name_keys(tree, nodes@));
            }
            stable_order(&names)
        },
        _ => {
            let descending = match mode {
                SortMode::SizeDescending => true,
                _ => false,
            };
            let mut keys: Vec<u64> = Vec::new();
            let mut i: usize = 0;
            while i < nodes.len()
                invariant
                    tree.wf(),
                    node < tree.len(),
                    nodes@ == tree.children(node as int),
                    i <= nodes.len(),
                    keys.len() == i,
                    forall|j: int|
                        0 <= j < i ==> keys@[j] == size_keys(tree, nodes@, descending)[j],
                decreases nodes.len() - i,
            {
                assert(tree.children(node as int)[i as int] < tree.len());
                let size = tree.entry_of(nodes[i]).size;
                keys.push(
                    if descending {
                        u64::MAX - size
                    } else {
                        size
                    },
                );
                i += 1;
            }
            proof {
                assert(keys@ =~= size_keys(tree, nodes@, descending));
            }
            stable_order(&keys)
        },
    };
    let mut k: usize = 0;
    while k < order.len()
        invariant
            k <= order.len(),
            shown.len() == k,
            order.len() == nodes.len(),
            forall|j: int| 0 <= j < order.len() ==> 0 <= #[trigger] order@[j] < nodes.len(),
            forall|j: int| 0 <= j < k ==> shown@[j] == nodes@[order@[j] as int],
        decreases order.len() - k,
    {
        shown.push(nodes[order[k]]);
        k += 1;
    }
    proof {
        assert(shown@ =~= arranged(nodes@, order@));
    }
    shown
}

/// Where the explorer stands: the directory shown, the directories above it through
/// which it was entered, and the order of entries.
pub struct NavigationState {
    parents: Vec<Frame>,
    current: Frame,
    sort: SortMode,
}

impl NavigationState {
    /// The directories entered, outermost first. The last is the one that is shown.
    pub closed spec fn stack(&self) -> Seq<Frame> {
        self.parents@.push(self.current)
    }

    /// The order in which entries are shown.
    pub closed spec fn sort_mode(&self) -> SortMode {
        self.sort
    }

    /// The directory that is shown and the selection in it.
    pub open spec fn top(&self) -> Frame {
        self.stack().last()
    }

    /// The stack is never empty.
    pub proof fn lemma_stack_is_never_empty(&self)
        ensures
            self.stack().len() >= 1,
    {
    }

    /// The explorer at the node above the roots, with the first entry selected and the
    /// largest entries first.
    pub fn new() -> (state: NavigationState)
        ensures
            state.stack() == seq![Frame { node: 0, selected: 0 }],
            state.sort_mode() == SortMode::SizeDescending,
    {
        let state = NavigationState {
            parents: Vec::new(),
            current: Frame { node: 0, selected: 0 },
            sort: SortMode::SizeDescending,
        };
        assert(state.stack() =~= seq![Frame { node: 0, selected: 0 }]);
        state
    }

    /// The directory that is shown and the selection in it.
    pub fn current(&self) -> (frame: Frame)
        ensures
            frame == self.top(),
    {
        self.current
    }

    /// The outermost directory, from which the exploration started.
    pub fn root(&self) -> (node: TreeIndex)
        ensures
            node == self.stack()[0].node,
    {
        if self.parents.len() > 0 {
            self.parents[0].node
        } else {
            self.current.node
        }
    }

    /// Whether a directory was entered that can be left again.
    pub fn can_leave(&self) -> (can: bool)
        ensures
            can == (self.stack().len() > 1),
    {
        self.parents.len() > 0
    }

    /// The order in which entries are shown.
    pub fn sort(&self) -> (mode: SortMode)
        ensures
            mode == self.sort_mode(),
    {
        self.sort
    }
}

/// A selection after a move among `count` entries: it never leaves the list.
pub open spec fn moved_within(selected: usize, direction: CursorDirection, count: nat) -> usize {
    if direction.moved(selected) <= last_of(count) {
        direction.moved(selected)
    } else {
        last_of(count)
    }
}

/// The stack with another selection in the directory shown.
pub open spec fn with_selection(stack: Seq<Frame>, selected: usize) -> Seq<Frame> {
    stack.drop_last().push(Frame { node: stack.last().node, selected })
}

/// The stack after the entry `node` of the directory shown was entered: the new
/// directory is shown with its first entry selected.
pub open spec fn entered(stack: Seq<Frame>, node: TreeIndex) -> Seq<Frame> {
    stack.push(Frame { node, selected: 0 })
}

/// The stack after the directory shown was left. The outermost directory cannot be
/// left.
pub open spec fn left(stack: Seq<Frame>) -> Seq<Frame> {
    if stack.len() > 1 {
        stack.drop_last()
    } else {
        stack
    }
}

/// Whether the selected entry of `shown` is a directory of the tree, and so can be
/// entered.
pub open spec fn can_enter(tree: &Tree, shown: Seq<TreeIndex>, selected: usize) -> bool {
    selected < shown.len() && shown[selected as int] < tree.len() && tree.entry(
        shown[selected as int] as int,
    ).is_dir
}

impl NavigationState {
    /// Moves the selection among the `count` entries shown.
    pub fn move_selection(&mut self, direction: CursorDirection, count: usize)
        ensures
            final(self).stack() == with_selection(
                old(self).stack(),
                moved_within(old(self).top().selected, direction, count as nat),
            ),
            final(self).sort_mode() == old(self).sort_mode(),
    {
        let moved = direction.move_cursor(self.current.selected);
        let last = count.saturating_sub(1);
        self.current.selected = if moved <= last {
            moved
        } else {
            last
        };
        proof {
            assert(self.stack() =~= with_selection(
                old(self).stack(),
                moved_within(old(self).top().selected, direction, count as nat),
            ));
        }
    }

    /// Selects the first entry.
    pub fn select_first(&mut self)
        ensures
            final(self).stack() == with_selection(old(self).stack(), 0),
            final(self).sort_mode() == old(self).sort_mode(),
    {
        self.current.selected = 0;
        proof {
            assert(self.stack() =~= with_selection(old(self).stack(), 0));
        }
    }

    /// Selects the last of the `count` entries shown.
    pub fn select_last(&mut self, count: usize)
        ensures
            final(self).stack() == with_selection(old(self).stack(), last_of(count as nat)),
            final(self).sort_mode() == old(self).sort_mode(),
    {
        self.current.selected = count.saturating_sub(1);
        proof {
            assert(self.stack() =~= with_selection(old(self).stack(), last_of(count as nat)));
        }
    }

    /// Enters the selected entry of `shown` if it is a directory, and says whether it
    /// did. The directory entered is shown with its first entry selected.
    pub fn enter(&mut self, tree: &Tree, shown: &Vec<TreeIndex>) -> (did: bool)
        ensures
            did == can_enter(tree, shown@, old(self).top().selected),
            final(self).stack() == if did {
                entered(old(self).stack(), shown@[old(self).top().selected as int])
            } else {
                old(self).stack()
            },
            final(self).sort_mode() == old(self).sort_mode(),
    {
        let selected = self.current.selected;
        if selected >= shown.len() {
            return false;
        }
        let node = shown[selected];
        match tree.node_weight(node) {
            Some(entry) => {
                if entry.is_dir {
                    self.parents.push(self.current);
                    self.current = Frame { node, selected: 0 };
                    true
                } else {
                    false
                }
            },
            None => false,
        }
    }

    /// Leaves the directory shown, unless it is the outermost, and says whether it
    /// did. The directory above is shown with the selection it had.
    pub fn leave(&mut self) -> (did: bool)
        ensures
            did == (old(self).stack().len() > 1),
            final(self).stack() == left(old(self).stack()),
            final(self).sort_mode() == old(self).sort_mode(),
    {
        match self.parents.pop() {
            Some(frame) => {
                self.current = frame;
                proof {
                    assert(self.stack() =~= old(self).stack().drop_last());
                }
                true
            },
            None => false,
        }
    }

    /// Switches to the next order of entries.
    pub fn cycle_sort(&mut self)
        ensures
            final(self).stack() == old(self).stack(),
            final(self).sort_mode() == old(self).sort_mode().next(),
    {
        self.sort = self.sort.cycled();
    }
}

/// Entering a directory and leaving it again restores the stack, and with it the
/// selection that was there before.
pub proof fn lemma_enter_then_leave_restores(stack: Seq<Frame>, node: TreeIndex)
    requires
        stack.len() >= 1,
    ensures
        left(entered(stack, node)) == stack,
        left(entered(stack, node)).last().selected == stack.last().selected,
{
    assert(entered(stack, node).drop_last() =~= stack);
}

} // verus!
