//! The tree of everything a walk found, with the size of each entry and of all that
//! lies below it.

use crate::aggregate::{is_error, measure, size_of, summarized, walked, RootWalk, Tally};
use crate::common::{Entry, WalkItem, WalkOptions};
use crate::inodefilter::InodeFilter;
use crate::text::push_char;
use vstd::prelude::*;
use vstd::string::*;

verus! {

/// The handle of a node of a [`Tree`].
pub type TreeIndex = usize;

/// What the tree knows of one entry.
#[derive(Clone, Debug, PartialEq, Eq)]
pub struct EntryData {
    /// The name of the entry: one component of its path. The name of a root is the
    /// path the user gave.
    pub name: String,
    /// The bytes of the entry itself and of everything below it.
    pub size: u64,
    /// Whether the entry is a directory.
    pub is_dir: bool,
    /// Whether the entry could not be read or measured.
    pub metadata_io_error: bool,
}

struct Node {
    data: EntryData,
    own_size: u64,
    parent: Option<TreeIndex>,
    children: Vec<TreeIndex>,
}

/// All entries of a walk. Node 0 stands for no entry: it is the parent of the roots.
pub struct Tree {
    nodes: Vec<Node>,
}

impl Tree {
    /// The number of nodes, the one above the roots included.
    pub closed spec fn len(&self) -> nat {
        self.nodes@.len()
    }

    /// What the node holds.
    pub closed spec fn entry(&self, index: int) -> EntryData {
        self.nodes@[index].data
    }

    /// The bytes of the entry itself, without what lies below it.
    pub closed spec fn own_size(&self, index: int) -> nat {
        self.nodes@[index].own_size as nat
    }

    /// The node above `index`, or `None` for node 0.
    pub closed spec fn parent(&self, index: int) -> Option<TreeIndex> {
        self.nodes@[index].parent
    }

    /// The nodes directly below `index`, in the order in which they were found.
    pub closed spec fn children(&self, index: int) -> Seq<TreeIndex> {
        self.nodes@[index].children@
    }

    /// The bytes of the entry and of everything below it.
    pub open spec fn total(&self, index: int) -> nat {
        self.entry(index).size as nat
    }

    /// The sum of the totals of `nodes`.
    pub open spec fn sum_of_totals(&self, nodes: Seq<TreeIndex>) -> nat
        decreases nodes.len(),
    {
        if nodes.len() == 0 {
            0
        } else {
            self.sum_of_totals(nodes.drop_last()) + self.total(nodes.last() as int)
        }
    }

    /// Whether the lists of children agree with the parents: the children of a node
    /// are exactly the nodes whose parent it is, each once, in ascending order.
    pub open spec fn children_match_parents(&self) -> bool {
        &&& forall|i: int, k: int|
            #![trigger self.children(i)[k]]
            0 <= i < self.len() && 0 <= k < self.children(i).len() ==> {
                &&& i < self.children(i)[k] < self.len()
                &&& self.parent(self.children(i)[k] as int) == Some(i as usize)
            }
        &&& forall|i: int, k: int, l: int|
            #![trigger self.children(i)[k], self.children(i)[l]]
            0 <= i < self.len() && 0 <= k < l < self.children(i).len() ==> self.children(i)[k]
                < self.children(i)[l]
        &&& forall|c: int|
            #![trigger self.parent(c)]
            1 <= c < self.len() ==> self.children(self.parent(c).unwrap() as int).contains(
                c as usize,
            )
    }

    /// Whether node 0 is the only node without a parent, every other node comes after
    /// its parent, and the lists of children agree with the parents.
    pub open spec fn is_shaped(&self) -> bool {
        &&& 1 <= self.len() <= usize::MAX
        &&& self.parent(0) is None
        &&& forall|i: int|
            #![trigger self.parent(i)]
            1 <= i < self.len() ==> self.parent(i) is Some && self.parent(i).unwrap() < i
        &&& self.children_match_parents()
    }

    /// Whether the total of the node is its own size plus the totals of its children.
    pub open spec fn is_balanced_at(&self, index: int) -> bool {
        self.total(index) == self.own_size(index) + self.sum_of_totals(self.children(index))
    }

    /// Whether the tree is well formed: it has the shape of a tree, and the total of
    /// every node is its own size plus the totals of its children.
    pub open spec fn wf(&self) -> bool {
        &&& self.is_shaped()
        &&& forall|i: int| 0 <= i < self.len() ==> #[trigger] self.is_balanced_at(i)
    }

    /// A tree without entries.
    pub fn new() -> (tree: Tree)
        ensures
            tree.wf(),
            tree.len() == 1,
            tree.children(0) == Seq::<TreeIndex>::empty(),
            tree.total(0) == 0,
            tree.own_size(0) == 0,
    {
        let root = Node {
            data: EntryData {
                name: String::new(),
                size: 0,
                is_dir: true,
                metadata_io_error: false,
            },
            own_size: 0,
            parent: None,
            children: Vec::new(),
        };
        let mut nodes: Vec<Node> = Vec::new();
        nodes.push(root);
        let tree = Tree { nodes };
        assert(tree.sum_of_totals(tree.children(0)) == 0);
        tree
    }

    /// The number of nodes, the one above the roots included.
    pub fn node_count(&self) -> (count: usize)
        ensures
            count == self.len(),
    {
        self.nodes.len()
    }

    /// What the node holds, or `None` if there is no such node.
    pub fn node_weight(&self, index: TreeIndex) -> (data: Option<&EntryData>)
        ensures
            data is Some <==> index < self.len(),
            data matches Some(d) ==> *d == self.entry(index as int),
    {
        if index < self.nodes.len() {
            Some(&self.nodes[index].data)
        } else {
            None
        }
    }

    /// What the node `index` holds.
    pub fn entry_of(&self, index: TreeIndex) -> (data: &EntryData)
        requires
            index < self.len(),
        ensures
            *data == self.entry(index as int),
    {
        &self.nodes[index].data
    }

    /// The nodes directly below `index`, in the order in which they were found.
    pub fn children_of(&self, index: TreeIndex) -> (children: &Vec<TreeIndex>)
        requires
            index < self.len(),
        ensures
            children@ == self.children(index as int),
    {
        &self.nodes[index].children
    }

    /// The node above `index`, or `None` for node 0.
    pub fn parent_of(&self, index: TreeIndex) -> (parent: Option<TreeIndex>)
        requires
            index < self.len(),
        ensures
            parent == self.parent(index as int),
    {
        self.nodes[index].parent
    }
}

impl Tree {
    /// Whether `other` has the nodes of this tree, each with the same parent,
    /// children, name, kind and own size. The totals may differ.
    pub open spec fn same_shape(&self, other: &Tree) -> bool {
        &&& self.len() == other.len()
        &&& forall|i: int|
            #![trigger self.parent(i)]
            #![trigger self.children(i)]
            #![trigger self.own_size(i)]
            #![trigger self.entry(i)]
            #![trigger other.parent(i)]
            #![trigger other.children(i)]
            #![trigger other.own_size(i)]
            #![trigger other.entry(i)]
            0 <= i < self.len() ==> {
                &&& self.parent(i) == other.parent(i)
                &&& self.children(i) == other.children(i)
                &&& self.own_size(i) == other.own_size(i)
                &&& self.entry(i).name == other.entry(i).name
                &&& self.entry(i).is_dir == other.entry(i).is_dir
                &&& self.entry(i).metadata_io_error == other.entry(i).metadata_io_error
            }
    }

    /// Sums over nodes whose totals agree in two trees agree.
    proof fn lemma_sum_of_same_totals(&self, other: &Tree, nodes: Seq<TreeIndex>)
        requires
            forall|k: int|
                0 <= k < nodes.len() ==> self.total(#[trigger] nodes[k] as int) == other.total(
                    nodes[k] as int,
                ),
        ensures
            self.sum_of_totals(nodes) == other.sum_of_totals(nodes),
        decreases nodes.len(),
    {
        if nodes.len() > 0 {
            self.lemma_sum_of_same_totals(other, nodes.drop_last());
        }
    }

    /// Where the total of one node grows and that node stands once in a list, the sum
    /// over the list grows by as much.
    proof fn lemma_sum_with_one_change(
        &self,
        other: &Tree,
        nodes: Seq<TreeIndex>,
        changed: TreeIndex,
        growth: nat,
    )
        requires
            forall|k: int, l: int|
                0 <= k < l < nodes.len() ==> #[trigger] nodes[k] < #[trigger] nodes[l],
            forall|k: int|
                0 <= k < nodes.len() && nodes[k] != changed ==> self.total(
                    #[trigger] nodes[k] as int,
                ) == other.total(nodes[k] as int),
            other.total(changed as int) == self.total(changed as int) + growth,
            nodes.contains(changed),
        ensures
            other.sum_of_totals(nodes) == self.sum_of_totals(nodes) + growth,
        decreases nodes.len(),
    {
        let front = nodes.drop_last();
        if nodes.last() == changed {
            assert forall|k: int| 0 <= k < front.len() implies self.total(
                #[trigger] front[k] as int,
            ) == other.total(front[k] as int) by {
                assert(nodes[k] < nodes[nodes.len() - 1]);
            }
            self.lemma_sum_of_same_totals(other, front);
        } else {
            let at = nodes.index_of(changed);
            assert(front[at] == changed);
            self.lemma_sum_with_one_change(other, front, changed, growth);
        }
    }

    /// A sum of totals is at least each of the totals.
    proof fn lemma_sum_covers_each(&self, nodes: Seq<TreeIndex>, k: int)
        requires
            0 <= k < nodes.len(),
        ensures
            self.total(nodes[k] as int) <= self.sum_of_totals(nodes),
        decreases nodes.len(),
    {
        if k < nodes.len() - 1 {
            self.lemma_sum_covers_each(nodes.drop_last(), k);
        }
    }

    /// Totals never grow on the way down: the total of a node is at most that of its
    /// parent.
    pub proof fn lemma_total_at_most_parent(&self, index: int)
        requires
            self.wf(),
            1 <= index < self.len(),
        ensures
            self.total(index) <= self.total(self.parent(index).unwrap() as int),
    {
        let p = self.parent(index).unwrap() as int;
        let kids = self.children(p);
        assert(kids.contains(index as usize));
        let k = kids.index_of(index as usize);
        self.lemma_sum_covers_each(kids, k);
        assert(self.is_balanced_at(p));
    }

    /// No total exceeds the total of node 0, which sums up everything.
    pub proof fn lemma_total_at_most_all(&self, index: int)
        requires
            self.wf(),
            0 <= index < self.len(),
        ensures
            self.total(index) <= self.total(0),
        decreases index,
    {
        if index > 0 {
            self.lemma_total_at_most_parent(index);
            self.lemma_total_at_most_all(self.parent(index).unwrap() as int);
        }
    }

    /// Whether `node` lies on the way from `from` up to node 0: it is `from` or one of
    /// the nodes above it.
    pub open spec fn lies_on_path(&self, node: int, from: int) -> bool
        decreases from,
    {
        node == from || (from > 0 && self.parent(from) is Some && self.parent(from).unwrap() < from
            && self.lies_on_path(node, self.parent(from).unwrap() as int))
    }

    /// What lies on the way up from a node does not come after it.
    proof fn lemma_path_goes_down(&self, node: int, from: int)
        requires
            self.lies_on_path(node, from),
        ensures
            node <= from,
        decreases from,
    {
        if node != from {
            self.lemma_path_goes_down(node, self.parent(from).unwrap() as int);
        }
    }

    /// With a node its parent lies on the way up.
    proof fn lemma_path_holds_parent(&self, node: int, from: int)
        requires
            self.lies_on_path(node, from),
            self.parent(node) is Some,
            self.parent(node).unwrap() < node,
            node > 0,
        ensures
            self.lies_on_path(self.parent(node).unwrap() as int, from),
        decreases from,
    {
        let above = self.parent(node).unwrap() as int;
        if node == from {
            assert(self.lies_on_path(above, above));
        } else {
            self.lemma_path_holds_parent(node, self.parent(from).unwrap() as int);
        }
    }

    /// Of two nodes on the way up from a node, the earlier lies on the way up from
    /// the later.
    proof fn lemma_path_is_a_chain(&self, early: int, late: int, from: int)
        requires
            self.lies_on_path(early, from),
            self.lies_on_path(late, from),
            early < late,
        ensures
            self.lies_on_path(early, late),
        decreases from,
    {
        if late != from {
            let above = self.parent(from).unwrap() as int;
            self.lemma_path_goes_down(late, above);
            self.lemma_path_is_a_chain(early, late, above);
        }
    }

    /// Node 0 lies on the way up from every node.
    proof fn lemma_path_ends_at_root(&self, from: int)
        requires
            self.is_shaped(),
            0 <= from < self.len(),
        ensures
            self.lies_on_path(0, from),
        decreases from,
    {
        if from > 0 {
            assert(self.parent(from) is Some);
            self.lemma_path_ends_at_root(self.parent(from).unwrap() as int);
        }
    }

    /// Where the totals of the nodes on the way up that come after `cur` have grown,
    /// and then the total of `cur` grows, the same holds for the parent of `cur`.
    proof fn lemma_growth_moves_up(&self, earlier: &Tree, before: &Tree, start: int, cur: int, size: u64)
        requires
            before.is_shaped(),
            0 <= cur < before.len(),
            0 <= start < before.len(),
            before.lies_on_path(cur, start),
            self.len() == earlier.len(),
            earlier.len() >= before.len(),
            forall|j: int|
                0 <= j < before.len() ==> #[trigger] earlier.total(j) == before.total(j) + if j
                    > cur && before.lies_on_path(j, start) {
                    size as int
                } else {
                    0
                },
            forall|j: int|
                0 <= j < before.len() && j != cur ==> #[trigger] self.total(j) == earlier.total(j),
            self.total(cur) == earlier.total(cur) + size,
        ensures
            before.parent(cur) matches Some(p) ==> before.lies_on_path(p as int, start) && forall|
                j: int,
            |
                0 <= j < before.len() ==> #[trigger] self.total(j) == before.total(j) + if j > p
                    && before.lies_on_path(j, start) {
                    size as int
                } else {
                    0
                },
            before.parent(cur) is None ==> forall|j: int|
                0 <= j < before.len() ==> #[trigger] self.total(j) == before.total(j)
                    + if before.lies_on_path(j, start) {
                    size as int
                } else {
                    0
                },
    {
        if cur >= 1 {
            assert(before.parent(cur) is Some);
            let p = before.parent(cur).unwrap() as int;
            before.lemma_path_holds_parent(cur, start);
            assert forall|j: int| 0 <= j < before.len() implies #[trigger] self.total(j)
                == before.total(j) + if j > p && before.lies_on_path(j, start) {
                size as int
            } else {
                0
            } by {
                if p < j < cur && before.lies_on_path(j, start) {
                    before.lemma_path_is_a_chain(j, cur, start);
                    before.lemma_path_goes_down(j, p);
                }
            }
        } else {
            assert forall|j: int| 0 <= j < before.len() implies #[trigger] self.total(j)
                == before.total(j) + if before.lies_on_path(j, start) {
                size as int
            } else {
                0
            } by {
                if j == 0 {
                    before.lemma_path_ends_at_root(start);
                }
            }
        }
    }

    /// Whether this tree is `before` with one more node, `index`, hung below `parent`
    /// and holding `size` bytes, and nothing else changed.
    spec fn is_grown_from(&self, before: &Tree, parent: TreeIndex, index: TreeIndex, size: u64) -> bool {
        &&& parent < before.len()
        &&& index == before.len()
        &&& self.len() == before.len() + 1
        &&& self.parent(index as int) == Some(parent)
        &&& self.children(index as int) == Seq::<TreeIndex>::empty()
        &&& self.own_size(index as int) == size
        &&& self.total(index as int) == size
        &&& self.children(parent as int) == before.children(parent as int).push(index)
        &&& forall|i: int|
            #![trigger self.parent(i)]
            #![trigger self.children(i)]
            #![trigger self.own_size(i)]
            #![trigger self.entry(i)]
            0 <= i < before.len() ==> {
                &&& self.parent(i) == before.parent(i)
                &&& self.own_size(i) == before.own_size(i)
                &&& self.entry(i) == before.entry(i)
                &&& i != parent ==> self.children(i) == before.children(i)
            }
    }

    /// A tree grown by one node has the shape of a tree, and is balanced everywhere
    /// but at the parent of the new node, which lacks the size of the new node.
    proof fn lemma_grown_lacks_at_parent(
        &self,
        before: &Tree,
        parent: TreeIndex,
        index: TreeIndex,
        size: u64,
    )
        requires
            before.wf(),
            self.is_grown_from(before, parent, index, size),
            self.len() <= usize::MAX,
        ensures
            self.is_shaped(),
            forall|i: int| 0 <= i < self.len() && i != parent ==> #[trigger] self.is_balanced_at(i),
            self.total(parent as int) + size == self.own_size(parent as int) + self.sum_of_totals(
                self.children(parent as int),
            ),
    {
        assert(self.sum_of_totals(self.children(index as int)) == 0);
        assert forall|i: int| 0 <= i < before.len() implies self.sum_of_totals(
            #[trigger] before.children(i),
        ) == before.sum_of_totals(before.children(i)) by {
            assert forall|k: int| 0 <= k < before.children(i).len() implies before.total(
                #[trigger] before.children(i)[k] as int,
            ) == self.total(before.children(i)[k] as int) by {
                assert(before.children(i)[k] < before.len());
            }
            before.lemma_sum_of_same_totals(self, before.children(i));
        }
        assert forall|i: int| 0 <= i < self.len() && i != parent implies #[trigger] self.is_balanced_at(
            i,
        ) by {
            if i < before.len() {
                assert(before.is_balanced_at(i));
                assert(self.children(i) == before.children(i));
            }
        }
        assert(before.is_balanced_at(parent as int));
        assert(self.children(parent as int).drop_last() =~= before.children(parent as int));
        assert forall|i: int, k: int|
            0 <= i < self.len() && 0 <= k < self.children(i).len() implies {
            &&& i < #[trigger] self.children(i)[k] < self.len()
            &&& self.parent(self.children(i)[k] as int) == Some(i as usize)
        } by {
            if i == parent && k == before.children(i).len() {
            } else {
                assert(self.children(i)[k] == before.children(i)[k]);
            }
        }
        assert forall|i: int, k: int, l: int|
            0 <= i < self.len() && 0 <= k < l < self.children(i).len() implies #[trigger] self.children(
            i,
        )[k] < #[trigger] self.children(i)[l] by {
            assert(self.children(i)[k] == before.children(i)[k]);
            if i == parent && l == before.children(i).len() {
            } else {
                assert(self.children(i)[l] == before.children(i)[l]);
            }
        }
        assert forall|c: int| 1 <= c < self.len() implies self.children(
            #[trigger] self.parent(c).unwrap() as int,
        ).contains(c as usize) by {
            if c < before.len() {
                let p = before.parent(c).unwrap() as int;
                assert(before.children(p).contains(c as usize));
                let k = before.children(p).index_of(c as usize);
                assert(self.children(p)[k] == c as usize);
            } else {
                assert(self.children(parent as int)[before.children(parent as int).len() as int]
                    == index);
            }
        }
    }

    /// One step of carrying a size up the tree. Where a tree is balanced everywhere but
    /// at `cur`, which lacks `size`, adding `size` to the total of `cur` balances
    /// `cur` and moves the lack to its parent; at node 0 it balances the tree.
    proof fn lemma_lack_moves_up(&self, earlier: &Tree, cur: TreeIndex, size: u64)
        requires
            earlier.is_shaped(),
            earlier.same_shape(self),
            cur < earlier.len(),
            forall|i: int| 0 <= i < earlier.len() && i != cur ==> #[trigger] earlier.is_balanced_at(i),
            earlier.total(cur as int) + size == earlier.own_size(cur as int)
                + earlier.sum_of_totals(earlier.children(cur as int)),
            forall|i: int|
                0 <= i < earlier.len() && i != cur ==> #[trigger] self.total(i) == earlier.total(i),
            self.total(cur as int) == earlier.total(cur as int) + size,
        ensures
            self.is_shaped(),
            earlier.parent(cur as int) is None ==> cur == 0 && self.wf(),
            earlier.parent(cur as int) matches Some(p) ==> {
                &&& p < cur
                &&& forall|i: int| 0 <= i < self.len() && i != p ==> #[trigger] self.is_balanced_at(i)
                &&& self.total(p as int) + size == self.own_size(p as int) + self.sum_of_totals(
                    self.children(p as int),
                )
            },
    {
        assert(self.is_shaped()) by {
            assert forall|i: int| 1 <= i < self.len() implies (#[trigger] self.parent(i)) is Some
                && self.parent(i).unwrap() < i by {
                assert(earlier.parent(i) is Some);
            }
            assert forall|i: int, k: int|
                0 <= i < self.len() && 0 <= k < self.children(i).len() implies {
                &&& i < #[trigger] self.children(i)[k] < self.len()
                &&& self.parent(self.children(i)[k] as int) == Some(i as usize)
            } by {
                assert(self.children(i)[k] == earlier.children(i)[k]);
            }
            assert forall|i: int, k: int, l: int|
                0 <= i < self.len() && 0 <= k < l < self.children(i).len() implies #[trigger] self.children(
                i,
            )[k] < #[trigger] self.children(i)[l] by {
                assert(self.children(i)[k] == earlier.children(i)[k]);
                assert(self.children(i)[l] == earlier.children(i)[l]);
            }
            assert forall|c: int| 1 <= c < self.len() implies self.children(
                #[trigger] self.parent(c).unwrap() as int,
            ).contains(c as usize) by {
                assert(earlier.children(earlier.parent(c).unwrap() as int).contains(c as usize));
            }
        }
        let above = earlier.parent(cur as int);
        if cur >= 1 {
            assert(earlier.parent(cur as int) is Some);
        }
        assert forall|i: int| 0 <= i < self.len() && Some(i as usize) != above implies self.sum_of_totals(
            #[trigger] self.children(i),
        ) == earlier.sum_of_totals(earlier.children(i)) by {
            assert forall|k: int| 0 <= k < self.children(i).len() implies earlier.total(
                #[trigger] self.children(i)[k] as int,
            ) == self.total(self.children(i)[k] as int) by {
                assert(earlier.children(i)[k] == self.children(i)[k]);
                assert(earlier.parent(earlier.children(i)[k] as int) == Some(i as usize));
            }
            earlier.lemma_sum_of_same_totals(self, self.children(i));
        }
        assert forall|i: int| 0 <= i < self.len() && Some(i as usize) != above implies #[trigger] self.is_balanced_at(
            i,
        ) by {
            assert(self.children(i) == earlier.children(i));
            if i != cur {
                assert(earlier.is_balanced_at(i));
            }
        }
        if let Some(p) = above {
            assert(earlier.children(p as int).contains(cur));
            assert(self.children(p as int) == earlier.children(p as int));
            assert(earlier.is_balanced_at(p as int));
            assert forall|k: int|
                0 <= k < self.children(p as int).len() && self.children(p as int)[k]
                    != cur implies earlier.total(#[trigger] self.children(p as int)[k] as int)
                == self.total(self.children(p as int)[k] as int) by {
            }
            earlier.lemma_sum_with_one_change(self, self.children(p as int), cur, size as nat);
        }
    }

    /// Adds an entry of `size` bytes below `parent` and adds its size to the totals of
    /// all nodes above it. Returns the handle of the new node, or `None`, with the
    /// tree unchanged, if there is no node `parent` or the total of all entries would
    /// exceed 64 bits.
    pub fn add_child(
        &mut self,
        parent: TreeIndex,
        name: String,
        is_dir: bool,
        size: u64,
        metadata_io_error: bool,
    ) -> (index: Option<TreeIndex>)
        requires
            old(self).wf(),
        ensures
            final(self).wf(),
            index is None <==> parent >= old(self).len() || old(self).total(0) + size > u64::MAX,
            index is None ==> *final(self) == *old(self),
            index matches Some(i) ==> {
                &&& i == old(self).len()
                &&& final(self).len() == old(self).len() + 1
                &&& final(self).entry(i as int).name == name
                &&& final(self).entry(i as int).is_dir == is_dir
                &&& final(self).entry(i as int).metadata_io_error == metadata_io_error
                &&& final(self).own_size(i as int) == size
                &&& final(self).total(i as int) == size
                &&& final(self).parent(i as int) == Some(parent)
                &&& final(self).children(i as int) == Seq::<TreeIndex>::empty()
                &&& final(self).children(parent as int) == old(self).children(parent as int).push(i)
                &&& final(self).total(0) == old(self).total(0) + size
                &&& forall|j: int|
                    0 <= j < old(self).len() ==> #[trigger] final(self).total(j) == old(self).total(
                        j,
                    ) + if old(self).lies_on_path(j, parent as int) {
                        size as int
                    } else {
                        0
                    }
                &&& forall|j: int|
                    #![trigger final(self).parent(j)]
                    #![trigger final(self).own_size(j)]
                    #![trigger final(self).entry(j)]
                    #![trigger final(self).children(j)]
                    0 <= j < old(self).len() ==> {
                        &&& final(self).parent(j) == old(self).parent(j)
                        &&& final(self).own_size(j) == old(self).own_size(j)
                        &&& final(self).entry(j).name == old(self).entry(j).name
                        &&& final(self).entry(j).is_dir == old(self).entry(j).is_dir
                        &&& final(self).entry(j).metadata_io_error == old(self).entry(
                            j,
                        ).metadata_io_error
                        &&& j != parent ==> final(self).children(j) == old(self).children(j)
                    }
            },
    {
        if parent >= self.nodes.len() {
            return None;
        }
        if size > u64::MAX - self.nodes[0].data.size {
            return None;
        }
        let ghost before = *self;
        let index = self.nodes.len();
        self.nodes.push(
            Node {
                data: EntryData { name, size, is_dir, metadata_io_error },
                own_size: size,
                parent: Some(parent),
                children: Vec::new(),
            },
        );
        self.nodes[parent].children.push(index);
        let ghost grown = *self;
        let count = self.nodes.len();
        proof {
            assert(grown.len() == count);
            assert(grown.is_grown_from(&before, parent, index, size));
            grown.lemma_grown_lacks_at_parent(&before, parent, index, size);
            assert forall|i: int| 0 <= i < before.len() implies #[trigger] before.total(i) + size
                <= u64::MAX by {
                before.lemma_total_at_most_all(i);
            }
        }
        proof {
            assert(before.lies_on_path(parent as int, parent as int));
            assert forall|j: int| 0 <= j < before.len() implies #[trigger] grown.total(j)
                == before.total(j) + if j > parent && before.lies_on_path(j, parent as int) {
                size as int
            } else {
                0
            } by {
                if before.lies_on_path(j, parent as int) {
                    before.lemma_path_goes_down(j, parent as int);
                }
            }
        }
        let mut cur = parent;
        let mut climbing = true;
        while climbing
            invariant
                cur < before.len(),
                self.len() == before.len() + 1,
                self.is_shaped(),
                self.same_shape(&grown),
                forall|i: int| 0 <= i < before.len() ==> #[trigger] before.total(i) + size <= u64::MAX,
                before.is_shaped(),
                parent < before.len(),
                forall|i: int| 0 <= i < before.len() ==> #[trigger] grown.parent(i) == before.parent(i),
                climbing ==> before.lies_on_path(cur as int, parent as int),
                climbing ==> forall|j: int|
                    0 <= j < before.len() ==> #[trigger] self.total(j) == before.total(j) + if j
                        > cur && before.lies_on_path(j, parent as int) {
                        size as int
                    } else {
                        0
                    },
                !climbing ==> forall|j: int|
                    0 <= j < before.len() ==> #[trigger] self.total(j) == before.total(j)
                        + if before.lies_on_path(j, parent as int) {
                        size as int
                    } else {
                        0
                    },
                forall|i: int| 0 <= i < self.len() ==> self.entry(i).name == (#[trigger] grown.entry(i)).name,
                self.total(index as int) == size,
                index == before.len(),
                climbing ==> forall|i: int|
                    0 <= i < self.len() && i != cur ==> #[trigger] self.is_balanced_at(i),
                climbing ==> self.total(cur as int) + size == self.own_size(cur as int)
                    + self.sum_of_totals(self.children(cur as int)),
                !climbing ==> self.wf(),
                !climbing ==> self.total(0) == before.total(0) + size,
            decreases cur + if climbing { 1int } else { 0int },
        {
            let ghost earlier = *self;
            let total = self.nodes[cur].data.size;
            self.nodes[cur].data.size = total + size;
            let above = self.nodes[cur].parent;
            proof {
                let now = *self;
                assert(earlier.same_shape(&now));
                assert(forall|i: int|
                    0 <= i < earlier.len() && i != cur ==> #[trigger] now.total(i) == earlier.total(i));
                now.lemma_lack_moves_up(&earlier, cur, size);
                assert(grown.parent(cur as int) == before.parent(cur as int));
                assert(before.parent(cur as int) == earlier.parent(cur as int));
                now.lemma_growth_moves_up(&earlier, &before, parent as int, cur as int, size);
            }
            match above {
                Some(p) => {
                    cur = p;
                },
                None => {
                    climbing = false;
                },
            }
        }
        Some(index)
    }
}

impl Tree {
    /// The path of a node: the names from its root down to it, with a `/` between
    /// them. Node 0 has the empty path.
    pub open spec fn path_of(&self, index: int) -> Seq<char>
        decreases index,
    {
        match self.parent(index) {
            None => Seq::empty(),
            Some(p) => if 0 < p < index {
                self.path_of(p as int) + seq!['/'] + self.entry(index).name@
            } else {
                self.entry(index).name@
            },
        }
    }
}

fn push_path(tree: &Tree, index: TreeIndex, out: &mut String)
    requires
        tree.wf(),
        index < tree.len(),
    ensures
        final(out)@ == old(out)@ + tree.path_of(index as int),
    decreases index,
{
    match tree.nodes[index].parent {
        None => {
            assert(out@ =~= old(out)@ + tree.path_of(index as int));
        },
        Some(p) => {
            if index >= 1 {
                assert(tree.parent(index as int).unwrap() < index);
            }
            if 0 < p && p < index {
                push_path(tree, p, out);
                push_char(out, '/');
            }
            out.append(tree.nodes[index].data.name.as_str());
            assert(out@ =~= old(out)@ + tree.path_of(index as int));
        },
    }
}

/// The path of the node `index`: the names from its root down to it.
pub fn path_of(tree: &Tree, index: TreeIndex) -> (path: String)
    requires
        tree.wf(),
        index < tree.len(),
    ensures
        path@ == tree.path_of(index as int),
{
    let mut path = String::new();
    push_path(tree, index, &mut path);
    path
}

/// The total of every node is the size of its own entry plus the totals of its
/// children.
pub proof fn lemma_total_is_own_size_plus_children(tree: &Tree, index: int)
    requires
        tree.wf(),
        0 <= index < tree.len(),
    ensures
        tree.total(index) == tree.own_size(index) + tree.sum_of_totals(tree.children(index)),
{
    assert(tree.is_balanced_at(index));
}

/// An entry of a walk as it is placed in the tree.
pub struct WalkedNode {
    /// The name of the node: the path of the root for a root, else the file name.
    pub name: Seq<char>,
    /// How far below its root the node lies. An entry lies at most one level below
    /// the entry before it.
    pub depth: nat,
    /// Whether the entry is a directory.
    pub is_dir: bool,
    /// The bytes of the entry itself.
    pub size: nat,
    /// Whether the entry could not be read or measured.
    pub io_error: bool,
}

/// The nodes that the items of one root make, in the order of the walk. Items that
/// could not be read make no node.
pub open spec fn nodes_of_items(
    options: WalkOptions,
    tally: Tally,
    path: Seq<char>,
    items: Seq<WalkItem>,
) -> Seq<WalkedNode>
    decreases items.len(),
{
    if items.len() == 0 {
        Seq::empty()
    } else {
        let before = nodes_of_items(options, tally, path, items.drop_last());
        match items.last() {
            WalkItem::Failed => before,
            WalkItem::Found(entry) => {
                let seen = walked(options, tally, items.drop_last()).seen;
                let depth = if before.len() == 0 {
                    0nat
                } else if entry.depth <= before.last().depth {
                    entry.depth as nat
                } else {
                    before.last().depth + 1
                };
                before.push(
                    WalkedNode {
                        name: if depth == 0 {
                            path
                        } else {
                            entry.name@
                        },
                        depth,
                        is_dir: entry.metadata matches Some(m) && m.is_dir,
                        size: size_of(options, seen, items.last()),
                        io_error: is_error(options, seen, items.last()),
                    },
                )
            },
        }
    }
}

/// The nodes that walking `roots` makes, in the order of the walk.
pub open spec fn nodes_of_roots(options: WalkOptions, roots: Seq<RootWalk>) -> Seq<WalkedNode>
    decreases roots.len(),
{
    if roots.len() == 0 {
        Seq::empty()
    } else {
        nodes_of_roots(options, roots.drop_last()) + nodes_of_items(
            options,
            summarized(options, roots.drop_last()).tally.next_root(),
            roots.last().path@,
            roots.last().items@,
        )
    }
}

/// The handle of the last node before position `end` that lies at `depth`, or 0 if
/// there is none. The node at position `i` has the handle `i + 1`.
pub open spec fn latest_at_depth(nodes: Seq<WalkedNode>, end: int, depth: int) -> int
    decreases end,
{
    if end <= 0 {
        0
    } else if nodes[end - 1].depth == depth {
        end
    } else {
        latest_at_depth(nodes, end - 1, depth)
    }
}

/// The handle of the parent of the node at position `i`: node 0 for a root, else the
/// last node before it that lies one level higher.
pub open spec fn parent_of_walked(nodes: Seq<WalkedNode>, i: int) -> int {
    if nodes[i].depth == 0 {
        0
    } else {
        latest_at_depth(nodes, i, nodes[i].depth - 1)
    }
}

/// The last node at a depth before `end` does not depend on the nodes from `end` on.
proof fn lemma_latest_ignores_later(a: Seq<WalkedNode>, b: Seq<WalkedNode>, end: int, depth: int)
    requires
        end <= a.len(),
        end <= b.len(),
        forall|i: int| 0 <= i < end ==> a[i] == b[i],
    ensures
        latest_at_depth(a, end, depth) == latest_at_depth(b, end, depth),
        0 <= latest_at_depth(a, end, depth) <= if end > 0 { end } else { 0 },
    decreases end,
{
    if end > 0 {
        lemma_latest_ignores_later(a, b, end - 1, depth);
    }
}

/// Whether the nodes of `tree` are `nodes`, in their order, each below its parent.
pub open spec fn holds_nodes(tree: &Tree, nodes: Seq<WalkedNode>) -> bool {
    &&& tree.len() == nodes.len() + 1
    &&& forall|i: int|
        #![trigger nodes[i]]
        0 <= i < nodes.len() ==> {
            &&& tree.entry(i + 1).name@ == nodes[i].name
            &&& tree.entry(i + 1).is_dir == nodes[i].is_dir
            &&& tree.entry(i + 1).metadata_io_error == nodes[i].io_error
            &&& tree.own_size(i + 1) == nodes[i].size
            &&& tree.parent(i + 1) == Some(parent_of_walked(nodes, i) as usize)
        }
}

/// A tree that holds some nodes holds one more once that node was added below the
/// parent that its depth gives it.
proof fn lemma_holds_one_more(before: &Tree, after: &Tree, nodes: Seq<WalkedNode>, node: WalkedNode, name: String)
    requires
        holds_nodes(before, nodes),
        after.len() == before.len() + 1,
        before.len() < usize::MAX,
        name@ == node.name,
        after.entry(before.len() as int).name == name,
        after.entry(before.len() as int).is_dir == node.is_dir,
        after.entry(before.len() as int).metadata_io_error == node.io_error,
        after.own_size(before.len() as int) == node.size,
        after.parent(before.len() as int) == Some(
            parent_of_walked(nodes.push(node), nodes.len() as int) as usize,
        ),
        forall|j: int|
            #![trigger after.parent(j)]
            #![trigger after.own_size(j)]
            #![trigger after.entry(j)]
            0 <= j < before.len() ==> {
                &&& after.parent(j) == before.parent(j)
                &&& after.own_size(j) == before.own_size(j)
                &&& after.entry(j).name == before.entry(j).name
                &&& after.entry(j).is_dir == before.entry(j).is_dir
                &&& after.entry(j).metadata_io_error == before.entry(j).metadata_io_error
            },
    ensures
        holds_nodes(after, nodes.push(node)),
{
    let more = nodes.push(node);
    assert forall|i: int| 0 <= i < more.len() implies {
        &&& after.entry(i + 1).name@ == (#[trigger] more[i]).name
        &&& after.entry(i + 1).is_dir == more[i].is_dir
        &&& after.entry(i + 1).metadata_io_error == more[i].io_error
        &&& after.own_size(i + 1) == more[i].size
        &&& after.parent(i + 1) == Some(parent_of_walked(more, i) as usize)
    } by {
        if i < nodes.len() {
            assert(more[i] == nodes[i]);
            assert(after.parent(i + 1) == before.parent(i + 1));
            assert(after.own_size(i + 1) == before.own_size(i + 1));
            assert(after.entry(i + 1).name == before.entry(i + 1).name);
            lemma_latest_ignores_later(more, nodes, i, nodes[i].depth - 1);
        }
    }
}

/// Whether `ancestors` holds, for each depth up to that of the last node, the handle
/// of the last node at that depth.
spec fn tracks_ancestors(ancestors: Seq<TreeIndex>, nodes: Seq<WalkedNode>, tree: &Tree) -> bool {
    forall|d: int|
        0 <= d < ancestors.len() ==> #[trigger] ancestors[d] == latest_at_depth(
            nodes,
            nodes.len() as int,
            d,
        ) && 1 <= ancestors[d] < tree.len()
}

/// The node that an entry makes when `open` directories lie above it.
spec fn node_of_entry(path: Seq<char>, entry: Entry, open: nat, size: u64, failed: bool) -> WalkedNode {
    let depth = if entry.depth < open {
        entry.depth as nat
    } else {
        open
    };
    WalkedNode {
        name: if depth == 0 {
            path
        } else {
            entry.name@
        },
        depth,
        is_dir: entry.metadata matches Some(m) && m.is_dir,
        size: size as nat,
        io_error: failed,
    }
}

/// Hangs the node of `entry` into the tree, below the node that `ancestors` holds for
/// the level above it, and says whether the total still fits.
fn hang(
    tree: &mut Tree,
    ancestors: &mut Vec<TreeIndex>,
    path: &String,
    entry: &Entry,
    size: u64,
    failed: bool,
    Ghost(known): Ghost<Seq<WalkedNode>>,
) -> (fits: bool)
    requires
        old(tree).wf(),
        holds_nodes(old(tree), known),
        tracks_ancestors(old(ancestors)@, known, old(tree)),
    ensures
        final(tree).wf(),
        fits <==> old(tree).total(0) + size <= u64::MAX,
        fits ==> {
            let node = node_of_entry(path@, *entry, old(ancestors)@.len(), size, failed);
            &&& holds_nodes(final(tree), known.push(node))
            &&& final(tree).total(0) == old(tree).total(0) + size
            &&& final(ancestors)@.len() == node.depth + 1
            &&& tracks_ancestors(final(ancestors)@, known.push(node), final(tree))
        },
{
    let depth = if entry.depth < ancestors.len() {
        entry.depth
    } else {
        ancestors.len()
    };
    let parent = if depth == 0 {
        0
    } else {
        ancestors[depth - 1]
    };
    let name = if depth == 0 {
        path.clone()
    } else {
        entry.name.clone()
    };
    let is_dir = match &entry.metadata {
        Some(m) => m.is_dir,
        None => false,
    };
    let ghost node = node_of_entry(path@, *entry, ancestors@.len(), size, failed);
    let ghost more = known.push(node);
    let ghost old_tree = *tree;
    let ghost old_ancestors = ancestors@;
    let ghost label = name;
    proof {
        if depth > 0 {
            lemma_latest_ignores_later(more, known, known.len() as int, depth - 1);
            assert(parent == old_ancestors[depth - 1]);
        }
        assert(parent_of_walked(more, known.len() as int) == parent);
    }
    match tree.add_child(parent, name, is_dir, size, failed) {
        Some(index) => {
            proof {
                assert(old_tree.len() < usize::MAX);
                lemma_holds_one_more(&old_tree, tree, known, node, label);
            }
            ancestors.truncate(depth);
            ancestors.push(index);
            proof {
                lemma_ancestors_are_tracked(old_ancestors, ancestors@, known, node, &old_tree, tree);
            }
            true
        },
        None => false,
    }
}

/// The ancestors stay tracked when a node is hung below them and takes its place
/// among them.
proof fn lemma_ancestors_are_tracked(
    before: Seq<TreeIndex>,
    after: Seq<TreeIndex>,
    known: Seq<WalkedNode>,
    node: WalkedNode,
    old_tree: &Tree,
    tree: &Tree,
)
    requires
        tracks_ancestors(before, known, old_tree),
        node.depth <= before.len(),
        after == before.take(node.depth as int).push((known.len() + 1) as usize),
        holds_nodes(old_tree, known),
        tree.len() == old_tree.len() + 1,
        tree.len() <= usize::MAX,
    ensures
        tracks_ancestors(after, known.push(node), tree),
{
    let more = known.push(node);
    assert forall|d: int| 0 <= d < after.len() implies #[trigger] after[d] == latest_at_depth(
        more,
        more.len() as int,
        d,
    ) && 1 <= after[d] < tree.len() by {
        if d < node.depth {
            assert(after[d] == before[d]);
            lemma_latest_ignores_later(more, known, known.len() as int, d);
            assert(more[known.len() as int].depth != d);
        } else {
            assert(more[known.len() as int].depth == d);
        }
    }
}

/// What walking the roots yielded, as a tree.
pub struct Traversal {
    /// The tree of all entries.
    pub tree: Tree,
    /// The number of entries that could not be read or measured.
    pub io_errors: u64,
    /// The number of entries traversed.
    pub entries_traversed: u64,
}

impl Traversal {
    /// Builds the tree of everything that walking `roots` yielded. Each entry hangs
    /// below the last entry before it that lies one level higher, and each root below
    /// node 0. Sizes are counted as in an aggregation, so the total of node 0 is the
    /// total of all roots. Returns `None` if a count exceeds 64 bits.
    pub fn from_walk(options: &WalkOptions, roots: &Vec<RootWalk>) -> (res: Option<Traversal>)
        ensures
            res is Some <==> summarized(*options, roots@).fits(),
            res matches Some(traversal) ==> {
                let summary = summarized(*options, roots@);
                &&& traversal.tree.wf()
                &&& holds_nodes(&traversal.tree, nodes_of_roots(*options, roots@))
                &&& traversal.tree.total(0) == summary.total_bytes
                &&& traversal.io_errors == summary.total_errors
                &&& traversal.entries_traversed == summary.tally.entries
            },
    {
        let mut tree = Tree::new();
        let mut filter = InodeFilter::new();
        let mut io_errors: u64 = 0;
        let mut entries: u64 = 0;
        let mut over = false;
        let mut r: usize = 0;
        while r < roots.len()
            invariant
                r <= roots.len(),
                tree.wf(),
                filter@ == summarized(*options, roots@.take(r as int)).tally.seen,
                over <==> !summarized(*options, roots@.take(r as int)).fits(),
                !over ==> {
                    let s = summarized(*options, roots@.take(r as int));
                    &&& holds_nodes(&tree, nodes_of_roots(*options, roots@.take(r as int)))
                    &&& tree.total(0) == s.total_bytes
                    &&& io_errors == s.total_errors
                    &&& entries == s.tally.entries
                },
            decreases roots.len() - r,
        {
            let root = &roots[r];
            let ghost before = summarized(*options, roots@.take(r as int));
            let ghost start = before.tally.next_root();
            let ghost earlier = nodes_of_roots(*options, roots@.take(r as int));
            let ghost over_before = over;
            let mut ancestors: Vec<TreeIndex> = Vec::new();
            let mut k: usize = 0;
            while k < root.items.len()
                invariant
                    k <= root.items.len(),
                    tree.wf(),
                    filter@ == walked(*options, start, root.items@.take(k as int)).seen,
                    walked(*options, start, root.items@.take(k as int)).entries >= start.entries,
                    start.entries == before.tally.entries,
                    start.num_bytes == 0,
                    start.num_errors == 0,
                    over_before <==> !before.fits(),
                    over <==> over_before || {
                        let t = walked(*options, start, root.items@.take(k as int));
                        before.total_bytes + t.num_bytes > u64::MAX || before.total_errors
                            + t.num_errors > u64::MAX || t.entries > u64::MAX
                    },
                    !over ==> {
                        let t = walked(*options, start, root.items@.take(k as int));
                        let made = nodes_of_items(
                            *options,
                            start,
                            root.path@,
                            root.items@.take(k as int),
                        );
                        &&& holds_nodes(&tree, earlier + made)
                        &&& tree.total(0) == before.total_bytes + t.num_bytes
                        &&& io_errors == before.total_errors + t.num_errors
                        &&& entries == t.entries
                        &&& ancestors.len() == if made.len() == 0 {
                            0
                        } else {
                            made.last().depth + 1
                        }
                        &&& tracks_ancestors(ancestors@, earlier + made, &tree)
                    },
                decreases root.items.len() - k,
            {
                proof {
                    assert(root.items@.take(k + 1).drop_last() =~= root.items@.take(k as int));
                }
                let item = &root.items[k];
                let ghost made = nodes_of_items(
                    *options,
                    start,
                    root.path@,
                    root.items@.take(k as int),
                );
                let ghost known = earlier + made;
                let (size, failed) = measure(options, &mut filter, item);
                match entries.checked_add(1) {
                    Some(n) => {
                        entries = n;
                    },
                    None => {
                        over = true;
                    },
                }
                if failed {
                    match io_errors.checked_add(1) {
                        Some(n) => {
                            io_errors = n;
                        },
                        None => {
                            over = true;
                        },
                    }
                }
                match item {
                    WalkItem::Failed => {},
                    WalkItem::Found(entry) => {
                        if !over {
                            let fits = hang(
                                &mut tree,
                                &mut ancestors,
                                &root.path,
                                entry,
                                size,
                                failed,
                                Ghost(known),
                            );
                            proof {
                                let node = node_of_entry(
                                    root.path@,
                                    *entry,
                                    if made.len() == 0 {
                                        0
                                    } else {
                                        made.last().depth + 1
                                    },
                                    size,
                                    failed,
                                );
                                assert(earlier + made.push(node) =~= known.push(node));
                            }
                            if !fits {
                                over = true;
                            }
                        }
                    },
                }
                k += 1;
            }
            proof {
                assert(root.items@.take(k as int) =~= root.items@);
                assert(roots@.take(r + 1).drop_last() =~= roots@.take(r as int));
            }
            r += 1;
        }
        proof {
            assert(roots@.take(r as int) =~= roots@);
        }
        if over {
            None
        } else {
            Some(Traversal { tree, io_errors, entries_traversed: entries })
        }
    }
}

/// The totals of a tree follow from its shape and the sizes of its entries: two
/// well-formed trees that agree in those agree in the total of every node.
pub proof fn lemma_totals_are_determined(a: &Tree, b: &Tree, index: int)
    requires
        a.wf(),
        b.wf(),
        a.same_shape(b),
        0 <= index < a.len(),
    ensures
        a.total(index) == b.total(index),
    decreases a.len() - index,
{
    let nodes = a.children(index);
    assert(b.children(index) == nodes);
    assert forall|k: int| 0 <= k < nodes.len() implies a.total(#[trigger] nodes[k] as int)
        == b.total(nodes[k] as int) by {
        assert(index < a.children(index)[k] < a.len());
        lemma_totals_are_determined(a, b, nodes[k] as int);
    }
    a.lemma_sum_of_same_totals(b, nodes);
    assert(a.is_balanced_at(index));
    assert(b.is_balanced_at(index));
    assert(a.own_size(index) == b.own_size(index));
}

} // verus!
