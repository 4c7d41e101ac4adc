//! Stable sorting by a key, as an order of positions.

use vstd::prelude::*;
use vstd::string::*;
use vstd::utf8::encode_utf8;

verus! {

/// A key that items are sorted by.
pub trait SortKey {
    /// Whether an item with this key may stand before one with the key `other`.
    /// Keys that precede each other are equal for the purpose of sorting.
    spec fn precedes(&self, other: &Self) -> bool;

    /// Any two keys are comparable.
    proof fn precedes_is_total(a: &Self, b: &Self)
        ensures
            a.precedes(b) || b.precedes(a),
    ;

    /// What stands before a key also stands before everything after that key.
    proof fn precedes_is_transitive(a: &Self, b: &Self, c: &Self)
        requires
            a.precedes(b),
            b.precedes(c),
        ensures
            a.precedes(c),
    ;

    /// Decides [`SortKey::precedes`].
    fn comes_first(&self, other: &Self) -> (first: bool)
        ensures
            first == self.precedes(other),
    ;
}

impl SortKey for u64 {
    open spec fn precedes(&self, other: &Self) -> bool {
        *self <= *other
    }

    proof fn precedes_is_total(a: &Self, b: &Self) {
    }

    proof fn precedes_is_transitive(a: &Self, b: &Self, c: &Self) {
    }

    fn comes_first(&self, other: &Self) -> (first: bool) {
        *self <= *other
    }
}

/// Whether `order` lists the positions `0..count` of `keys`, each once, so that the
/// keys ascend and positions with equal keys keep the order they had.
pub open spec fn is_stable_order_of<K: SortKey>(order: Seq<usize>, keys: Seq<K>, count: int) -> bool {
    &&& order.len() == count
    &&& forall|i: int| 0 <= i < order.len() ==> 0 <= #[trigger] order[i] < count
    &&& forall|i: int, j: int|
        #![trigger order[i], order[j]]
        0 <= i < j < order.len() ==> {
            &&& order[i] != order[j]
            &&& keys[order[i] as int].precedes(&keys[order[j] as int])
            &&& keys[order[j] as int].precedes(&keys[order[i] as int]) ==> order[i] < order[j]
        }
}

/// Whether `order` is the stable ascending order of all of `keys`.
pub open spec fn is_stable_order<K: SortKey>(order: Seq<usize>, keys: Seq<K>) -> bool {
    is_stable_order_of(order, keys, keys.len() as int)
}

/// The items of `items` in the given order of positions.
pub open spec fn arranged<T>(items: Seq<T>, order: Seq<usize>) -> Seq<T> {
    Seq::new(order.len(), |i: int| items[order[i] as int])
}

/// The positions of `keys` in stable ascending order: sorted by key, and where keys
/// are equal, in the order in which they stand in `keys`.
pub fn stable_order<K: SortKey>(keys: &Vec<K>) -> (order: Vec<usize>)
    ensures
        is_stable_order(order@, keys@),
{
    let mut order: Vec<usize> = Vec::new();
    let mut next: usize = 0;
    while next < keys.len()
        invariant
            next <= keys.len(),
            is_stable_order_of(order@, keys@, next as int),
        decreases keys.len() - next,
    {
        let mut pos: usize = order.len();
        let mut searching = true;
        while searching && pos > 0
            invariant
                pos <= order.len(),
                next < keys.len(),
                is_stable_order_of(order@, keys@, next as int),
                forall|j: int|
                    pos <= j < order.len() ==> !keys[#[trigger] order[j] as int].precedes(
                        &keys[next as int],
                    ),
                !searching ==> pos > 0 && keys[order[pos - 1] as int].precedes(&keys[next as int]),
            decreases pos + if searching { 1int } else { 0int },
        {
            if keys[order[pos - 1]].comes_first(&keys[next]) {
                searching = false;
            } else {
                pos -= 1;
            }
        }
        let ghost before = order@;
        order.insert(pos, next);
        proof {
            let after = order@;
            assert forall|i: int, j: int| 0 <= i < j < after.len() implies {
                &&& after[i] != after[j]
                &&& keys@[after[i] as int].precedes(&keys@[after[j] as int])
                &&& keys@[after[j] as int].precedes(&keys@[after[i] as int]) ==> after[i]
                    < after[j]
            } by {
                if j == pos {
                    // the new position stands behind an earlier one
                    assert(after[i] == before[i]);
                    if i < pos - 1 {
                        K::precedes_is_transitive(
                            &keys@[before[i] as int],
                            &keys@[before[pos - 1] as int],
                            &keys@[next as int],
                        );
                    }
                } else if i == pos {
                    // a later one stands behind the new position
                    assert(after[j] == before[j - 1]);
                    K::precedes_is_total(&keys@[next as int], &keys@[before[j - 1] as int]);
                } else {
                    let bi = if i < pos { i } else { i - 1 };
                    let bj = if j < pos { j } else { j - 1 };
                    assert(after[i] == before[bi]);
                    assert(after[j] == before[bj]);
                }
            }
            assert forall|i: int| 0 <= i < after.len() implies 0 <= #[trigger] after[i] < next
                + 1 by {
                if i < pos {
                    assert(after[i] == before[i]);
                } else if i > pos {
                    assert(after[i] == before[i - 1]);
                }
            }
        }
        next += 1;
    }
    order
}

/// In a stable order the keys never descend.
pub proof fn lemma_stable_order_ascends<K: SortKey>(order: Seq<usize>, keys: Seq<K>, i: int, j: int)
    requires
        is_stable_order(order, keys),
        0 <= i <= j < order.len(),
    ensures
        keys[order[i] as int].precedes(&keys[order[j] as int]),
{
    if i == j {
        K::precedes_is_total(&keys[order[i] as int], &keys[order[i] as int]);
    }
}

/// In a stable order, positions whose keys are equal stand as they stood before.
pub proof fn lemma_stable_order_keeps_ties<K: SortKey>(
    order: Seq<usize>,
    keys: Seq<K>,
    i: int,
    j: int,
)
    requires
        is_stable_order(order, keys),
        0 <= i < j < order.len(),
        keys[order[j] as int].precedes(&keys[order[i] as int]),
    ensures
        order[i] < order[j],
{
}

/// Whether the bytes `a` stand before the bytes `b` in a dictionary, or are equal to
/// them: at the first place where they differ `a` has the smaller byte, or `a` ends
/// there.
pub open spec fn bytes_precede(a: Seq<u8>, b: Seq<u8>) -> bool
    decreases a.len(),
{
    if a.len() == 0 {
        true
    } else if b.len() == 0 {
        false
    } else if a[0] != b[0] {
        a[0] < b[0]
    } else {
        bytes_precede(a.drop_first(), b.drop_first())
    }
}

proof fn lemma_bytes_precede_is_total(a: Seq<u8>, b: Seq<u8>)
    ensures
        bytes_precede(a, b) || bytes_precede(b, a),
    decreases a.len(),
{
    if a.len() > 0 && b.len() > 0 && a[0] == b[0] {
        lemma_bytes_precede_is_total(a.drop_first(), b.drop_first());
    }
}

proof fn lemma_bytes_precede_is_transitive(a: Seq<u8>, b: Seq<u8>, c: Seq<u8>)
    requires
        bytes_precede(a, b),
        bytes_precede(b, c),
    ensures
        bytes_precede(a, c),
    decreases a.len(),
{
    if a.len() > 0 && b.len() > 0 && c.len() > 0 && a[0] == b[0] && b[0] == c[0] {
        lemma_bytes_precede_is_transitive(a.drop_first(), b.drop_first(), c.drop_first());
    }
}

/// What stands behind the first `i` bytes decides the order of two byte strings
/// that agree in their first `i` bytes.
proof fn lemma_bytes_precede_after_prefix(a: Seq<u8>, b: Seq<u8>, i: int)
    requires
        0 <= i <= a.len(),
        i <= b.len(),
        forall|k: int| 0 <= k < i ==> a[k] == b[k],
    ensures
        bytes_precede(a, b) == bytes_precede(a.skip(i), b.skip(i)),
    decreases i,
{
    if i == 0 {
        assert(a.skip(0) =~= a);
        assert(b.skip(0) =~= b);
    } else {
        lemma_bytes_precede_after_prefix(a, b, i - 1);
        assert(a.skip(i - 1).drop_first() =~= a.skip(i));
        assert(b.skip(i - 1).drop_first() =~= b.skip(i));
        assert(a.skip(i - 1)[0] == b.skip(i - 1)[0]);
    }
}

/// Names are sorted as byte strings, which sorts upper case before lower case.
impl SortKey for String {
    open spec fn precedes(&self, other: &Self) -> bool {
        bytes_precede(encode_utf8(self@), encode_utf8(other@))
    }

    proof fn precedes_is_total(a: &Self, b: &Self) {
        lemma_bytes_precede_is_total(encode_utf8(a@), encode_utf8(b@));
    }

    proof fn precedes_is_transitive(a: &Self, b: &Self, c: &Self) {
        lemma_bytes_precede_is_transitive(encode_utf8(a@), encode_utf8(b@), encode_utf8(c@));
    }

    fn comes_first(&self, other: &Self) -> (first: bool) {
        let a = self.as_str().as_bytes();
        let b = other.as_str().as_bytes();
        let mut i: usize = 0;
        while i < a.len() && i < b.len() && a[i] == b[i]
            invariant
                i <= a.len(),
                i <= b.len(),
                forall|k: int| 0 <= k < i ==> a@[k] == b@[k],
            decreases a.len() - i,
        {
            i += 1;
        }
        proof {
            lemma_bytes_precede_after_prefix(a@, b@, i as int);
        }
        if i >= a.len() {
            true
        } else if i >= b.len() {
            false
        } else {
            a[i] < b[i]
        }
    }
}

/// Whether the positions of `order` differ from each other and stand so that keys
/// ascend and equal keys keep their order.
spec fn is_ascending<K: SortKey>(order: Seq<usize>, keys: Seq<K>) -> bool {
    forall|i: int, j: int|
        #![trigger order[i], order[j]]
        0 <= i < j < order.len() ==> {
            &&& order[i] != order[j]
            &&& keys[order[i] as int].precedes(&keys[order[j] as int])
            &&& keys[order[j] as int].precedes(&keys[order[i] as int]) ==> order[i] < order[j]
        }
}

/// Two ascending orders of the same positions are the same order.
proof fn lemma_ascending_orders_agree<K: SortKey>(a: Seq<usize>, b: Seq<usize>, keys: Seq<K>)
    requires
        a.len() == b.len(),
        is_ascending(a, keys),
        is_ascending(b, keys),
        forall|i: int| 0 <= i < a.len() ==> b.contains(#[trigger] a[i]),
        forall|i: int| 0 <= i < b.len() ==> a.contains(#[trigger] b[i]),
    ensures
        a == b,
    decreases a.len(),
{
    if a.len() == 0 {
        assert(a =~= b);
    } else {
        let last = a.len() - 1;
        let x = a[last];
        let y = b[last];
        assert(a.contains(b[last]));
        assert(b.contains(a[last]));
        let i = a.index_of(y);
        let j = b.index_of(x);
        assert(x == y) by {
            if i < last && j < last {
                // y stands before x in `a`, and x before y in `b`
                assert(a[i] == y && a[last] == x);
                assert(b[j] == x && b[last] == y);
            }
        }
        let front_a = a.drop_last();
        let front_b = b.drop_last();
        assert forall|k: int| 0 <= k < front_a.len() implies front_b.contains(
            #[trigger] front_a[k],
        ) by {
            assert(b.contains(a[k]));
            let at = b.index_of(a[k]);
            assert(a[k] != a[last]);
            assert(front_b[at] == a[k]);
        }
        assert forall|k: int| 0 <= k < front_b.len() implies front_a.contains(
            #[trigger] front_b[k],
        ) by {
            assert(a.contains(b[k]));
            let at = a.index_of(b[k]);
            assert(b[k] != b[last]);
            assert(front_a[at] == b[k]);
        }
        assert(is_ascending(front_a, keys)) by {
            assert forall|p: int, q: int| 0 <= p < q < front_a.len() implies {
                &&& #[trigger] front_a[p] != #[trigger] front_a[q]
                &&& keys[front_a[p] as int].precedes(&keys[front_a[q] as int])
                &&& keys[front_a[q] as int].precedes(&keys[front_a[p] as int]) ==> front_a[p]
                    < front_a[q]
            } by {
                assert(a[p] == front_a[p] && a[q] == front_a[q]);
            }
        }
        assert(is_ascending(front_b, keys)) by {
            assert forall|p: int, q: int| 0 <= p < q < front_b.len() implies {
                &&& #[trigger] front_b[p] != #[trigger] front_b[q]
                &&& keys[front_b[p] as int].precedes(&keys[front_b[q] as int])
                &&& keys[front_b[q] as int].precedes(&keys[front_b[p] as int]) ==> front_b[p]
                    < front_b[q]
            } by {
                assert(b[p] == front_b[p] && b[q] == front_b[q]);
            }
        }
        lemma_ascending_orders_agree(front_a, front_b, keys);
        assert(a =~= front_a.push(x));
        assert(b =~= front_b.push(y));
    }
}

/// Every position stands in a stable order.
proof fn lemma_stable_order_covers<K: SortKey>(order: Seq<usize>, keys: Seq<K>, position: usize)
    requires
        is_stable_order(order, keys),
        position < keys.len(),
    ensures
        order.contains(position),
{
    let count = keys.len() as int;
    let places = Seq::new(order.len(), |i: int| order[i] as int);
    assert(places.no_duplicates()) by {
        assert forall|i: int, j: int|
            0 <= i < places.len() && 0 <= j < places.len() && i != j implies places[i]
            != places[j] by {
            if i < j {
                assert(order[i] != order[j]);
            } else {
                assert(order[j] != order[i]);
            }
        }
    }
    places.unique_seq_to_set();
    vstd::set_lib::lemma_int_range(0, count);
    let all = vstd::set_lib::set_int_range(0, count);
    assert(places.to_set().subset_of(all)) by {
        assert forall|v: int| places.to_set().contains(v) implies all.contains(v) by {
            let at = places.index_of(v);
            assert(0 <= order[at] < count);
        }
    }
    vstd::set_lib::lemma_len_subset(places.to_set(), all);
    vstd::set_lib::lemma_subset_equality(places.to_set(), all);
    assert(all.contains(position as int));
    assert(places.contains(position as int));
    let at = places.index_of(position as int);
    assert(order[at] == position);
}

/// There is only one stable order of given keys: sorting is determined.
pub proof fn lemma_stable_order_is_unique<K: SortKey>(a: Seq<usize>, b: Seq<usize>, keys: Seq<K>)
    requires
        is_stable_order(a, keys),
        is_stable_order(b, keys),
    ensures
        a == b,
{
    assert forall|i: int| 0 <= i < a.len() implies b.contains(#[trigger] a[i]) by {
        lemma_stable_order_covers(b, keys, a[i]);
    }
    assert forall|i: int| 0 <= i < b.len() implies a.contains(#[trigger] b[i]) by {
        lemma_stable_order_covers(a, keys, b[i]);
    }
    lemma_ascending_orders_agree(a, b, keys);
}

} // verus!
