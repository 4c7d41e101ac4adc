//! Remembers which files were seen, so that a file with several hard links is
//! counted once.

use crate::common::{Inode, Metadata};
use std::collections::HashSet;
use vstd::prelude::*;

verus! {

/// The set of files seen so far, each identified by its device and inode number.
pub struct InodeFilter {
    seen: HashSet<u128>,
}

/// One number for each identity: the device in the upper half, the inode number in
/// the lower.
pub closed spec fn key_of(inode: Inode) -> u128 {
    (inode.device as u128 * 0x1_0000_0000_0000_0000u128 + inode.number as u128) as u128
}

proof fn lemma_key_of_is_injective(a: Inode, b: Inode)
    ensures
        key_of(a) == key_of(b) <==> a == b,
{
}

fn key(inode: &Inode) -> (k: u128)
    ensures
        k == key_of(*inode),
{
    inode.device as u128 * 0x1_0000_0000_0000_0000u128 + inode.number as u128
}

impl View for InodeFilter {
    type V = Set<Inode>;

    closed spec fn view(&self) -> Set<Inode> {
        Set::new(|inode: Inode| self.seen@.contains(key_of(inode)))
    }
}

impl InodeFilter {
    /// The files that are seen once `metadata` was added to the files `seen`.
    pub open spec fn seen_after(seen: Set<Inode>, metadata: Metadata) -> Set<Inode> {
        match metadata.inode {
            Some(inode) => seen.insert(inode),
            None => seen,
        }
    }

    /// Whether a file with `metadata` is new to the files `seen`. A file without an
    /// identity is always new.
    pub open spec fn is_new(seen: Set<Inode>, metadata: Metadata) -> bool {
        match metadata.inode {
            Some(inode) => !seen.contains(inode),
            None => true,
        }
    }

    /// A filter that has seen nothing.
    pub fn new() -> (filter: InodeFilter)
        ensures
            filter@ == Set::<Inode>::empty(),
    {
        let filter = InodeFilter { seen: HashSet::new() };
        assert(filter@ =~= Set::<Inode>::empty());
        filter
    }

    /// Records the file and says whether this is the first time it is seen.
    pub fn add(&mut self, metadata: &Metadata) -> (first: bool)
        ensures
            first == Self::is_new(old(self)@, *metadata),
            final(self)@ == Self::seen_after(old(self)@, *metadata),
    {
        match &metadata.inode {
            None => true,
            Some(inode) => {
                let k = key(inode);
                let first = self.seen.insert(k);
                proof {
                    assert forall|other: Inode|
                        self@.contains(other) == old(self)@.insert(*inode).contains(other) by {
                        lemma_key_of_is_injective(other, *inode);
                    }
                    assert(self@ =~= old(self)@.insert(*inode));
                }
                first
            },
        }
    }
}

impl Default for InodeFilter {
    fn default() -> (filter: InodeFilter)
        ensures
            filter@ == Set::<Inode>::empty(),
    {
        InodeFilter::new()
    }
}

/// A file that was added stays seen whatever is added after it, so adding it again
/// never reports it as new.
pub proof fn lemma_seen_stays_seen(seen: Set<Inode>, metadata: Metadata, later: Seq<Metadata>)
    requires
        !InodeFilter::is_new(seen, metadata),
    ensures
        !InodeFilter::is_new(seen_after_all(seen, later), metadata),
    decreases later.len(),
{
    if later.len() > 0 {
        lemma_seen_stays_seen(seen, metadata, later.drop_last());
    }
}

/// The files that are seen once all of `added` were added, one after the other.
pub open spec fn seen_after_all(seen: Set<Inode>, added: Seq<Metadata>) -> Set<Inode>
    decreases added.len(),
{
    if added.len() == 0 {
        seen
    } else {
        InodeFilter::seen_after(seen_after_all(seen, added.drop_last()), added.last())
    }
}

/// Adding a file makes it seen: the next time it is added, it is not new.
pub proof fn lemma_added_is_not_new(seen: Set<Inode>, metadata: Metadata)
    requires
        metadata.inode is Some,
    ensures
        !InodeFilter::is_new(InodeFilter::seen_after(seen, metadata), metadata),
{
}

} // verus!
