//! A bounded cache of decoded nodes with least-recently-used eviction
//! and write-back of dirty entries.
//!
//! The tree engine keeps its page store in memory and writes nodes through
//! on every mutation, so it gains nothing from caching decoded nodes and
//! does not route its reads through here; this cache is the verified
//! building block for a deployment whose store is slower than memory, such
//! as one page file behind the shell that loads and saves the store.

use vstd::prelude::*;

use crate::node::Node;

verus! {

/// One cached page: its offset, its decoded node, and whether the node has
/// diverged from the on-disk page and must be written back before its slot
/// is reused.
pub struct CacheEntry {
    pub seek: u64,
    pub node: Node,
    pub dirty: bool,
}

/// A bounded cache of decoded nodes keyed by page offset, with
/// least-recently-used eviction: entries are kept in recency order, the
/// least recently used first.
pub struct PageCache {
    /// The most entries the cache will hold.
    pub cap: usize,
    /// The cached entries, least recently used first.
    pub entries: Vec<CacheEntry>,
}

impl PageCache {
    /// Within capacity, and no offset cached twice: at most one in-memory
    /// representation of a page is ever visible.
    pub open spec fn wf(self) -> bool {
        &&& self.cap >= 1
        &&& self.entries@.len() <= self.cap
        &&& forall|i: int, j: int|
            0 <= i < j < self.entries@.len() ==> self.entries@[i].seek != self.entries@[j].seek
    }

    /// Whether some entry caches `seek`.
    pub open spec fn caches(self, seek: u64) -> bool {
        exists|i: int| 0 <= i < self.entries@.len() && (#[trigger] self.entries@[i]).seek == seek
    }

    /// An empty cache bounded by `cap`.
    pub fn new(cap: usize) -> (r: PageCache)
        requires
            cap >= 1,
        ensures
            r.wf(),
            r.cap == cap,
            r.entries@.len() == 0,
    {
        PageCache { cap, entries: Vec::new() }
    }

    /// The position of the entry caching `seek`, if any.
    fn find(&self, seek: u64) -> (r: Option<usize>)
        ensures
            r matches Some(i) ==> (i < self.entries@.len() && self.entries@[i as int].seek
                == seek),
            r is None ==> forall|i: int|
                0 <= i < self.entries@.len() ==> (#[trigger] self.entries@[i]).seek != seek,
    {
        let n = self.entries.len();
        let mut i: usize = 0;
        while i < n
            invariant
                0 <= i <= n,
                n == self.entries@.len(),
                forall|j: int| 0 <= j < i ==> (#[trigger] self.entries@[j]).seek != seek,
            decreases n - i,
        {
            if self.entries[i].seek == seek {
                return Some(i);
            }
            i = i + 1;
        }
        None
    }

    /// Takes the node cached for `seek` out of the cache, with its dirty
    /// mark; the caller reinstalls it with `put` when done, which makes it
    /// the most recently used. `None` when the offset is not cached.
    pub fn take(&mut self, seek: u64) -> (r: Option<(Node, bool)>)
        requires
            old(self).wf(),
        ensures
            final(self).wf(),
            final(self).cap == old(self).cap,
            r is None ==> (*final(self) == *old(self) && !old(self).caches(seek)),
            r matches Some((n, d)) ==> (exists|i: int|
                #![auto]
                {
                    &&& 0 <= i < old(self).entries@.len()
                    &&& old(self).entries@[i].seek == seek
                    &&& old(self).entries@[i].node == n
                    &&& old(self).entries@[i].dirty == d
                    &&& final(self).entries@ == old(self).entries@.remove(i)
                }),
            r is Some ==> !final(self).caches(seek),
    {
        let i = match self.find(seek) {
            Some(i) => i,
            None => {
                return None;
            },
        };
        let e = self.entries.remove(i);
        proof {
            assert(!self.caches(seek)) by {
                assert(forall|j: int|
                    0 <= j < self.entries@.len() ==> (#[trigger] self.entries@[j]) == (if j
                        < i as int {
                        old(self).entries@[j]
                    } else {
                        old(self).entries@[j + 1]
                    }));
            }
        }
        Some((e.node, e.dirty))
    }

    /// Installs `node` as the most recently used entry for `seek`. When the
    /// cache is full, the least recently used entry is evicted and handed
    /// back, so that a dirty victim can be written back before its slot is
    /// reused. The offset must not be cached already: `take` it first.
    pub fn put(&mut self, seek: u64, node: Node, dirty: bool) -> (evicted: Option<CacheEntry>)
        requires
            old(self).wf(),
            !old(self).caches(seek),
        ensures
            final(self).wf(),
            final(self).cap == old(self).cap,
            final(self).entries@.len() >= 1,
            final(self).entries@.last().seek == seek,
            final(self).entries@.last().node == node,
            final(self).entries@.last().dirty == dirty,
            old(self).entries@.len() < old(self).cap ==> (evicted is None
                && final(self).entries@ == old(self).entries@.push(
                CacheEntry { seek, node, dirty },
            )),
            old(self).entries@.len() >= old(self).cap ==> (evicted matches Some(v) && v.seek
                == old(self).entries@[0].seek && v.node == old(self).entries@[0].node && v.dirty
                == old(self).entries@[0].dirty && final(self).entries@ == old(
                self,
            ).entries@.drop_first().push(CacheEntry { seek, node, dirty })),
    {
        let mut evicted: Option<CacheEntry> = None;
        if self.entries.len() >= self.cap {
            let v = self.entries.remove(0);
            evicted = Some(v);
            proof {
                assert(self.entries@ =~= old(self).entries@.drop_first());
            }
        }
        let ghost mid = self.entries@;
        self.entries.push(CacheEntry { seek, node, dirty });
        proof {
            assert(forall|j: int| 0 <= j < mid.len() ==> (#[trigger] mid[j]).seek != seek);
            assert(forall|i: int, j: int|
                0 <= i < j < self.entries@.len() ==> self.entries@[i].seek
                    != self.entries@[j].seek);
        }
        evicted
    }

    /// Removes and returns some entry that is dirty, for write-back; `None`
    /// when every cached node still matches its page.
    pub fn pop_dirty(&mut self) -> (r: Option<(u64, Node)>)
        requires
            old(self).wf(),
        ensures
            final(self).wf(),
            final(self).cap == old(self).cap,
            r is None ==> (*final(self) == *old(self) && forall|i: int|
                0 <= i < old(self).entries@.len() ==> !(#[trigger] old(self).entries@[i]).dirty),
            r matches Some((s, n)) ==> (exists|i: int|
                #![auto]
                {
                    &&& 0 <= i < old(self).entries@.len()
                    &&& old(self).entries@[i].seek == s
                    &&& old(self).entries@[i].node == n
                    &&& old(self).entries@[i].dirty
                    &&& final(self).entries@ == old(self).entries@.remove(i)
                }),
    {
        let n = self.entries.len();
        let mut i: usize = 0;
        while i < n
            invariant
                old(self).wf(),
                *self == *old(self),
                0 <= i <= n,
                n == self.entries@.len(),
                forall|j: int| 0 <= j < i ==> !(#[trigger] self.entries@[j]).dirty,
            decreases n - i,
        {
            if self.entries[i].dirty {
                let e = self.entries.remove(i);
                return Some((e.seek, e.node));
            }
            i = i + 1;
        }
        None
    }
}

} // verus!
