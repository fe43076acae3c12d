//! Structural mutations of a single node — sorted insert, delete,
//! split, merge — each proved to keep the ordering invariant.

use vstd::prelude::*;

use crate::node::{sorted, Node, LEAF, MIDDLE_NODE, VALID};

verus! {

/// Where `k` belongs in the sorted keys: the number of keys below it. When
/// `k` is present, it sits exactly there.
pub open spec fn insert_pos(keys: Seq<u64>, k: u64) -> int
    decreases keys.len(),
{
    if keys.len() == 0 {
        0
    } else if keys[0] < k {
        1 + insert_pos(keys.drop_first(), k)
    } else {
        0
    }
}

/// The child an internal node routes `k` to: the number of keys at or below
/// it, so that a key equal to a separator goes to the right child.
pub open spec fn route_pos(keys: Seq<u64>, k: u64) -> int
    decreases keys.len(),
{
    if keys.len() == 0 {
        0
    } else if keys[0] <= k {
        1 + route_pos(keys.drop_first(), k)
    } else {
        0
    }
}

/// `insert_pos` stays within the keys.
pub proof fn lemma_insert_pos_bounds(keys: Seq<u64>, k: u64)
    ensures
        0 <= insert_pos(keys, k) <= keys.len(),
    decreases keys.len(),
{
    if keys.len() == 0 {
    } else if keys[0] < k {
        lemma_insert_pos_bounds(keys.drop_first(), k);
    } else {
    }
}

/// A linear scan that stops at the first key not below `k` lands on
/// `insert_pos`.
pub proof fn lemma_insert_pos_of_scan(keys: Seq<u64>, k: u64, i: int)
    requires
        0 <= i <= keys.len(),
        forall|j: int| 0 <= j < i ==> keys[j] < k,
        i < keys.len() ==> keys[i] >= k,
    ensures
        insert_pos(keys, k) == i,
    decreases keys.len(),
{
    if keys.len() == 0 {
    } else if keys[0] < k {
        lemma_insert_pos_of_scan(keys.drop_first(), k, i - 1);
    } else {
    }
}

/// A linear scan that stops at the first key above `k` lands on
/// `route_pos`.
pub proof fn lemma_route_pos_of_scan(keys: Seq<u64>, k: u64, i: int)
    requires
        0 <= i <= keys.len(),
        forall|j: int| 0 <= j < i ==> keys[j] <= k,
        i < keys.len() ==> keys[i] > k,
    ensures
        route_pos(keys, k) == i,
    decreases keys.len(),
{
    if keys.len() == 0 {
    } else if keys[0] <= k {
        lemma_route_pos_of_scan(keys.drop_first(), k, i - 1);
    } else {
    }
}

/// Finds the position of the first key not below `k`, and whether the key
/// there is `k` itself.
pub fn scan_pos(keys: &Vec<u64>, k: u64) -> (r: (usize, bool))
    ensures
        r.0 == insert_pos(keys@, k),
        0 <= r.0 <= keys@.len(),
        r.1 <==> (r.0 < keys@.len() && keys@[r.0 as int] == k),
        forall|j: int| 0 <= j < r.0 ==> keys@[j] < k,
        r.0 < keys@.len() ==> keys@[r.0 as int] >= k,
{
    let n = keys.len();
    let mut i: usize = 0;
    while i < n
        invariant
            0 <= i <= n,
            n == keys@.len(),
            forall|j: int| 0 <= j < i ==> keys@[j] < k,
        decreases n - i,
    {
        if keys[i] >= k {
            proof {
                lemma_insert_pos_of_scan(keys@, k, i as int);
            }
            return (i, keys[i] == k);
        }
        i = i + 1;
    }
    proof {
        lemma_insert_pos_of_scan(keys@, k, n as int);
    }
    (n, false)
}

/// Finds the index of the child an internal node routes `k` to: just
/// before the first separator strictly greater than `k`.
pub fn scan_route(keys: &Vec<u64>, k: u64) -> (r: usize)
    ensures
        r == route_pos(keys@, k),
        0 <= r <= keys@.len(),
{
    let n = keys.len();
    let mut i: usize = 0;
    while i < n
        invariant
            0 <= i <= n,
            n == keys@.len(),
            forall|j: int| 0 <= j < i ==> keys@[j] <= k,
        decreases n - i,
    {
        if keys[i] > k {
            proof {
                lemma_route_pos_of_scan(keys@, k, i as int);
            }
            return i;
        }
        i = i + 1;
    }
    proof {
        lemma_route_pos_of_scan(keys@, k, n as int);
    }
    n
}

/// Point lookup in one sorted leaf is correct: a key is among sorted keys
/// exactly when the entry at its insert position carries it, so the scan a
/// search ends with hits every present key and misses every absent one.
pub proof fn lemma_insert_pos_finds(keys: Seq<u64>, k: u64)
    requires
        sorted(keys),
    ensures
        keys.contains(k) <==> (0 <= insert_pos(keys, k) < keys.len() && keys[insert_pos(
            keys,
            k,
        )] == k),
    decreases keys.len(),
{
    if keys.len() == 0 {
        assert(!keys.contains(k));
    } else if keys[0] < k {
        assert(sorted(keys.drop_first())) by {
            assert(forall|i: int, j: int|
                0 <= i < j < keys.drop_first().len() ==> keys.drop_first()[i]
                    < keys.drop_first()[j]);
        }
        lemma_insert_pos_finds(keys.drop_first(), k);
        assert(keys.contains(k) <==> keys.drop_first().contains(k)) by {
            if keys.contains(k) {
                let w = choose|w: int| 0 <= w < keys.len() && keys[w] == k;
                assert(w != 0);
                assert(keys.drop_first()[w - 1] == k);
            }
            if keys.drop_first().contains(k) {
                let w = choose|w: int|
                    0 <= w < keys.drop_first().len() && keys.drop_first()[w] == k;
                assert(keys[w + 1] == k);
            }
        }
    } else {
        if keys[0] != k {
            assert(!keys.contains(k)) by {
                if keys.contains(k) {
                    let w = choose|w: int| 0 <= w < keys.len() && keys[w] == k;
                    assert(w != 0);
                    assert(keys[w] > keys[0]);
                }
            }
        }
    }
}

/// Neighbours in strictly ascending order put the whole sequence in order.
pub proof fn lemma_adjacent_chain(keys: Seq<u64>, i: int, j: int)
    requires
        forall|m: int| 0 <= m < keys.len() - 1 ==> #[trigger] keys[m] < keys[m + 1],
        0 <= i < j < keys.len(),
    ensures
        keys[i] < keys[j],
    decreases j - i,
{
    if i + 1 == j {
    } else {
        lemma_adjacent_chain(keys, i, j - 1);
    }
}

/// Decides at run time whether the keys are strictly ascending, as a page
/// read from storage must be checked before the tree trusts it.
pub fn check_sorted(keys: &Vec<u64>) -> (r: bool)
    ensures
        r == sorted(keys@),
{
    let n = keys.len();
    if n <= 1 {
        return true;
    }
    let mut i: usize = 0;
    while i < n - 1
        invariant
            0 <= i <= n - 1,
            n == keys@.len(),
            n >= 2,
            forall|m: int| 0 <= m < i ==> #[trigger] keys@[m] < keys@[m + 1],
        decreases n - i,
    {
        if keys[i] >= keys[i + 1] {
            return false;
        }
        i = i + 1;
    }
    proof {
        assert forall|a: int, b: int| 0 <= a < b < keys@.len() implies keys@[a] < keys@[b] by {
            lemma_adjacent_chain(keys@, a, b);
        }
    }
    true
}

impl Node {
    /// True when the node's field counts agree with its role, checked at
    /// run time before a decoded node is written back.
    pub fn shape_ok(&self) -> (r: bool)
        ensures
            r == self@.shape_wf(),
    {
        let internal = self.flag & MIDDLE_NODE == MIDDLE_NODE;
        let leafb = self.flag & LEAF == LEAF;
        let mut ok = true;
        if internal {
            ok = self.key_seek.len() >= 1 && self.key_seek.len() - 1 == self.key.len()
                && self.value.len() == 0 && self.extra_data.len() == 0 && !leafb;
        }
        if leafb {
            ok = ok && self.value.len() == self.key.len() && self.extra_data.len()
                == self.key.len() && self.key_seek.len() == 0;
        }
        ok
    }

    /// Inserts or replaces the entry for `key` in a leaf, keeping the keys
    /// strictly sorted. Returns whether an existing entry was replaced.
    pub fn leaf_insert(&mut self, key: u64, value: Vec<u8>, extra: Option<u64>) -> (replaced:
        bool)
        requires
            old(self).value@.len() == old(self).key@.len(),
            old(self).extra_data@.len() == old(self).key@.len(),
            sorted(old(self).key@),
        ensures
            sorted(final(self).key@),
            final(self).value@.len() == final(self).key@.len(),
            final(self).extra_data@.len() == final(self).key@.len(),
            ({
                let pos = insert_pos(old(self).key@, key);
                if replaced {
                    &&& pos < old(self).key@.len() && old(self).key@[pos] == key
                    &&& final(self).key@ == old(self).key@
                    &&& final(self)@.value == old(self)@.value.update(pos, value@)
                    &&& final(self).extra_data@ == old(self).extra_data@.update(pos, extra)
                } else {
                    &&& !old(self).key@.contains(key)
                    &&& final(self).key@ == old(self).key@.insert(pos, key)
                    &&& final(self)@.value == old(self)@.value.insert(pos, value@)
                    &&& final(self).extra_data@ == old(self).extra_data@.insert(pos, extra)
                }
            }),
            final(self).flag == old(self).flag,
            final(self).is_change == old(self).is_change,
            final(self).seek_start == old(self).seek_start,
            final(self).key_seek@ == old(self).key_seek@,
            final(self).residual_storage_size == old(self).residual_storage_size,
            final(self).prev == old(self).prev,
            final(self).next == old(self).next,
    {
        let (pos, found) = scan_pos(&self.key, key);
        let ghost pos0 = pos as int;
        if found {
            self.value.remove(pos);
            self.value.insert(pos, value);
            self.extra_data.remove(pos);
            self.extra_data.insert(pos, extra);
            proof {
                assert(self@.value =~= old(self)@.value.update(pos0, value@));
                assert(self.extra_data@ =~= old(self).extra_data@.update(pos0, extra));
            }
            true
        } else {
            self.key.insert(pos, key);
            self.value.insert(pos, value);
            self.extra_data.insert(pos, extra);
            proof {
                assert(!old(self).key@.contains(key)) by {
                    if old(self).key@.contains(key) {
                        let w = choose|w: int|
                            0 <= w < old(self).key@.len() && old(self).key@[w] == key;
                        if w < pos0 {
                        } else {
                        }
                    }
                }
                assert(self@.value =~= old(self)@.value.insert(pos0, value@));
                assert(sorted(self.key@)) by {
                    assert(forall|j: int|
                        0 <= j < self.key@.len() ==> self.key@[j] == (if j < pos0 {
                            old(self).key@[j]
                        } else if j == pos0 {
                            key
                        } else {
                            old(self).key@[j - 1]
                        }));
                }
            }
            false
        }
    }

    /// Removes the entry for `key` from a leaf, handing back its value and
    /// overflow reference, or `None` when the key is absent.
    pub fn leaf_delete(&mut self, key: u64) -> (removed: Option<(Vec<u8>, Option<u64>)>)
        requires
            old(self).value@.len() == old(self).key@.len(),
            old(self).extra_data@.len() == old(self).key@.len(),
            sorted(old(self).key@),
        ensures
            sorted(final(self).key@),
            final(self).value@.len() == final(self).key@.len(),
            final(self).extra_data@.len() == final(self).key@.len(),
            ({
                let pos = insert_pos(old(self).key@, key);
                match removed {
                    Some(ve) => {
                        &&& pos < old(self).key@.len() && old(self).key@[pos] == key
                        &&& final(self).key@ == old(self).key@.remove(pos)
                        &&& final(self)@.value == old(self)@.value.remove(pos)
                        &&& final(self).extra_data@ == old(self).extra_data@.remove(pos)
                        &&& ve.0@ == old(self)@.value[pos]
                        &&& ve.1 == old(self).extra_data@[pos]
                    },
                    None => {
                        &&& !old(self).key@.contains(key)
                        &&& *final(self) == *old(self)
                    },
                }
            }),
            final(self).flag == old(self).flag,
            final(self).seek_start == old(self).seek_start,
            final(self).key_seek@ == old(self).key_seek@,
            final(self).prev == old(self).prev,
            final(self).next == old(self).next,
    {
        let (pos, found) = scan_pos(&self.key, key);
        let ghost pos0 = pos as int;
        if found {
            self.key.remove(pos);
            let v = self.value.remove(pos);
            let e = self.extra_data.remove(pos);
            proof {
                assert(self@.value =~= old(self)@.value.remove(pos0));
                assert(sorted(self.key@)) by {
                    assert(forall|j: int|
                        0 <= j < self.key@.len() ==> self.key@[j] == (if j < pos0 {
                            old(self).key@[j]
                        } else {
                            old(self).key@[j + 1]
                        }));
                }
            }
            Some((v, e))
        } else {
            proof {
                assert(!old(self).key@.contains(key)) by {
                    if old(self).key@.contains(key) {
                        let w = choose|w: int|
                            0 <= w < old(self).key@.len() && old(self).key@[w] == key;
                        if w < pos0 {
                        } else {
                        }
                    }
                }
            }
            None
        }
    }

    /// Splits a leaf in two: the upper half of the entries moves to a new
    /// right sibling at offset `new_seek`, the sibling chain is relinked,
    /// and every key kept on the left is below every key moved right; the
    /// separator to hand the parent is the right sibling's first key.
    pub fn split_leaf(&mut self, new_seek: u64) -> (right: Node)
        requires
            old(self).value@.len() == old(self).key@.len(),
            old(self).extra_data@.len() == old(self).key@.len(),
            sorted(old(self).key@),
            old(self).key@.len() >= 2,
        ensures
            ({
                let mid = old(self).key@.len() as int / 2;
                &&& final(self).key@ == old(self).key@.subrange(0, mid)
                &&& final(self)@.value == old(self)@.value.subrange(0, mid)
                &&& final(self).extra_data@ == old(self).extra_data@.subrange(0, mid)
                &&& right.key@ == old(self).key@.subrange(mid, old(self).key@.len() as int)
                &&& right@.value == old(self)@.value.subrange(mid, old(self).key@.len() as int)
                &&& right.extra_data@ == old(self).extra_data@.subrange(
                    mid,
                    old(self).key@.len() as int,
                )
                &&& right.key@.len() >= 1 && final(self).key@.len() >= 1
                &&& right.key@[0] == old(self).key@[mid]
            }),
            forall|i: int, j: int|
                0 <= i < final(self).key@.len() && 0 <= j < right.key@.len()
                    ==> final(self).key@[i] < right.key@[j],
            sorted(final(self).key@),
            sorted(right.key@),
            final(self).next == new_seek,
            right.prev == final(self).seek_start,
            right.next == old(self).next,
            right.seek_start == new_seek,
            right.flag == VALID | LEAF,
            right.key_seek@ == Seq::<u64>::empty(),
            final(self).flag == old(self).flag,
            final(self).seek_start == old(self).seek_start,
            final(self).prev == old(self).prev,
            final(self).key_seek@ == old(self).key_seek@,
            final(self).is_change == old(self).is_change,
    {
        let mid = self.key.len() / 2;
        let rkeys = self.key.split_off(mid);
        let rvals = self.value.split_off(mid);
        let rext = self.extra_data.split_off(mid);
        let right = Node {
            flag: VALID | LEAF,
            is_change: true,
            seek_start: new_seek,
            key: rkeys,
            key_seek: Vec::new(),
            value: rvals,
            extra_data: rext,
            residual_storage_size: 0,
            prev: self.seek_start,
            next: self.next,
        };
        self.next = new_seek;
        proof {
            let mid0 = old(self).key@.len() as int / 2;
            assert(self@.value =~= old(self)@.value.subrange(0, mid0));
            assert(right@.value =~= old(self)@.value.subrange(
                mid0,
                old(self).key@.len() as int,
            ));
        }
        right
    }

    /// Inserts a separator key and the offset of the child to its right
    /// into an internal node, keeping the keys strictly sorted.
    pub fn internal_insert(&mut self, key: u64, child_seek: u64)
        requires
            old(self).key_seek@.len() == old(self).key@.len() + 1,
            sorted(old(self).key@),
            !old(self).key@.contains(key),
        ensures
            ({
                let pos = insert_pos(old(self).key@, key);
                &&& final(self).key@ == old(self).key@.insert(pos, key)
                &&& final(self).key_seek@ == old(self).key_seek@.insert(pos + 1, child_seek)
            }),
            sorted(final(self).key@),
            final(self).key_seek@.len() == final(self).key@.len() + 1,
            final(self).key@.len() == old(self).key@.len() + 1,
            final(self)@.value == old(self)@.value,
            final(self).extra_data@ == old(self).extra_data@,
            final(self).flag == old(self).flag,
            final(self).seek_start == old(self).seek_start,
            final(self).prev == old(self).prev,
            final(self).next == old(self).next,
    {
        let ks_len = self.key_seek.len();
        let (pos, found) = scan_pos(&self.key, key);
        let ghost pos0 = pos as int;
        proof {
            if found {
                assert(old(self).key@.contains(key));
            }
            assert(pos0 < old(self).key@.len() ==> old(self).key@[pos0] > key);
            assert(forall|j: int| pos0 <= j < old(self).key@.len() ==> old(self).key@[j] > key)
                by {
                assert(forall|j: int|
                    pos0 < j < old(self).key@.len() ==> old(self).key@[j] > old(
                        self,
                    ).key@[pos0]);
            }
        }
        self.key.insert(pos, key);
        self.key_seek.insert(pos + 1, child_seek);
        proof {
            assert(sorted(self.key@)) by {
                assert(forall|j: int|
                    0 <= j < self.key@.len() ==> self.key@[j] == (if j < pos0 {
                        old(self).key@[j]
                    } else if j == pos0 {
                        key
                    } else {
                        old(self).key@[j - 1]
                    }));
            }
        }
    }

    /// Splits an internal node in two around its middle key, which moves up
    /// to the parent: the left keeps the keys below it, the new right node
    /// at `new_seek` takes the keys above it, and the children split with
    /// them.
    pub fn split_internal(&mut self, new_seek: u64) -> (r: (Node, u64))
        requires
            old(self).key_seek@.len() == old(self).key@.len() + 1,
            sorted(old(self).key@),
            old(self).key@.len() >= 3,
        ensures
            ({
                let mid = old(self).key@.len() as int / 2;
                let len = old(self).key@.len() as int;
                &&& r.1 == old(self).key@[mid]
                &&& final(self).key@ == old(self).key@.subrange(0, mid)
                &&& final(self).key_seek@ == old(self).key_seek@.subrange(0, mid + 1)
                &&& r.0.key@ == old(self).key@.subrange(mid + 1, len)
                &&& r.0.key_seek@ == old(self).key_seek@.subrange(mid + 1, len + 1)
                &&& final(self).key@.len() >= 1
                &&& r.0.key@.len() >= 1
                &&& (forall|i: int| 0 <= i < final(self).key@.len() ==> final(self).key@[i] < r.1)
                &&& (forall|j: int| 0 <= j < r.0.key@.len() ==> r.1 < r.0.key@[j])
            }),
            sorted(final(self).key@),
            sorted(r.0.key@),
            final(self).key_seek@.len() == final(self).key@.len() + 1,
            r.0.key_seek@.len() == r.0.key@.len() + 1,
            r.0.flag == VALID | MIDDLE_NODE,
            r.0.seek_start == new_seek,
            r.0.value@.len() == 0,
            r.0.extra_data@.len() == 0,
            final(self).flag == old(self).flag,
            final(self).seek_start == old(self).seek_start,
            final(self)@.value == old(self)@.value,
            final(self).extra_data@ == old(self).extra_data@,
            final(self).prev == old(self).prev,
            final(self).next == old(self).next,
    {
        let mid = self.key.len() / 2;
        let sep = self.key[mid];
        let mut upper = self.key.split_off(mid);
        let rkeys = upper.split_off(1);
        let rseeks = self.key_seek.split_off(mid + 1);
        let right = Node {
            flag: VALID | MIDDLE_NODE,
            is_change: true,
            seek_start: new_seek,
            key: rkeys,
            key_seek: rseeks,
            value: Vec::new(),
            extra_data: Vec::new(),
            residual_storage_size: 0,
            prev: 0,
            next: 0,
        };
        proof {
            let mid0 = old(self).key@.len() as int / 2;
            let len = old(self).key@.len() as int;
            assert(right.key@ =~= old(self).key@.subrange(mid0 + 1, len));
            assert(right@.value =~= Seq::<Seq<u8>>::empty());
        }
        (right, sep)
    }

    /// Removes separator `idx` and the child to its right from an internal
    /// node, as merging children requires.
    pub fn internal_remove(&mut self, idx: usize)
        requires
            old(self).key_seek@.len() == old(self).key@.len() + 1,
            sorted(old(self).key@),
            idx < old(self).key@.len(),
        ensures
            final(self).key@ == old(self).key@.remove(idx as int),
            final(self).key_seek@ == old(self).key_seek@.remove(idx + 1),
            sorted(final(self).key@),
            final(self).key_seek@.len() == final(self).key@.len() + 1,
            final(self)@.value == old(self)@.value,
            final(self).extra_data@ == old(self).extra_data@,
            final(self).flag == old(self).flag,
            final(self).seek_start == old(self).seek_start,
            final(self).prev == old(self).prev,
            final(self).next == old(self).next,
    {
        let ks_len = self.key_seek.len();
        self.key.remove(idx);
        self.key_seek.remove(idx + 1);
        proof {
            assert(sorted(self.key@)) by {
                assert(forall|j: int|
                    0 <= j < self.key@.len() ==> self.key@[j] == (if j < idx as int {
                        old(self).key@[j]
                    } else {
                        old(self).key@[j + 1]
                    }));
            }
        }
    }

    /// Removes the first key and the first child of an internal node, as
    /// dropping a vanished leftmost child requires.
    pub fn internal_remove_first(&mut self)
        requires
            old(self).key_seek@.len() == old(self).key@.len() + 1,
            sorted(old(self).key@),
            old(self).key@.len() >= 1,
        ensures
            final(self).key@ == old(self).key@.drop_first(),
            final(self).key_seek@ == old(self).key_seek@.drop_first(),
            sorted(final(self).key@),
            final(self).key_seek@.len() == final(self).key@.len() + 1,
            final(self)@.value == old(self)@.value,
            final(self).extra_data@ == old(self).extra_data@,
            final(self).flag == old(self).flag,
            final(self).seek_start == old(self).seek_start,
            final(self).prev == old(self).prev,
            final(self).next == old(self).next,
    {
        self.key.remove(0);
        self.key_seek.remove(0);
        proof {
            assert(self.key@ =~= old(self).key@.drop_first());
            assert(self.key_seek@ =~= old(self).key_seek@.drop_first());
            assert(sorted(self.key@)) by {
                assert(forall|j: int|
                    0 <= j < self.key@.len() ==> self.key@[j] == old(self).key@[j + 1]);
            }
        }
    }

    /// Redirects child `idx` of an internal node to another page, as
    /// collapsing a single-child node requires.
    pub fn internal_set_child(&mut self, idx: usize, child: u64)
        requires
            idx < old(self).key_seek@.len(),
        ensures
            final(self).key_seek@ == old(self).key_seek@.update(idx as int, child),
            final(self).key_seek@.len() == old(self).key_seek@.len(),
            final(self).key@ == old(self).key@,
            final(self)@.value == old(self)@.value,
            final(self).extra_data@ == old(self).extra_data@,
            final(self).flag == old(self).flag,
            final(self).seek_start == old(self).seek_start,
            final(self).prev == old(self).prev,
            final(self).next == old(self).next,
    {
        self.key_seek.remove(idx);
        self.key_seek.insert(idx, child);
        proof {
            assert(self.key_seek@ =~= old(self).key_seek@.update(idx as int, child));
        }
    }

    /// Merges a right sibling leaf into this one: the entries concatenate
    /// in order and the sibling chain skips the vanished node.
    pub fn merge_leaf(&mut self, right: Node)
        requires
            old(self).value@.len() == old(self).key@.len(),
            old(self).extra_data@.len() == old(self).key@.len(),
            right.value@.len() == right.key@.len(),
            right.extra_data@.len() == right.key@.len(),
            sorted(old(self).key@),
            sorted(right.key@),
            forall|i: int, j: int|
                0 <= i < old(self).key@.len() && 0 <= j < right.key@.len()
                    ==> old(self).key@[i] < right.key@[j],
        ensures
            final(self).key@ == old(self).key@ + right.key@,
            final(self)@.value == old(self)@.value + right@.value,
            final(self).extra_data@ == old(self).extra_data@ + right.extra_data@,
            sorted(final(self).key@),
            final(self).value@.len() == final(self).key@.len(),
            final(self).extra_data@.len() == final(self).key@.len(),
            final(self).next == right.next,
            final(self).flag == old(self).flag,
            final(self).seek_start == old(self).seek_start,
            final(self).prev == old(self).prev,
            final(self).key_seek@ == old(self).key_seek@,
    {
        let ghost r0 = right;
        let mut right = right;
        self.key.append(&mut right.key);
        self.value.append(&mut right.value);
        self.extra_data.append(&mut right.extra_data);
        self.next = right.next;
        proof {
            assert(self@.value =~= old(self)@.value + r0@.value);
        }
    }
}

} // verus!
