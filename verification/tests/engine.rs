use bplus::cache::PageCache;
use bplus::config::Config;
use bplus::error::BPlusError;
use bplus::node::{Node, EXTRA_DATA, LEAF, MIDDLE_NODE, VALID};
use bplus::tree::Tree;
use bplus::EncodableU8;

fn value_bytes(v: u64) -> Vec<u8> {
    let mut buf: Vec<u8> = Vec::new();
    v.encode(&mut buf).unwrap();
    buf
}

/// Insert keys 1..=100 with 8-byte values under the default layout
/// (page size 16384, fan-out bound 3): the root must have split into an
/// internal node, every key must come back exactly, absent keys must miss,
/// and the range [40, 60] must hold exactly 21 ordered pairs.
#[test]
fn hundred_keys_split_search_and_range() {
    let mut tree = Tree::new(Config::default()).unwrap();
    for k in 1..=100u64 {
        tree.insert(k, value_bytes(k * 10)).unwrap();
    }
    let root = tree.read_node(tree.root_seek).unwrap();
    assert_eq!(root.flag & MIDDLE_NODE, MIDDLE_NODE);
    for k in 1..=100u64 {
        let got = tree.search(k).unwrap();
        assert_eq!(got, Some(value_bytes(k * 10)));
    }
    assert_eq!(tree.search(0).unwrap(), None);
    assert_eq!(tree.search(101).unwrap(), None);
    let pairs = tree.range_search(40, 60).unwrap();
    assert_eq!(pairs.len(), 21);
    for (i, (k, v)) in pairs.iter().enumerate() {
        assert_eq!(*k, 40 + i as u64);
        assert_eq!(*v, value_bytes(*k * 10));
    }
}

/// Internal fan-out stays within the bound and keys stay sorted in every
/// valid node after a long insert run.
#[test]
fn ordering_invariant_holds_everywhere() {
    let mut tree = Tree::new(Config::default()).unwrap();
    for k in [50u64, 10, 90, 30, 70, 20, 80, 40, 60, 100, 5, 95, 15, 85] {
        tree.insert(k, value_bytes(k)).unwrap();
    }
    let ps = tree.cfg.page_size as u64;
    for i in 1..tree.pages.len() as u64 {
        let node = match tree.read_node(i * ps) {
            Ok(n) => n,
            Err(_) => continue,
        };
        if node.flag & VALID != VALID || node.flag & EXTRA_DATA == EXTRA_DATA {
            continue;
        }
        for w in node.key.windows(2) {
            assert!(w[0] < w[1]);
        }
        if node.flag & MIDDLE_NODE == MIDDLE_NODE {
            assert!(node.key.len() <= tree.cfg.max_key);
            assert_eq!(node.key_seek.len(), node.key.len() + 1);
        }
    }
}

/// A 5000-byte value against a 256-byte entry budget spills into overflow
/// pages, reads back whole, and deleting it lets a rebuild reclaim the
/// chain.
#[test]
fn oversized_value_round_trip_and_reclaim() {
    let mut tree = Tree::new(Config::default()).unwrap();
    let big: Vec<u8> = (0u32..5000).map(|x| (x % 251) as u8).collect();
    assert_eq!(big.len(), 5000);
    tree.insert(7, big.clone()).unwrap();
    // at least one overflow page was allocated
    let ps = tree.cfg.page_size as u64;
    let extras = (1..tree.pages.len() as u64)
        .filter(|i| {
            tree.read_node(i * ps)
                .map(|n| n.flag & EXTRA_DATA == EXTRA_DATA && n.flag & VALID == VALID)
                .unwrap_or(false)
        })
        .count();
    assert!(extras >= 1);
    // decode reconstructs all 5000 bytes
    assert_eq!(tree.search(7).unwrap(), Some(big.clone()));
    let pages_with_value = tree.pages.len();
    assert!(tree.delete(7).unwrap());
    assert_eq!(tree.search(7).unwrap(), None);
    // the delete freed the chain: no live overflow page is left behind
    let extras_after = (1..tree.pages.len() as u64)
        .filter(|i| {
            tree.read_node(i * ps)
                .map(|n| n.flag & EXTRA_DATA == EXTRA_DATA && n.flag & VALID == VALID)
                .unwrap_or(false)
        })
        .count();
    assert_eq!(extras_after, 0);
    tree.rebuild().unwrap();
    assert!(tree.pages.len() < pages_with_value);
    assert_eq!(tree.search(7).unwrap(), None);
}

/// An oversized value still compares equal after splits move its entry.
#[test]
fn oversized_value_survives_splits() {
    let mut tree = Tree::new(Config::default()).unwrap();
    let big: Vec<u8> = (0u32..3000).map(|x| (x * 7 % 256) as u8).collect();
    tree.insert(55, big.clone()).unwrap();
    for k in 1..=60u64 {
        if k != 55 {
            tree.insert(k, value_bytes(k)).unwrap();
        }
    }
    assert_eq!(tree.search(55).unwrap(), Some(big));
    assert_eq!(tree.search(17).unwrap(), Some(value_bytes(17)));
}

/// Inserting the same key twice replaces the value.
#[test]
fn insert_replaces_existing_key() {
    let mut tree = Tree::new(Config::default()).unwrap();
    tree.insert(3, value_bytes(30)).unwrap();
    tree.insert(3, value_bytes(31)).unwrap();
    assert_eq!(tree.search(3).unwrap(), Some(value_bytes(31)));
    let pairs = tree.range_search(0, u64::MAX).unwrap();
    assert_eq!(pairs.len(), 1);
}

/// After a long delete run no surviving internal node is below the minimum
/// of one key unless it is the root, and the leaf chain stays mutually
/// linked.
#[test]
fn delete_keeps_invariants_and_chain() {
    let mut tree = Tree::new(Config::default()).unwrap();
    for k in 1..=40u64 {
        tree.insert(k, value_bytes(k)).unwrap();
    }
    for k in 1..=30u64 {
        assert!(tree.delete(k).unwrap());
    }
    assert!(!tree.delete(7).unwrap());
    for k in 31..=40u64 {
        assert_eq!(tree.search(k).unwrap(), Some(value_bytes(k)));
    }
    let ps = tree.cfg.page_size as u64;
    for i in 1..tree.pages.len() as u64 {
        let node = match tree.read_node(i * ps) {
            Ok(n) => n,
            Err(_) => continue,
        };
        if node.flag & VALID == VALID && node.flag & MIDDLE_NODE == MIDDLE_NODE {
            if i * ps != tree.root_seek {
                assert!(node.key.len() >= 1);
            }
        }
    }
    // walk the leaf chain: next/prev must be mutually referential
    let pairs = tree.range_search(0, u64::MAX).unwrap();
    assert_eq!(pairs.len(), 10);
    let mut cur = {
        // descend to the leftmost leaf
        let mut seek = tree.root_seek;
        loop {
            let n = tree.read_node(seek).unwrap();
            if n.flag & MIDDLE_NODE == MIDDLE_NODE {
                seek = n.key_seek[0];
            } else {
                break seek;
            }
        }
    };
    let mut hops: usize = 0;
    while cur != 0 {
        let n = tree.read_node(cur).unwrap();
        assert_eq!(n.flag & LEAF, LEAF);
        if n.next != 0 {
            let nx = tree.read_node(n.next).unwrap();
            assert_eq!(nx.prev, cur);
        }
        cur = n.next;
        hops += 1;
        assert!(hops <= tree.pages.len());
    }
}

/// Deleting everything collapses the tree back to an empty root.
#[test]
fn delete_all_collapses_root() {
    let mut tree = Tree::new(Config::default()).unwrap();
    for k in 1..=25u64 {
        tree.insert(k, value_bytes(k)).unwrap();
    }
    for k in 1..=25u64 {
        assert!(tree.delete(k).unwrap());
    }
    for k in 1..=25u64 {
        assert_eq!(tree.search(k).unwrap(), None);
    }
    assert_eq!(tree.range_search(0, u64::MAX).unwrap().len(), 0);
    tree.insert(9, value_bytes(9)).unwrap();
    assert_eq!(tree.search(9).unwrap(), Some(value_bytes(9)));
}

/// Rebuilding twice in a row yields byte-identical pages the second time,
/// and the same query results as before either rebuild.
#[test]
fn rebuild_is_idempotent() {
    let mut tree = Tree::new(Config::default()).unwrap();
    for k in 1..=80u64 {
        tree.insert(k, value_bytes(k * 3)).unwrap();
    }
    for k in (1..=80u64).step_by(3) {
        tree.delete(k).unwrap();
    }
    tree.rebuild().unwrap();
    let once_pages = tree.pages.clone();
    let once_root = tree.root_seek;
    tree.rebuild().unwrap();
    assert_eq!(tree.pages, once_pages);
    assert_eq!(tree.root_seek, once_root);
    for k in 1..=80u64 {
        let expect = if k % 3 == 1 { None } else { Some(value_bytes(k * 3)) };
        assert_eq!(tree.search(k).unwrap(), expect);
    }
}

#[test]
fn bad_config_is_refused() {
    let cfg = Config {
        page_size: 100,
        max_key: 3,
        data_length: 256,
    };
    assert!(matches!(Tree::new(cfg), Err(BPlusError::NodeError(_))));
}

/// The cache keeps recency order: the least recently used entry is the one
/// evicted, and a dirty victim is handed back for write-back.
#[test]
fn cache_lru_eviction_and_write_back() {
    let mut cache = PageCache::new(2);
    let mut a = Node::empty();
    a.seek_start = 16384;
    let mut b = Node::empty();
    b.seek_start = 32768;
    let mut c = Node::empty();
    c.seek_start = 49152;
    assert!(cache.put(16384, a, false).is_none());
    assert!(cache.put(32768, b, true).is_none());
    // touching 16384 makes 32768 the least recently used
    let (a_back, a_dirty) = cache.take(16384).unwrap();
    assert!(!a_dirty);
    assert!(cache.put(16384, a_back, false).is_none());
    let victim = cache.put(49152, c, false).unwrap();
    assert_eq!(victim.seek, 32768);
    assert!(victim.dirty);
    assert!(cache.take(32768).is_none());
    assert!(cache.take(49152).is_some());
}

#[test]
fn cache_pop_dirty_drains_dirty_entries() {
    let mut cache = PageCache::new(4);
    let mut a = Node::empty();
    a.seek_start = 16384;
    let b = Node::empty();
    cache.put(16384, a, true);
    cache.put(32768, b, false);
    let (seek, node) = cache.pop_dirty().unwrap();
    assert_eq!(seek, 16384);
    assert_eq!(node.seek_start, 16384);
    assert!(cache.pop_dirty().is_none());
}

/// After a leaf split every key kept left is below every key moved right,
/// and the separator for the parent is the right sibling's first key.
#[test]
fn split_preserves_order() {
    let mut left = Node::empty();
    left.flag = VALID | LEAF;
    left.seek_start = 16384;
    left.next = 81920;
    left.key = vec![10, 20, 30, 40, 50];
    left.value = (1..=5u64).map(|v| value_bytes(v)).collect();
    left.extra_data = vec![None; 5];
    let right = left.split_leaf(49152);
    assert_eq!(left.key, vec![10, 20]);
    assert_eq!(right.key, vec![30, 40, 50]);
    for l in &left.key {
        for r in &right.key {
            assert!(l < r);
        }
    }
    assert_eq!(right.key[0], 30);
    assert_eq!(left.next, 49152);
    assert_eq!(right.prev, 16384);
    assert_eq!(right.next, 81920);
    assert_eq!(right.seek_start, 49152);
}

/// Merging a right sibling leaf concatenates the entries in order and
/// skips the vanished node in the chain.
#[test]
fn merge_concatenates_and_relinks() {
    let mut left = Node::empty();
    left.flag = VALID | LEAF;
    left.key = vec![1, 2];
    left.value = vec![value_bytes(1), value_bytes(2)];
    left.extra_data = vec![None, None];
    left.next = 32768;
    let mut right = Node::empty();
    right.flag = VALID | LEAF;
    right.key = vec![5, 6];
    right.value = vec![value_bytes(5), value_bytes(6)];
    right.extra_data = vec![None, None];
    right.next = 49152;
    left.merge_leaf(right);
    assert_eq!(left.key, vec![1, 2, 5, 6]);
    assert_eq!(left.next, 49152);
    assert_eq!(left.value.len(), 4);
}

/// An oversized value survives its neighbours' churn: splitting next to it
/// and deleting every other key must relink siblings without flattening the
/// oversized entry back into an inline one.
#[test]
fn oversized_value_survives_neighbor_deletes() {
    let mut tree = Tree::new(Config::default()).unwrap();
    let big: Vec<u8> = (0u32..4000).map(|x| (x * 13 % 256) as u8).collect();
    tree.insert(7, big.clone()).unwrap();
    for k in 1..=20u64 {
        if k != 7 {
            tree.insert(k, value_bytes(k)).unwrap();
        }
    }
    assert_eq!(tree.search(7).unwrap(), Some(big.clone()));
    for k in 1..=20u64 {
        if k != 7 {
            assert!(tree.delete(k).unwrap());
            assert_eq!(tree.search(7).unwrap(), Some(big.clone()));
        }
    }
    let pairs = tree.range_search(0, u64::MAX).unwrap();
    assert_eq!(pairs.len(), 1);
    assert_eq!(pairs[0].0, 7);
    assert_eq!(pairs[0].1, big);
}
