//! The tree engine: point and range search, insertion with splitting,
//! deletion with collapse, and full rebuild, over an in-memory store of
//! fixed-size pages.

use vstd::prelude::*;

use crate::bytes::pad_zeros;
use crate::config::Config;
use crate::error::BPlusError;
use crate::node::{encode_ok, node_bytes, parse_node, sorted, Node, LEAF, MIDDLE_NODE, ROOT, VALID};
use crate::ops::{insert_pos, route_pos, scan_route};
use crate::overflow::{full_value, lemma_page_offset, page_views, read_chain, write_extra_chain};

verus! {

/// The ordered key/value index over an in-memory store of fixed-size
/// pages: page `i` lives at offset `i * page_size`, offset 0 is reserved so
/// that 0 can mean "none" in sibling links and overflow references.
pub struct Tree {
    /// The layout configuration, fixed when the tree is created.
    pub cfg: Config,
    /// The backing pages, each exactly one page long.
    pub pages: Vec<Vec<u8>>,
    /// Offset of the page holding the root node.
    pub root_seek: u64,
}

/// The outcome a point search settles on: `None` for a page the descent
/// cannot trust, `Some(None)` for a clean miss, `Some(Some(v))` for a hit
/// with the value's bytes spliced back out of its overflow chain.
pub open spec fn spec_search(
    pages: Seq<Seq<u8>>,
    cfg: Config,
    seek: u64,
    key: u64,
    fuel: nat,
) -> Option<Option<Seq<u8>>>
    decreases fuel,
{
    if fuel == 0 || seek == 0 {
        None
    } else {
        let idx = seek as int / cfg.page_size as int;
        if seek as int % cfg.page_size as int == 0 && 0 <= idx < pages.len() {
            match parse_node(pages[idx], cfg) {
                None => None,
                Some(n) => {
                    if n.is_internal() {
                        if n.key_seek.len() == n.keys.len() + 1 {
                            spec_search(
                                pages,
                                cfg,
                                n.key_seek[route_pos(n.keys, key)],
                                key,
                                (fuel - 1) as nat,
                            )
                        } else {
                            None
                        }
                    } else if n.is_leaf() {
                        if n.value.len() == n.keys.len() && n.extra_data.len() == n.keys.len() {
                            let pos = insert_pos(n.keys, key);
                            if 0 <= pos < n.keys.len() && n.keys[pos] == key {
                                match full_value(
                                    n.value[pos],
                                    n.extra_data[pos],
                                    pages,
                                    cfg,
                                    (pages.len() + 1) as nat,
                                ) {
                                    None => None,
                                    Some(v) => Some(Some(v)),
                                }
                            } else {
                                Some(None)
                            }
                        } else {
                            None
                        }
                    } else {
                        None
                    }
                },
            }
        } else {
            None
        }
    }
}

/// The outcome a point search settles on at one leaf page: a miss, a hit
/// with the value spliced from its overflow chain, or `None` for a page the
/// search cannot trust (one that parses as an internal node included, since
/// a descent must already have ended).
pub open spec fn spec_leaf_lookup(pages: Seq<Seq<u8>>, cfg: Config, seek: u64, key: u64) -> Option<
    Option<Seq<u8>>,
> {
    if seek == 0 {
        None
    } else {
        let idx = seek as int / cfg.page_size as int;
        if seek as int % cfg.page_size as int == 0 && 0 <= idx < pages.len() {
            match parse_node(pages[idx], cfg) {
                None => None,
                Some(n) => {
                    if n.is_internal() {
                        None
                    } else if n.is_leaf() {
                        if n.value.len() == n.keys.len() && n.extra_data.len() == n.keys.len() {
                            let pos = insert_pos(n.keys, key);
                            if 0 <= pos < n.keys.len() && n.keys[pos] == key {
                                match full_value(
                                    n.value[pos],
                                    n.extra_data[pos],
                                    pages,
                                    cfg,
                                    (pages.len() + 1) as nat,
                                ) {
                                    None => None,
                                    Some(v) => Some(Some(v)),
                                }
                            } else {
                                Some(None)
                            }
                        } else {
                            None
                        }
                    } else {
                        None
                    }
                },
            }
        } else {
            None
        }
    }
}

impl Tree {
    /// The store is usable: a sound configuration, page 0 reserved, every
    /// page exactly one page long, offsets addressable, and the root offset
    /// naming a real page.
    pub open spec fn wf(self) -> bool {
        &&& self.cfg.wf()
        &&& 2 <= self.pages@.len() <= 0x0fff_ffff
        &&& forall|i: int|
            0 <= i < self.pages@.len() ==> (#[trigger] self.pages@[i])@.len()
                == self.cfg.page_size
        &&& self.root_seek != 0
        &&& self.root_seek as int % self.cfg.page_size as int == 0
        &&& (self.root_seek as int / self.cfg.page_size as int) < self.pages@.len()
    }

    /// Checks `wf` at run time, for callers that assemble a tree from pages
    /// read outside.
    pub fn is_wf(&self) -> (r: bool)
        ensures
            r == self.wf(),
    {
        if !self.cfg.is_wf() {
            return false;
        }
        let n = self.pages.len();
        if n < 2 || n > 0x0fff_ffff {
            return false;
        }
        let mut i: usize = 0;
        while i < n
            invariant
                0 <= i <= n,
                n == self.pages@.len(),
                forall|j: int|
                    0 <= j < i ==> (#[trigger] self.pages@[j])@.len() == self.cfg.page_size,
            decreases n - i,
        {
            if self.pages[i].len() != self.cfg.page_size {
                return false;
            }
            i = i + 1;
        }
        if self.root_seek == 0 {
            return false;
        }
        let ps = self.cfg.page_size as u64;
        if self.root_seek % ps != 0 {
            return false;
        }
        if self.root_seek / ps >= n as u64 {
            return false;
        }
        true
    }

    /// Opens a fresh tree: a reserved page 0 and, behind it, an empty leaf
    /// that is the root, so that searching any key misses cleanly. A
    /// configuration whose sizes are inconsistent is refused.
    pub fn new(cfg: Config) -> (r: Result<Tree, BPlusError>)
        ensures
            r matches Ok(t) ==> (t.wf() && t.cfg == cfg && t.pages@.len() == 2),
            r matches Ok(t) ==> (forall|k: u64|
                #[trigger] spec_search(
                    page_views(t.pages@),
                    cfg,
                    t.root_seek,
                    k,
                    (t.pages@.len() + 1) as nat,
                ) == Some(Option::<Seq<u8>>::None)),
            r is Ok <==> cfg.wf(),
            r matches Err(e) ==> e matches BPlusError::NodeError(_),
    {
        if !cfg.is_wf() {
            return Err(BPlusError::NodeError("bad config".to_owned()));
        }
        let mut pages: Vec<Vec<u8>> = Vec::new();
        let mut zero: Vec<u8> = Vec::new();
        pad_zeros(&mut zero, cfg.page_size);
        pages.push(zero);
        let mut root = Node::empty();
        root.flag = VALID | ROOT | LEAF;
        root.seek_start = cfg.page_size as u64;
        proof {
            crate::node::lemma_flag_bits();
        }
        let b = match root.stop(&cfg) {
            Ok(b) => b,
            Err(_) => {
                return Err(BPlusError::NodeError("root encode".to_owned()));
            },
        };
        pages.push(b);
        let t = Tree { cfg, pages, root_seek: cfg.page_size as u64 };
        proof {
            lemma_page_offset(1, cfg.page_size as int);
            let views = page_views(t.pages@);
            let fuel = (t.pages@.len() + 1) as nat;
            assert(views[1] == b@);
            crate::node::lemma_node_round_trip(root@, cfg);
            let m = parse_node(b@, cfg).unwrap();
            assert(m.keys.len() == 0 && m.value.len() == 0 && m.extra_data.len() == 0);
            assert forall|k: u64| #[trigger] spec_search(views, cfg, t.root_seek, k, fuel) == Some(
                Option::<Seq<u8>>::None,
            ) by {
                assert(t.root_seek as int / cfg.page_size as int == 1);
                assert(crate::ops::insert_pos(m.keys, k) == 0);
            };
        }
        Ok(t)
    }

    /// The index of the page at offset `seek`, or `None` when the offset is
    /// 0, unaligned, or past the store.
    fn index_of(&self, seek: u64) -> (r: Option<usize>)
        requires
            self.wf(),
        ensures
            r matches Some(i) ==> (seek != 0 && seek as int % self.cfg.page_size as int == 0 && i
                == seek as int / self.cfg.page_size as int && i < self.pages@.len()),
            r is None <==> (seek == 0 || seek as int % self.cfg.page_size as int != 0
                || seek as int / self.cfg.page_size as int >= self.pages@.len()),
    {
        if seek == 0 {
            return None;
        }
        let ps = self.cfg.page_size as u64;
        if seek % ps != 0 {
            return None;
        }
        let idx = seek / ps;
        if idx >= self.pages.len() as u64 {
            return None;
        }
        Some(idx as usize)
    }

    /// Extends the store by one zeroed page and returns its offset; refuses
    /// with `PageMax` a store past the offsets the format can address.
    fn alloc_page(&mut self) -> (r: Result<u64, BPlusError>)
        requires
            old(self).wf(),
        ensures
            final(self).cfg == old(self).cfg,
            final(self).root_seek == old(self).root_seek,
            final(self).wf(),
            r matches Err(e) ==> (e matches BPlusError::PageMax && *final(self) == *old(self)),
            r matches Ok(seek) ==> ({
                &&& final(self).pages@.len() == old(self).pages@.len() + 1
                &&& forall|i: int|
                    0 <= i < old(self).pages@.len() ==> final(self).pages@[i] == old(
                        self,
                    ).pages@[i]
                &&& seek != 0
                &&& seek as int % old(self).cfg.page_size as int == 0
                &&& (seek as int / old(self).cfg.page_size as int) == old(self).pages@.len()
            }),
    {
        if self.pages.len() >= 0x0fff_ffff {
            return Err(BPlusError::PageMax);
        }
        proof {
            crate::overflow::lemma_mul_bound(
                self.pages@.len() as int,
                self.cfg.page_size as int,
                0x0fff_ffff,
                0x1000_0000,
            );
            lemma_page_offset(self.pages@.len() as int, self.cfg.page_size as int);
        }
        let seek = (self.pages.len() as u64) * (self.cfg.page_size as u64);
        let mut zero: Vec<u8> = Vec::new();
        pad_zeros(&mut zero, self.cfg.page_size);
        self.pages.push(zero);
        Ok(seek)
    }

    /// Reads and decodes the node stored at `seek`. A leaf comes back in
    /// navigation form: keys, overflow references and inline bytes, chains
    /// not walked.
    pub fn read_node(&self, seek: u64) -> (r: Result<Node, BPlusError>)
        requires
            self.wf(),
        ensures
            ({
                let idx = seek as int / self.cfg.page_size as int;
                &&& (r is Ok <==> (seek != 0 && seek as int % self.cfg.page_size as int == 0
                    && idx < self.pages@.len() && parse_node(self.pages@[idx]@, self.cfg) is Some))
                &&& (r matches Ok(n) ==> (parse_node(self.pages@[idx]@, self.cfg) matches Some(m)
                    && n@ == m && n.seek_start == seek && !n.is_change))
                &&& (r matches Err(e) ==> e matches BPlusError::Corrupt)
            }),
    {
        let idx = match self.index_of(seek) {
            Some(i) => i,
            None => {
                return Err(BPlusError::Corrupt);
            },
        };
        Node::new_node_from_byte(seek, &self.pages[idx], &self.cfg)
    }

    /// Encodes `node` and writes it back over its page. Fails with the
    /// encoder's error when the node cannot be encoded, or `Corrupt` when
    /// its offset names no page.
    fn write_node(&mut self, node: &Node) -> (r: Result<(), BPlusError>)
        requires
            old(self).wf(),
            node@.shape_wf(),
        ensures
            final(self).cfg == old(self).cfg,
            final(self).root_seek == old(self).root_seek,
            final(self).wf(),
            final(self).pages@.len() == old(self).pages@.len(),
            r is Err ==> *final(self) == *old(self),
            r is Ok <==> (node.seek_start != 0 && node.seek_start as int
                % old(self).cfg.page_size as int == 0 && (node.seek_start as int
                / old(self).cfg.page_size as int) < old(self).pages@.len() && encode_ok(
                node@,
                old(self).cfg,
            )),
            r matches Ok(_) ==> ({
                let idx = node.seek_start as int / old(self).cfg.page_size as int;
                &&& final(self).pages@[idx]@ == node_bytes(node@, old(self).cfg)
                &&& forall|i: int|
                    0 <= i < old(self).pages@.len() && i != idx ==> final(self).pages@[i] == old(
                        self,
                    ).pages@[i]
            }),
    {
        let idx = match self.index_of(node.seek_start) {
            Some(i) => i,
            None => {
                return Err(BPlusError::Corrupt);
            },
        };
        let b = match node.stop(&self.cfg) {
            Ok(b) => b,
            Err(e) => {
                return Err(e);
            },
        };
        self.pages[idx] = b;
        Ok(())
    }

    /// Overwrites the page at `seek` with a zeroed (free) page.
    fn free_page(&mut self, seek: u64)
        requires
            old(self).wf(),
        ensures
            final(self).cfg == old(self).cfg,
            final(self).root_seek == old(self).root_seek,
            final(self).wf(),
            final(self).pages@.len() == old(self).pages@.len(),
    {
        let idx = match self.index_of(seek) {
            Some(i) => i,
            None => {
                return ;
            },
        };
        let mut zero: Vec<u8> = Vec::new();
        pad_zeros(&mut zero, self.cfg.page_size);
        self.pages[idx] = zero;
    }

    /// Point search: descends separators from the root to a leaf and looks
    /// the key up there, splicing an oversized value back together from its
    /// overflow chain. `Ok(None)` is a clean miss; `Corrupt` reports a page
    /// the descent cannot trust.
    pub fn search(&self, key: u64) -> (r: Result<Option<Vec<u8>>, BPlusError>)
        requires
            self.wf(),
        ensures
            ({
                let res = spec_search(
                    page_views(self.pages@),
                    self.cfg,
                    self.root_seek,
                    key,
                    (self.pages@.len() + 1) as nat,
                );
                &&& (r is Ok <==> res is Some)
                &&& (r matches Ok(v) ==> (res matches Some(x) && (match (v, x) {
                    (Some(vv), Some(xx)) => vv@ == xx,
                    (None, None) => true,
                    _ => false,
                })))
                &&& (r matches Err(e) ==> e matches BPlusError::Corrupt)
            }),
    {
        let ghost views = page_views(self.pages@);
        let ghost fuel0 = (self.pages@.len() + 1) as nat;
        let ghost whole = spec_search(views, self.cfg, self.root_seek, key, fuel0);
        let fuel: usize = self.pages.len() + 1;
        let mut cur: u64 = self.root_seek;
        let mut steps: usize = 0;
        while steps < fuel
            invariant
                self.wf(),
                views == page_views(self.pages@),
                fuel == self.pages@.len() + 1,
                whole == spec_search(views, self.cfg, self.root_seek, key, fuel0),
                fuel0 == fuel as nat,
                0 <= steps <= fuel,
                whole == spec_search(views, self.cfg, cur, key, (fuel - steps) as nat),
            decreases fuel - steps,
        {
            let node = match self.read_node(cur) {
                Ok(n) => n,
                Err(_) => {
                    return Err(BPlusError::Corrupt);
                },
            };
            proof {
                let idx = cur as int / self.cfg.page_size as int;
                assert(views[idx] == self.pages@[idx]@);
            }
            if node.flag & MIDDLE_NODE == MIDDLE_NODE {
                if node.key_seek.len() == 0 || node.key_seek.len() - 1 != node.key.len() {
                    return Err(BPlusError::Corrupt);
                }
                let c = scan_route(&node.key, key);
                cur = node.key_seek[c];
                steps = steps + 1;
            } else if node.flag & LEAF == LEAF {
                if node.value.len() != node.key.len() || node.extra_data.len() != node.key.len() {
                    return Err(BPlusError::Corrupt);
                }
                let (pos, found) = crate::ops::scan_pos(&node.key, key);
                if !found {
                    return Ok(None);
                }
                let vlen = node.value[pos].len();
                let mut v = crate::bytes::copy_range(node.value[pos].as_slice(), 0, vlen);
                proof {
                    assert(node@.value[pos as int] == node.value@[pos as int]@);
                }
                match node.extra_data[pos] {
                    Some(h) => {
                        match read_chain(&self.pages, h, &self.cfg) {
                            Ok(mut c) => {
                                v.append(&mut c);
                                return Ok(Some(v));
                            },
                            Err(_) => {
                                return Err(BPlusError::Corrupt);
                            },
                        }
                    },
                    None => {
                        return Ok(Some(v));
                    },
                }
            } else {
                return Err(BPlusError::Corrupt);
            }
        }
        proof {
            assert(whole is None);
        }
        Err(BPlusError::Corrupt)
    }

    /// Descends from the root to the leaf that owns `key`, recording at each
    /// internal node its offset and the child index taken, so that the whole
    /// point search settles on looking the key up in the leaf reached. Fails
    /// with `Corrupt` when a page on the way cannot be trusted.
    fn descend(&self, key: u64) -> (r: Result<(Vec<(u64, usize)>, u64), BPlusError>)
        requires
            self.wf(),
        ensures
            r matches Err(e) ==> e matches BPlusError::Corrupt,
            r is Err ==> spec_search(
                page_views(self.pages@),
                self.cfg,
                self.root_seek,
                key,
                (self.pages@.len() + 1) as nat,
            ) is None,
            r matches Ok(p) ==> p.1 != 0,
            r matches Ok(p) ==> spec_search(
                page_views(self.pages@),
                self.cfg,
                self.root_seek,
                key,
                (self.pages@.len() + 1) as nat,
            ) == spec_leaf_lookup(page_views(self.pages@), self.cfg, p.1, key),
    {
        let ghost views = page_views(self.pages@);
        let ghost fuel0 = (self.pages@.len() + 1) as nat;
        let ghost whole = spec_search(views, self.cfg, self.root_seek, key, fuel0);
        let mut path: Vec<(u64, usize)> = Vec::new();
        let mut cur: u64 = self.root_seek;
        let fuel: usize = self.pages.len() + 1;
        let mut steps: usize = 0;
        while steps < fuel
            invariant
                self.wf(),
                views == page_views(self.pages@),
                fuel == self.pages@.len() + 1,
                whole == spec_search(views, self.cfg, self.root_seek, key, fuel0),
                fuel0 == fuel as nat,
                0 <= steps <= fuel,
                whole == spec_search(views, self.cfg, cur, key, (fuel - steps) as nat),
            decreases fuel - steps,
        {
            let node = match self.read_node(cur) {
                Ok(n) => n,
                Err(e) => {
                    return Err(e);
                },
            };
            proof {
                let idx = cur as int / self.cfg.page_size as int;
                assert(views[idx] == self.pages@[idx]@);
            }
            if node.flag & MIDDLE_NODE == MIDDLE_NODE {
                if node.key_seek.len() == 0 || node.key_seek.len() - 1 != node.key.len() {
                    return Err(BPlusError::Corrupt);
                }
                let c = scan_route(&node.key, key);
                path.push((cur, c));
                cur = node.key_seek[c];
                steps = steps + 1;
            } else if node.flag & LEAF == LEAF {
                proof {
                    assert(whole == spec_leaf_lookup(views, self.cfg, cur, key));
                }
                return Ok((path, cur));
            } else {
                return Err(BPlusError::Corrupt);
            }
        }
        proof {
            assert(whole is None);
        }
        Err(BPlusError::Corrupt)
    }

    /// Reads the leaf at `seek` in full: keys checked sorted, every value
    /// spliced back together with its overflow chain, so that the node's
    /// entries are exactly what a point search of this page would settle on.
    fn read_leaf_full(&self, seek: u64) -> (r: Result<Node, BPlusError>)
        requires
            self.wf(),
        ensures
            r matches Err(e) ==> e matches BPlusError::Corrupt,
            r matches Ok(n) ==> ({
                &&& n.seek_start == seek
                &&& crate::node::has_bit(n.flag, LEAF)
                &&& !crate::node::has_bit(n.flag, MIDDLE_NODE)
                &&& n.value@.len() == n.key@.len()
                &&& n.extra_data@.len() == n.key@.len()
                &&& n.key_seek@.len() == 0
                &&& sorted(n.key@)
                &&& seek != 0 && seek as int % self.cfg.page_size as int == 0 && (seek as int
                    / self.cfg.page_size as int) < self.pages@.len()
            }),
            r matches Ok(n) ==> ({
                let idx = seek as int / self.cfg.page_size as int;
                let views = page_views(self.pages@);
                let fuel = (self.pages@.len() + 1) as nat;
                &&& parse_node(self.pages@[idx]@, self.cfg) matches Some(m)
                &&& m.is_leaf() && !m.is_internal()
                &&& m.value.len() == m.keys.len() && m.extra_data.len() == m.keys.len()
                &&& n.key@ == m.keys
                &&& n.extra_data@ == m.extra_data
                &&& (forall|i: int|
                    0 <= i < m.keys.len() ==> ((#[trigger] full_value(
                        m.value[i],
                        m.extra_data[i],
                        views,
                        self.cfg,
                        fuel,
                    )) matches Some(fv) && n@.value[i] == fv))
            }),
    {
        let idx = match self.index_of(seek) {
            Some(i) => i,
            None => {
                return Err(BPlusError::Corrupt);
            },
        };
        let mut node = match Node::new_node_from_byte(seek, &self.pages[idx], &self.cfg) {
            Ok(n) => n,
            Err(e) => {
                return Err(e);
            },
        };
        if node.flag & LEAF != LEAF || node.flag & MIDDLE_NODE == MIDDLE_NODE {
            return Err(BPlusError::Corrupt);
        }
        let count = node.key.len() as u64;
        let ghost b = self.pages@[idx as int]@;
        let ghost m = parse_node(b, self.cfg).unwrap();
        proof {
            assert(node@ == m);
            assert(count as nat == m.keys.len());
        }
        match node.data_decode(&self.pages[idx], count, &self.pages, &self.cfg) {
            Ok(()) => {},
            Err(e) => {
                return Err(e);
            },
        }
        proof {
            crate::node::lemma_parse_entries_lens(
                b,
                crate::config::NODE_FIXED_SIZE as int,
                count as nat,
            );
            let p = crate::node::parse_entries(
                b,
                crate::config::NODE_FIXED_SIZE as int,
                count as nat,
            ).unwrap();
            assert(p.0 == m.keys && p.1 == m.value && p.2 == m.extra_data) by {
                if !crate::node::has_bit(m.flag, VALID) {
                    assert(p.0 =~= m.keys);
                    assert(p.1 =~= m.value);
                    assert(p.2 =~= m.extra_data);
                } else if crate::node::has_bit(m.flag, crate::node::EXTRA_DATA) {
                    assert(p.0 =~= m.keys);
                    assert(p.1 =~= m.value);
                    assert(p.2 =~= m.extra_data);
                } else {
                    let dc = crate::node::parse_u64_at(b, 9);
                    crate::node::lemma_parse_entries_lens(
                        b,
                        crate::config::NODE_FIXED_SIZE as int,
                        dc as nat,
                    );
                    assert(count as nat == dc as nat);
                }
            }
        }
        if node.value.len() != node.key.len() || node.extra_data.len() != node.key.len()
            || node.key_seek.len() != 0 {
            return Err(BPlusError::Corrupt);
        }
        if !crate::ops::check_sorted(&node.key) {
            return Err(BPlusError::Corrupt);
        }
        Ok(node)
    }

    /// Reads the node at `seek` for rewriting. A leaf comes back in full,
    /// its oversized values spliced with their chains, so that re-encoding
    /// it reproduces the overflow layout instead of flattening a stored
    /// prefix into an inline value; any other node comes back as decoded.
    fn read_for_update(&self, seek: u64) -> (r: Result<Node, BPlusError>)
        requires
            self.wf(),
        ensures
            r matches Err(e) ==> e matches BPlusError::Corrupt,
            r matches Ok(n) ==> (n@.shape_wf() && n.seek_start == seek && seek != 0 && seek as int
                % self.cfg.page_size as int == 0 && (seek as int / self.cfg.page_size as int)
                < self.pages@.len()),
    {
        let node = match self.read_node(seek) {
            Ok(n) => n,
            Err(e) => {
                return Err(e);
            },
        };
        if node.flag & LEAF == LEAF && node.flag & MIDDLE_NODE != MIDDLE_NODE {
            let full = match self.read_leaf_full(seek) {
                Ok(n) => n,
                Err(e) => {
                    return Err(e);
                },
            };
            return Ok(full);
        }
        if !node.shape_ok() {
            return Err(BPlusError::Corrupt);
        }
        Ok(node)
    }

    /// Inserts `value` under `key`, replacing any previous value; it
    /// succeeds only on a store whose point search for the key settles (hit
    /// or clean miss), never on one the descent distrusts. A value beyond
    /// the slot budget first gets an overflow chain; a leaf that can no
    /// longer encode splits, and separators propagate upward, splitting
    /// internal nodes past the fan-out bound up to a fresh root.
    pub fn insert(&mut self, key: u64, value: Vec<u8>) -> (r: Result<(), BPlusError>)
        requires
            old(self).wf(),
        ensures
            final(self).wf(),
            final(self).cfg == old(self).cfg,
            r is Ok ==> spec_search(
                page_views(old(self).pages@),
                old(self).cfg,
                old(self).root_seek,
                key,
                (old(self).pages@.len() + 1) as nat,
            ) is Some,
    {
        let ghost views0 = page_views(old(self).pages@);
        let ghost fuel0 = (old(self).pages@.len() + 1) as nat;
        let ghost res0 = spec_search(views0, self.cfg, self.root_seek, key, fuel0);
        let (path, leaf_seek) = match self.descend(key) {
            Ok(p) => p,
            Err(e) => {
                return Err(e);
            },
        };
        let mut leaf = match self.read_leaf_full(leaf_seek) {
            Ok(n) => n,
            Err(e) => {
                return Err(e);
            },
        };
        proof {
            let m = parse_node(
                self.pages@[leaf_seek as int / self.cfg.page_size as int]@,
                self.cfg,
            ).unwrap();
            crate::ops::lemma_insert_pos_bounds(m.keys, key);
            let pos = insert_pos(m.keys, key);
            if 0 <= pos < m.keys.len() && m.keys[pos] == key {
                assert(full_value(m.value[pos], m.extra_data[pos], views0, self.cfg, fuel0)
                    is Some);
            }
            assert(res0 is Some);
        }
        let budget = self.cfg.slot_budget();
        let mut extra: Option<u64> = None;
        if value.len() > budget {
            let head = match write_extra_chain(&mut self.pages, &value, budget, &self.cfg) {
                Ok(h) => h,
                Err(e) => {
                    return Err(e);
                },
            };
            extra = Some(head);
        }
        leaf.leaf_insert(key, value, extra);
        leaf.is_change = true;
        if leaf.key.len() <= self.cfg.max_key {
            match self.write_node(&leaf) {
                Ok(()) => {
                    return Ok(());
                },
                Err(_) => {},
            }
        }
        // the leaf is past the fan-out bound or no longer encodes: split it
        // and propagate the separator
        if leaf.key.len() < 2 {
            return Err(BPlusError::PageMax);
        }
        let new_seek = match self.alloc_page() {
            Ok(s) => s,
            Err(e) => {
                return Err(e);
            },
        };
        let right = leaf.split_leaf(new_seek);
        proof {
            crate::node::lemma_flag_bits();
        }
        leaf.flag = VALID | LEAF;
        match self.write_node(&leaf) {
            Ok(()) => {},
            Err(e) => {
                return Err(e);
            },
        }
        match self.write_node(&right) {
            Ok(()) => {},
            Err(e) => {
                return Err(e);
            },
        }
        if right.next != 0 {
            let mut nb = match self.read_for_update(right.next) {
                Ok(n) => n,
                Err(e) => {
                    return Err(e);
                },
            };
            nb.prev = new_seek;
            if !nb.shape_ok() {
                return Err(BPlusError::Corrupt);
            }
            match self.write_node(&nb) {
                Ok(()) => {},
                Err(e) => {
                    return Err(e);
                },
            }
        }
        let mut sep: u64 = right.key[0];
        let mut child: u64 = new_seek;
        let mut left_seek: u64 = leaf_seek;
        let mut k = path.len();
        let mut done = false;
        while k > 0 && !done
            invariant
                self.wf(),
                self.cfg == old(self).cfg,
                0 <= k <= path@.len(),
            decreases k,
        {
            k = k - 1;
            let (pseek, _c) = path[k];
            let mut parent = match self.read_node(pseek) {
                Ok(n) => n,
                Err(e) => {
                    return Err(e);
                },
            };
            if parent.flag & MIDDLE_NODE != MIDDLE_NODE || !parent.shape_ok() {
                return Err(BPlusError::Corrupt);
            }
            if !crate::ops::check_sorted(&parent.key) {
                return Err(BPlusError::Corrupt);
            }
            let (_p, dup) = crate::ops::scan_pos(&parent.key, sep);
            if dup {
                return Err(BPlusError::Corrupt);
            }
            parent.internal_insert(sep, child);
            if parent.key.len() <= self.cfg.max_key {
                match self.write_node(&parent) {
                    Ok(()) => {},
                    Err(e) => {
                        return Err(e);
                    },
                }
                done = true;
            } else {
                if parent.key.len() < 3 {
                    return Err(BPlusError::Corrupt);
                }
                let ns2 = match self.alloc_page() {
                    Ok(s) => s,
                    Err(e) => {
                        return Err(e);
                    },
                };
                let (r2, sep2) = parent.split_internal(ns2);
                proof {
                    crate::node::lemma_flag_bits();
                }
                parent.flag = VALID | MIDDLE_NODE;
                match self.write_node(&parent) {
                    Ok(()) => {},
                    Err(e) => {
                        return Err(e);
                    },
                }
                match self.write_node(&r2) {
                    Ok(()) => {},
                    Err(e) => {
                        return Err(e);
                    },
                }
                sep = sep2;
                child = ns2;
                left_seek = pseek;
            }
        }
        if !done {
            // the root itself split: raise a new root over the two halves
            let rs = match self.alloc_page() {
                Ok(s) => s,
                Err(e) => {
                    return Err(e);
                },
            };
            let mut newroot = Node::empty();
            newroot.flag = VALID | ROOT | MIDDLE_NODE;
            newroot.seek_start = rs;
            newroot.key.push(sep);
            newroot.key_seek.push(left_seek);
            newroot.key_seek.push(child);
            proof {
                crate::node::lemma_flag_bits();
            }
            match self.write_node(&newroot) {
                Ok(()) => {},
                Err(e) => {
                    return Err(e);
                },
            }
            self.root_seek = rs;
        }
        Ok(())
    }

    /// Frees every page of the overflow chain at `head`, following
    /// successor offsets; it stops quietly at anything that does not parse,
    /// leaving the rest for a rebuild to reclaim.
    fn free_chain(&mut self, head: u64)
        requires
            old(self).wf(),
        ensures
            final(self).wf(),
            final(self).cfg == old(self).cfg,
            final(self).root_seek == old(self).root_seek,
            final(self).pages@.len() == old(self).pages@.len(),
    {
        let mut cur: u64 = head;
        let fuel: usize = self.pages.len();
        let mut steps: usize = 0;
        while cur != 0 && steps < fuel
            invariant
                self.wf(),
                self.cfg == old(self).cfg,
                self.root_seek == old(self).root_seek,
                self.pages@.len() == old(self).pages@.len(),
                fuel == self.pages@.len(),
                0 <= steps <= fuel,
            decreases fuel - steps,
        {
            let idx = match self.index_of(cur) {
                Some(i) => i,
                None => {
                    return ;
                },
            };
            let next = match crate::overflow::ExtraData::data_extra_decode(&self.pages[idx], cur) {
                Ok((_piece, next)) => next,
                Err(_) => {
                    return ;
                },
            };
            self.free_page(cur);
            cur = next;
            steps = steps + 1;
        }
    }

    /// Deletes the entry for `key`, returning whether it existed: `true`
    /// exactly when a point search of the store as given would have hit it.
    /// The freed entry's overflow chain is freed with it. A leaf emptied by
    /// the delete is merged into its left sibling under the same parent (or
    /// unlinked, when it has none) and removed from the parent; an internal
    /// node left with a single child collapses into it, the root included.
    #[verifier::rlimit(100)]
    pub fn delete(&mut self, key: u64) -> (r: Result<bool, BPlusError>)
        requires
            old(self).wf(),
        ensures
            final(self).wf(),
            final(self).cfg == old(self).cfg,
            r matches Ok(false) ==> *final(self) == *old(self),
            r matches Ok(b) ==> ({
                let res = spec_search(
                    page_views(old(self).pages@),
                    old(self).cfg,
                    old(self).root_seek,
                    key,
                    (old(self).pages@.len() + 1) as nat,
                );
                &&& (b ==> res matches Some(Some(_)))
                &&& (!b ==> res == Some(Option::<Seq<u8>>::None))
            }),
    {
        let ghost views0 = page_views(old(self).pages@);
        let ghost fuel0 = (old(self).pages@.len() + 1) as nat;
        let ghost res0 = spec_search(views0, self.cfg, self.root_seek, key, fuel0);
        let (path, leaf_seek) = match self.descend(key) {
            Ok(p) => p,
            Err(e) => {
                return Err(e);
            },
        };
        let mut leaf = match self.read_leaf_full(leaf_seek) {
            Ok(n) => n,
            Err(e) => {
                return Err(e);
            },
        };
        let ghost keys0 = leaf.key@;
        let ghost m = parse_node(
            self.pages@[leaf_seek as int / self.cfg.page_size as int]@,
            self.cfg,
        ).unwrap();
        let removed = leaf.leaf_delete(key);
        proof {
            crate::ops::lemma_insert_pos_bounds(m.keys, key);
            let pos = insert_pos(m.keys, key);
            match removed {
                Some(_) => {
                    assert(0 <= pos < m.keys.len() && m.keys[pos] == key);
                    assert(full_value(m.value[pos], m.extra_data[pos], views0, self.cfg, fuel0)
                        is Some);
                    assert(res0 matches Some(Some(_)));
                },
                None => {
                    assert(!(0 <= pos < m.keys.len() && m.keys[pos] == key)) by {
                        if 0 <= pos < m.keys.len() && m.keys[pos] == key {
                            assert(keys0.contains(key));
                        }
                    }
                    assert(res0 == Some(Option::<Seq<u8>>::None));
                },
            }
        }
        let freed: Option<u64> = match &removed {
            Some((_v, e)) => *e,
            None => None,
        };
        if removed.is_none() {
            return Ok(false);
        }
        leaf.is_change = true;
        if leaf.key.len() > 0 || path.len() == 0 {
            match self.write_node(&leaf) {
                Ok(()) => {
                    match freed {
                        Some(h) => {
                            self.free_chain(h);
                        },
                        None => {},
                    }
                    return Ok(true);
                },
                Err(e) => {
                    return Err(e);
                },
            }
        }
        // an empty non-root leaf vanishes: it merges into its left sibling
        // under the same parent, or is unlinked when it has none, and its
        // entry leaves the parent
        let (pseek, cidx) = path[path.len() - 1];
        let mut parent = match self.read_node(pseek) {
            Ok(n) => n,
            Err(e) => {
                return Err(e);
            },
        };
        if parent.flag & MIDDLE_NODE != MIDDLE_NODE || !parent.shape_ok() {
            return Err(BPlusError::Corrupt);
        }
        if !crate::ops::check_sorted(&parent.key) {
            return Err(BPlusError::Corrupt);
        }
        if cidx >= parent.key_seek.len() || parent.key.len() == 0 {
            return Err(BPlusError::Corrupt);
        }
        let leaf_next = leaf.next;
        let new_prev: u64;
        if cidx >= 1 {
            let left_seek = parent.key_seek[cidx - 1];
            let mut left = match self.read_leaf_full(left_seek) {
                Ok(n) => n,
                Err(e) => {
                    return Err(e);
                },
            };
            left.merge_leaf(leaf);
            left.is_change = true;
            match self.write_node(&left) {
                Ok(()) => {},
                Err(e) => {
                    return Err(e);
                },
            }
            new_prev = left_seek;
        } else {
            new_prev = leaf.prev;
            if leaf.prev != 0 {
                let mut p = match self.read_for_update(leaf.prev) {
                    Ok(n) => n,
                    Err(e) => {
                        return Err(e);
                    },
                };
                p.next = leaf_next;
                if !p.shape_ok() {
                    return Err(BPlusError::Corrupt);
                }
                match self.write_node(&p) {
                    Ok(()) => {},
                    Err(e) => {
                        return Err(e);
                    },
                }
            }
        }
        if leaf_next != 0 {
            let mut p = match self.read_for_update(leaf_next) {
                Ok(n) => n,
                Err(e) => {
                    return Err(e);
                },
            };
            p.prev = new_prev;
            if !p.shape_ok() {
                return Err(BPlusError::Corrupt);
            }
            match self.write_node(&p) {
                Ok(()) => {},
                Err(e) => {
                    return Err(e);
                },
            }
        }
        self.free_page(leaf_seek);
        if cidx == 0 {
            parent.internal_remove_first();
        } else {
            parent.internal_remove(cidx - 1);
        }
        if parent.key.len() >= 1 {
            match self.write_node(&parent) {
                Ok(()) => {
                    match freed {
                        Some(h) => {
                            self.free_chain(h);
                        },
                        None => {},
                    }
                    return Ok(true);
                },
                Err(e) => {
                    return Err(e);
                },
            }
        }
        // the parent keeps a single child: collapse it
        let only = parent.key_seek[0];
        if path.len() == 1 {
            // the root collapses into its remaining child
            let mut c = match self.read_for_update(only) {
                Ok(n) => n,
                Err(e) => {
                    return Err(e);
                },
            };
            c.flag = c.flag | ROOT;
            if !c.shape_ok() {
                return Err(BPlusError::Corrupt);
            }
            match self.write_node(&c) {
                Ok(()) => {},
                Err(e) => {
                    return Err(e);
                },
            }
            self.free_page(pseek);
            self.root_seek = only;
            match freed {
                Some(h) => {
                    self.free_chain(h);
                },
                None => {},
            }
            return Ok(true);
        }
        let (gseek, gidx) = path[path.len() - 2];
        let mut g = match self.read_node(gseek) {
            Ok(n) => n,
            Err(e) => {
                return Err(e);
            },
        };
        if g.flag & MIDDLE_NODE != MIDDLE_NODE || !g.shape_ok() {
            return Err(BPlusError::Corrupt);
        }
        if gidx >= g.key_seek.len() {
            return Err(BPlusError::Corrupt);
        }
        g.internal_set_child(gidx, only);
        if !g.shape_ok() {
            return Err(BPlusError::Corrupt);
        }
        match self.write_node(&g) {
            Ok(()) => {},
            Err(e) => {
                return Err(e);
            },
        }
        self.free_page(pseek);
        match freed {
            Some(h) => {
                self.free_chain(h);
            },
            None => {},
        }
        Ok(true)
    }

    /// Range search over the closed interval `[start, end]`: walks the leaf
    /// sibling chain from the leaf owning `start` and returns the pairs it
    /// finds, in strictly ascending key order, every key within the bounds;
    /// it succeeds only on a store whose point search for `start` settles.
    pub fn range_search(&self, start: u64, end: u64) -> (r: Result<
        Vec<(u64, Vec<u8>)>,
        BPlusError,
    >)
        requires
            self.wf(),
            start <= end,
        ensures
            r matches Ok(v) ==> ({
                &&& forall|i: int| 0 <= i < v@.len() ==> start <= (#[trigger] v@[i]).0 <= end
                &&& forall|i: int, j: int| 0 <= i < j < v@.len() ==> v@[i].0 < v@[j].0
            }),
            r is Ok ==> spec_search(
                page_views(self.pages@),
                self.cfg,
                self.root_seek,
                start,
                (self.pages@.len() + 1) as nat,
            ) is Some,
            r matches Err(e) ==> e matches BPlusError::Corrupt,
    {
        let r = match self.descend(start) {
            Ok(p) => p,
            Err(e) => {
                return Err(e);
            },
        };
        let ghost first: u64 = r.1;
        let mut cur: u64 = r.1;
        let mut out: Vec<(u64, Vec<u8>)> = Vec::new();
        let mut last: Option<u64> = None;
        let fuel: usize = self.pages.len() + 1;
        let mut steps: usize = 0;
        while cur != 0 && steps < fuel
            invariant
                self.wf(),
                fuel == self.pages@.len() + 1,
                0 <= steps <= fuel,
                start <= end,
                first != 0,
                steps == 0 ==> cur == first,
                spec_search(
                    page_views(self.pages@),
                    self.cfg,
                    self.root_seek,
                    start,
                    (self.pages@.len() + 1) as nat,
                ) == spec_leaf_lookup(page_views(self.pages@), self.cfg, first, start),
                steps > 0 ==> spec_search(
                    page_views(self.pages@),
                    self.cfg,
                    self.root_seek,
                    start,
                    (self.pages@.len() + 1) as nat,
                ) is Some,
                forall|i: int| 0 <= i < out@.len() ==> start <= (#[trigger] out@[i]).0 <= end,
                forall|i: int, j: int| 0 <= i < j < out@.len() ==> out@[i].0 < out@[j].0,
                match last {
                    Some(l) => out@.len() > 0 && out@[out@.len() - 1].0 == l && (forall|i: int|
                        0 <= i < out@.len() ==> (#[trigger] out@[i]).0 <= l),
                    None => out@.len() == 0,
                },
            decreases fuel - steps,
        {
            let leaf = match self.read_leaf_full(cur) {
                Ok(n) => n,
                Err(e) => {
                    return Err(e);
                },
            };
            proof {
                if steps == 0 {
                    let m = parse_node(
                        self.pages@[first as int / self.cfg.page_size as int]@,
                        self.cfg,
                    ).unwrap();
                    crate::ops::lemma_insert_pos_bounds(m.keys, start);
                    let pos = insert_pos(m.keys, start);
                    if 0 <= pos < m.keys.len() && m.keys[pos] == start {
                        assert(full_value(
                            m.value[pos],
                            m.extra_data[pos],
                            page_views(self.pages@),
                            self.cfg,
                            (self.pages@.len() + 1) as nat,
                        ) is Some);
                    }
                }
            }
            let n = leaf.key.len();
            let mut i: usize = 0;
            while i < n
                invariant
                    self.wf(),
                    n == leaf.key@.len(),
                    leaf.value@.len() == n,
                    0 <= i <= n,
                    start <= end,
                    spec_search(
                        page_views(self.pages@),
                        self.cfg,
                        self.root_seek,
                        start,
                        (self.pages@.len() + 1) as nat,
                    ) is Some,
                    forall|w: int| 0 <= w < out@.len() ==> start <= (#[trigger] out@[w]).0 <= end,
                    forall|w: int, j: int| 0 <= w < j < out@.len() ==> out@[w].0 < out@[j].0,
                    match last {
                        Some(l) => out@.len() > 0 && out@[out@.len() - 1].0 == l && (forall|w: int|
                            0 <= w < out@.len() ==> (#[trigger] out@[w]).0 <= l),
                        None => out@.len() == 0,
                    },
                decreases n - i,
            {
                let k = leaf.key[i];
                if k > end {
                    return Ok(out);
                }
                if k >= start {
                    match last {
                        Some(l) => {
                            if k <= l {
                                return Err(BPlusError::Corrupt);
                            }
                        },
                        None => {},
                    }
                    let vlen = leaf.value[i].len();
                    let v = crate::bytes::copy_range(leaf.value[i].as_slice(), 0, vlen);
                    out.push((k, v));
                    last = Some(k);
                }
                i = i + 1;
            }
            cur = leaf.next;
            steps = steps + 1;
        }
        if cur == 0 {
            Ok(out)
        } else {
            Err(BPlusError::Corrupt)
        }
    }

    /// Rebuilds the tree: every live entry is read off the leaf chain and
    /// reinserted into a freshly allocated store, reclaiming the space of
    /// freed pages and unreferenced overflow chains; it succeeds only on a
    /// store whose leftmost descent settles.
    pub fn rebuild(&mut self) -> (r: Result<(), BPlusError>)
        requires
            old(self).wf(),
        ensures
            final(self).wf(),
            final(self).cfg == old(self).cfg,
            r is Ok ==> spec_search(
                page_views(old(self).pages@),
                old(self).cfg,
                old(self).root_seek,
                0,
                (old(self).pages@.len() + 1) as nat,
            ) is Some,
    {
        let all = match self.range_search(0, u64::MAX) {
            Ok(v) => v,
            Err(e) => {
                return Err(e);
            },
        };
        let fresh = match Tree::new(self.cfg) {
            Ok(t) => t,
            Err(e) => {
                return Err(e);
            },
        };
        self.pages = fresh.pages;
        self.root_seek = fresh.root_seek;
        let n = all.len();
        let mut i: usize = 0;
        while i < n
            invariant
                self.wf(),
                self.cfg == old(self).cfg,
                n == all@.len(),
                0 <= i <= n,
            decreases n - i,
        {
            let vlen = all[i].1.len();
            let v = crate::bytes::copy_range(all[i].1.as_slice(), 0, vlen);
            match self.insert(all[i].0, v) {
                Ok(()) => {},
                Err(e) => {
                    return Err(e);
                },
            }
            i = i + 1;
        }
        Ok(())
    }
}

} // verus!
