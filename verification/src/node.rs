//! The page format: the node header, the key block of internal nodes,
//! the data block of leaves, and the proof that decoding inverts encoding.

use vstd::prelude::*;

use crate::bytes::{be64, be64_val, lemma_be64_round_trip, zeros};
use crate::config::{Config, NODE_FIXED_SIZE};
use crate::error::BPlusError;

verus! {

/// Flag byte of a never-written or freed page.
pub const INVALID: u8 = 0b00000000;

/// The page holds meaningful data.
pub const VALID: u8 = 0b00000001;

/// The page is the tree's root.
pub const ROOT: u8 = 0b00000010;

/// The page is an internal (key-routing) node.
pub const MIDDLE_NODE: u8 = 0b00000100;

/// The page is a leaf (key/value) node.
pub const LEAF: u8 = 0b00001000;

/// The page is an overflow page holding the tail of an oversized value.
pub const EXTRA_DATA: u8 = 0b00010000;

/// True when every bit of `bit` is set in `flag`.
pub open spec fn has_bit(flag: u8, bit: u8) -> bool {
    flag & bit == bit
}

/// The mathematical image of a decoded node.
pub ghost struct NodeV {
    pub flag: u8,
    pub keys: Seq<u64>,
    /// Child page offsets of an internal node, one more than the keys.
    pub key_seek: Seq<u64>,
    /// Encoded value bytes of a leaf node, aligned with the keys.
    pub value: Seq<Seq<u8>>,
    /// Head overflow-page offset of each leaf entry whose value overflows.
    pub extra_data: Seq<Option<u64>>,
    pub residual_storage_size: u64,
    pub prev: u64,
    pub next: u64,
}

/// The in-memory, decoded form of a non-overflow page.
pub struct Node {
    /// Bit-set of `VALID`, `ROOT`, `MIDDLE_NODE`, `LEAF`, `EXTRA_DATA`.
    pub flag: u8,
    /// Whether the in-memory form diverges from the on-disk page.
    pub is_change: bool,
    /// File offset of the page this node was decoded from or will be
    /// written to.
    pub seek_start: u64,
    /// Ordered keys; separators for an internal node, entry keys for a leaf.
    pub key: Vec<u64>,
    /// Child page offsets of an internal node: `key.len() + 1` of them,
    /// child `i` before key `i`.
    pub key_seek: Vec<u64>,
    /// Encoded value bytes of a leaf node, `value[i]` belonging to `key[i]`.
    pub value: Vec<Vec<u8>>,
    /// Per-entry head offset of the overflow chain storing the tail of an
    /// oversized value, `None` where the value fits inline.
    pub extra_data: Vec<Option<u64>>,
    /// Free bytes of the page, recomputed when a leaf is encoded.
    pub residual_storage_size: u64,
    /// Offset of the previous sibling leaf page, 0 when none.
    pub prev: u64,
    /// Offset of the next sibling leaf page, 0 when none.
    pub next: u64,
}

impl View for Node {
    type V = NodeV;

    open spec fn view(&self) -> NodeV {
        NodeV {
            flag: self.flag,
            keys: self.key@,
            key_seek: self.key_seek@,
            value: self.value@.map_values(|v: Vec<u8>| v@),
            extra_data: self.extra_data@,
            residual_storage_size: self.residual_storage_size,
            prev: self.prev,
            next: self.next,
        }
    }
}

impl NodeV {
    pub open spec fn is_valid(self) -> bool {
        has_bit(self.flag, VALID)
    }

    pub open spec fn is_internal(self) -> bool {
        has_bit(self.flag, MIDDLE_NODE)
    }

    pub open spec fn is_leaf(self) -> bool {
        has_bit(self.flag, LEAF)
    }

    pub open spec fn is_extra(self) -> bool {
        has_bit(self.flag, EXTRA_DATA)
    }

    pub open spec fn is_root(self) -> bool {
        has_bit(self.flag, ROOT)
    }

    /// The field counts agree with the node's role: an internal node carries
    /// one more child pointer than keys and no values; a leaf carries one
    /// value and one overflow slot per key.
    pub open spec fn shape_wf(self) -> bool {
        &&& self.is_internal() ==> {
            &&& self.key_seek.len() == self.keys.len() + 1
            &&& self.value.len() == 0
            &&& self.extra_data.len() == 0
            &&& !self.is_leaf()
        }
        &&& self.is_leaf() ==> {
            &&& self.value.len() == self.keys.len()
            &&& self.extra_data.len() == self.keys.len()
            &&& self.key_seek.len() == 0
        }
    }

    /// The keys are strictly increasing: the ordering invariant every
    /// internal node and every leaf obeys.
    pub open spec fn keys_sorted(self) -> bool {
        forall|i: int, j: int| 0 <= i < j < self.keys.len() ==> self.keys[i] < self.keys[j]
    }
}

/// Strict ascending order of a key sequence.
pub open spec fn sorted(keys: Seq<u64>) -> bool {
    forall|i: int, j: int| 0 <= i < j < keys.len() ==> keys[i] < keys[j]
}

/// The 41 header bytes of a page: flag, key count, data count, free space,
/// previous and next sibling offsets, counts and offsets big-endian.
pub open spec fn header_bytes(
    flag: u8,
    key_count: u64,
    data_count: u64,
    free: u64,
    prev: u64,
    next: u64,
) -> Seq<u8> {
    seq![flag] + be64(key_count) + be64(data_count) + be64(free) + be64(prev) + be64(next)
}

/// The key block of an internal node: each key preceded by its left child
/// pointer, the final child pointer after the last key.
pub open spec fn key_block_bytes(keys: Seq<u64>, seeks: Seq<u64>) -> Seq<u8>
    recommends
        seeks.len() == keys.len() + 1,
    decreases keys.len(),
{
    if keys.len() == 0 {
        be64(seeks[0])
    } else {
        be64(seeks[0]) + be64(keys[0]) + key_block_bytes(keys.drop_first(), seeks.drop_first())
    }
}

/// One leaf entry: the value's true encoded length, the length stored
/// inline, the key, then either the whole value or a `budget`-byte prefix
/// followed by the head overflow-page offset.
pub open spec fn entry_bytes(key: u64, value: Seq<u8>, extra: Option<u64>, budget: int) -> Seq<u8> {
    if value.len() <= budget {
        be64(value.len() as u64) + be64(value.len() as u64) + be64(key) + value
    } else {
        be64(value.len() as u64) + be64(budget as u64) + be64(key) + value.take(budget) + be64(
            extra.unwrap_or(0),
        )
    }
}

/// The data block of a leaf node: its entries in key order.
pub open spec fn data_block_bytes(
    keys: Seq<u64>,
    values: Seq<Seq<u8>>,
    extras: Seq<Option<u64>>,
    budget: int,
) -> Seq<u8>
    recommends
        values.len() == keys.len(),
        extras.len() == keys.len(),
    decreases keys.len(),
{
    if keys.len() == 0 {
        Seq::empty()
    } else {
        entry_bytes(keys[0], values[0], extras[0], budget) + data_block_bytes(
            keys.drop_first(),
            values.drop_first(),
            extras.drop_first(),
            budget,
        )
    }
}

/// The body a node contributes after the header: a key block for an
/// internal node, a data block for a leaf, nothing otherwise.
pub open spec fn body_bytes(n: NodeV, cfg: Config) -> Seq<u8> {
    if n.is_internal() {
        key_block_bytes(n.keys, n.key_seek)
    } else if n.is_leaf() {
        data_block_bytes(n.keys, n.value, n.extra_data, cfg.spec_slot_budget())
    } else {
        Seq::empty()
    }
}

/// The free-space header field a node's page carries: recomputed for a
/// leaf when it is encoded, kept as stored otherwise.
pub open spec fn free_space_of(n: NodeV, cfg: Config) -> u64 {
    if n.is_leaf() {
        (cfg.page_size - NODE_FIXED_SIZE - body_bytes(n, cfg).len()) as u64
    } else {
        n.residual_storage_size
    }
}

/// The full page image of a node: header, body, zero padding up to the
/// configured page size.
pub open spec fn node_bytes(n: NodeV, cfg: Config) -> Seq<u8> {
    let used = header_bytes(
        n.flag,
        n.keys.len() as u64,
        (if n.is_leaf() {
            n.value.len()
        } else {
            0
        }) as u64,
        free_space_of(n, cfg),
        n.prev,
        n.next,
    ) + body_bytes(n, cfg);
    used + zeros((cfg.page_size - used.len()) as nat)
}

/// The integer stored big-endian at `off` in `b`.
pub open spec fn parse_u64_at(b: Seq<u8>, off: int) -> u64 {
    be64_val(b.subrange(off, off + 8))
}

/// Reads `count` child-pointer/key pairs and the trailing child pointer
/// from a key block; `None` when the block runs past the page.
pub open spec fn parse_key_block(b: Seq<u8>, off: int, count: nat) -> Option<(Seq<u64>, Seq<u64>)>
    decreases count,
{
    if count == 0 {
        if 0 <= off && off + 8 <= b.len() {
            Some((Seq::empty(), seq![parse_u64_at(b, off)]))
        } else {
            None
        }
    } else {
        if 0 <= off && off + 16 <= b.len() {
            match parse_key_block(b, off + 16, (count - 1) as nat) {
                None => None,
                Some(p) => Some(
                    (seq![parse_u64_at(b, off + 8)] + p.0, seq![parse_u64_at(b, off)] + p.1),
                ),
            }
        } else {
            None
        }
    }
}

/// A key block whose bytes are in range parses, pair by pair.
pub proof fn lemma_parse_key_block_total(b: Seq<u8>, off: int, count: nat)
    requires
        0 <= off,
        off + 16 * count + 8 <= b.len(),
    ensures
        parse_key_block(b, off, count) matches Some(p) && p.0.len() == count && p.1.len() == count
            + 1 && (forall|j: int| 0 <= j < count ==> p.0[j] == parse_u64_at(b, off + 16 * j + 8))
            && (forall|j: int| 0 <= j <= count ==> p.1[j] == parse_u64_at(b, off + 16 * j)),
    decreases count,
{
    if count == 0 {
    } else {
        lemma_parse_key_block_total(b, off + 16, (count - 1) as nat);
    }
}

/// A key block whose bytes run past the page does not parse.
pub proof fn lemma_parse_key_block_overrun(b: Seq<u8>, off: int, count: nat)
    requires
        off + 16 * count + 8 > b.len(),
    ensures
        parse_key_block(b, off, count) is None,
    decreases count,
{
    if count == 0 {
    } else {
        if 0 <= off && off + 16 <= b.len() {
            lemma_parse_key_block_overrun(b, off + 16, (count - 1) as nat);
        }
    }
}

/// Reads `count` leaf entries starting at `off`. Each entry is
/// self-describing: its stored length says how many inline bytes follow the
/// key, and a stored length shorter than the true length is followed by the
/// head offset of the overflow chain. Yields the keys, the inline bytes, the
/// overflow references and the offset after the last entry; `None` when an
/// entry runs past the page.
pub open spec fn parse_entries(b: Seq<u8>, off: int, count: nat) -> Option<
    (Seq<u64>, Seq<Seq<u8>>, Seq<Option<u64>>, int),
>
    decreases count,
{
    if count == 0 {
        Some((Seq::empty(), Seq::empty(), Seq::empty(), off))
    } else if 0 <= off && off + 24 <= b.len() {
        let orig = parse_u64_at(b, off);
        let stored = parse_u64_at(b, off + 8);
        let key = parse_u64_at(b, off + 16);
        if orig > stored {
            if off + 24 + stored + 8 <= b.len() {
                let prefix = b.subrange(off + 24, off + 24 + stored);
                let ext = parse_u64_at(b, off + 24 + stored);
                match parse_entries(b, off + 24 + stored + 8, (count - 1) as nat) {
                    None => None,
                    Some(p) => Some(
                        (seq![key] + p.0, seq![prefix] + p.1, seq![Some(ext)] + p.2, p.3),
                    ),
                }
            } else {
                None
            }
        } else {
            if off + 24 + stored <= b.len() {
                let v = b.subrange(off + 24, off + 24 + stored);
                match parse_entries(b, off + 24 + stored, (count - 1) as nat) {
                    None => None,
                    Some(p) => Some(
                        (seq![key] + p.0, seq![v] + p.1, seq![Option::<u64>::None] + p.2, p.3),
                    ),
                }
            } else {
                None
            }
        }
    } else {
        None
    }
}

/// A data block that parses yields one key, one value and one overflow
/// slot per entry.
pub proof fn lemma_parse_entries_lens(b: Seq<u8>, off: int, count: nat)
    requires
        parse_entries(b, off, count) is Some,
    ensures
        parse_entries(b, off, count) matches Some(p) && p.0.len() == count && p.1.len() == count
            && p.2.len() == count,
    decreases count,
{
    if count == 0 {
    } else {
        let orig = parse_u64_at(b, off);
        let stored = parse_u64_at(b, off + 8);
        if orig > stored {
            lemma_parse_entries_lens(b, off + 24 + stored + 8, (count - 1) as nat);
        } else {
            lemma_parse_entries_lens(b, off + 24 + stored, (count - 1) as nat);
        }
    }
}

/// The node a whole page parses to: the header names the role, an internal
/// node carries a key block, a leaf carries a data block whose inline bytes
/// become the values. `None` when the page is corrupt.
pub open spec fn parse_node(b: Seq<u8>, cfg: Config) -> Option<NodeV> {
    if b.len() < NODE_FIXED_SIZE {
        None
    } else {
        let flag = b[0];
        let base = NodeV {
            flag,
            keys: Seq::empty(),
            key_seek: Seq::empty(),
            value: Seq::empty(),
            extra_data: Seq::empty(),
            residual_storage_size: 0,
            prev: 0,
            next: 0,
        };
        if !has_bit(flag, VALID) {
            Some(base)
        } else {
            let key_count = parse_u64_at(b, 1);
            let data_count = parse_u64_at(b, 9);
            let with_header = NodeV {
                residual_storage_size: parse_u64_at(b, 17),
                prev: parse_u64_at(b, 25),
                next: parse_u64_at(b, 33),
                ..base
            };
            if has_bit(flag, EXTRA_DATA) {
                Some(with_header)
            } else if has_bit(flag, MIDDLE_NODE) {
                if key_count == 0 {
                    Some(with_header)
                } else {
                    match parse_key_block(b, NODE_FIXED_SIZE as int, key_count as nat) {
                        None => None,
                        Some(p) => Some(NodeV { keys: p.0, key_seek: p.1, ..with_header }),
                    }
                }
            } else if has_bit(flag, LEAF) {
                match parse_entries(b, NODE_FIXED_SIZE as int, data_count as nat) {
                    None => None,
                    Some(p) => Some(
                        NodeV { keys: p.0, value: p.1, extra_data: p.2, ..with_header },
                    ),
                }
            } else {
                Some(with_header)
            }
        }
    }
}

/// How the flag combinations the tree writes answer each bit test.
pub proof fn lemma_flag_bits()
    by (bit_vector)
    ensures
        (VALID | ROOT | LEAF) & VALID == VALID,
        (VALID | ROOT | LEAF) & LEAF == LEAF,
        (VALID | ROOT | LEAF) & MIDDLE_NODE != MIDDLE_NODE,
        (VALID | ROOT | LEAF) & EXTRA_DATA != EXTRA_DATA,
        (VALID | LEAF) & VALID == VALID,
        (VALID | LEAF) & LEAF == LEAF,
        (VALID | LEAF) & MIDDLE_NODE != MIDDLE_NODE,
        (VALID | LEAF) & EXTRA_DATA != EXTRA_DATA,
        (VALID | ROOT | MIDDLE_NODE) & VALID == VALID,
        (VALID | ROOT | MIDDLE_NODE) & MIDDLE_NODE == MIDDLE_NODE,
        (VALID | ROOT | MIDDLE_NODE) & LEAF != LEAF,
        (VALID | ROOT | MIDDLE_NODE) & EXTRA_DATA != EXTRA_DATA,
        (VALID | MIDDLE_NODE) & VALID == VALID,
        (VALID | MIDDLE_NODE) & MIDDLE_NODE == MIDDLE_NODE,
        (VALID | MIDDLE_NODE) & LEAF != LEAF,
        (VALID | MIDDLE_NODE) & EXTRA_DATA != EXTRA_DATA,
        (VALID | EXTRA_DATA) & EXTRA_DATA == EXTRA_DATA,
        (VALID | EXTRA_DATA) & VALID == VALID,
        INVALID & VALID != VALID,
{
}

/// Every oversized value of a leaf has a pre-allocated overflow reference.
pub open spec fn extras_ok(n: NodeV, budget: int) -> bool {
    forall|i: int|
        0 <= i < n.value.len() ==> (n.value[i].len() > budget ==> n.extra_data[i] is Some)
}

impl Node {
    /// A node with no meaningful fields, as a never-written page decodes.
    pub fn empty() -> (r: Node)
        ensures
            r@.flag == INVALID,
            r@.keys == Seq::<u64>::empty(),
            r@.key_seek == Seq::<u64>::empty(),
            r@.value == Seq::<Seq<u8>>::empty(),
            r@.extra_data == Seq::<Option<u64>>::empty(),
            r@.residual_storage_size == 0,
            r@.prev == 0,
            r@.next == 0,
            r.seek_start == 0,
            r.is_change == false,
    {
        let r = Node {
            flag: INVALID,
            is_change: false,
            seek_start: 0,
            key: Vec::new(),
            key_seek: Vec::new(),
            value: Vec::new(),
            extra_data: Vec::new(),
            residual_storage_size: 0,
            prev: 0,
            next: 0,
        };
        proof {
            assert(r@.value =~= Seq::<Seq<u8>>::empty());
        }
        r
    }

    /// Encodes the key block of an internal node: child pointer, key,
    /// alternating, with the final child pointer after the last key.
    /// A node holding no key cannot be encoded.
    pub fn key_encode(&self) -> (r: Result<Vec<u8>, BPlusError>)
        requires
            self.key@.len() > 0 ==> self.key_seek@.len() == self.key@.len() + 1,
        ensures
            self.key@.len() > 0 ==> (r matches Ok(b) && b@ == key_block_bytes(
                self.key@,
                self.key_seek@,
            )),
            self.key@.len() == 0 ==> (r matches Err(e) && e matches BPlusError::NodeError(_)),
    {
        if self.key.len() == 0 {
            return Err(BPlusError::NodeError("not key".to_owned()));
        }
        let mut key_u8: Vec<u8> = Vec::new();
        let n = self.key.len();
        let mut i: usize = 0;
        proof {
            assert(self.key@.skip(0) =~= self.key@);
            assert(self.key_seek@.skip(0) =~= self.key_seek@);
            assert(key_u8@ + key_block_bytes(self.key@, self.key_seek@) =~= key_block_bytes(
                self.key@,
                self.key_seek@,
            ));
        }
        while i < n
            invariant
                0 <= i <= n,
                n == self.key@.len(),
                self.key_seek@.len() == n + 1,
                key_u8@ + key_block_bytes(self.key@.skip(i as int), self.key_seek@.skip(i as int))
                    == key_block_bytes(self.key@, self.key_seek@),
            decreases n - i,
        {
            proof {
                assert(self.key@.skip(i as int).drop_first() =~= self.key@.skip(i + 1));
                assert(self.key_seek@.skip(i as int).drop_first() =~= self.key_seek@.skip(i + 1));
                assert(self.key@.skip(i as int)[0] == self.key@[i as int]);
                assert(self.key_seek@.skip(i as int)[0] == self.key_seek@[i as int]);
            }
            let ghost before = key_u8@;
            crate::bytes::put_u64_be(&mut key_u8, self.key_seek[i]);
            crate::bytes::put_u64_be(&mut key_u8, self.key[i]);
            proof {
                assert(key_u8@ + key_block_bytes(
                    self.key@.skip(i + 1),
                    self.key_seek@.skip(i + 1),
                ) =~= before + key_block_bytes(
                    self.key@.skip(i as int),
                    self.key_seek@.skip(i as int),
                ));
            }
            i = i + 1;
        }
        proof {
            assert(self.key@.skip(n as int) =~= Seq::<u64>::empty());
            assert(self.key_seek@.skip(n as int)[0] == self.key_seek@[n as int]);
        }
        let ghost before = key_u8@;
        crate::bytes::put_u64_be(&mut key_u8, self.key_seek[n]);
        proof {
            assert(key_u8@ =~= before + key_block_bytes(
                self.key@.skip(n as int),
                self.key_seek@.skip(n as int),
            ));
        }
        Ok(key_u8)
    }

    /// Encodes the data block of a leaf node, one entry per key/value pair.
    /// A value longer than the slot budget is cut at the budget and followed
    /// by its pre-allocated overflow head offset; an oversized value without
    /// one stops the encode with `MissingExtraData`. A block that would not
    /// fit the page body is refused with `PageMax`.
    pub fn data_encode(&self, cfg: &Config) -> (r: Result<Vec<u8>, BPlusError>)
        requires
            cfg.wf(),
            self.value@.len() == self.key@.len(),
            self.extra_data@.len() == self.key@.len(),
        ensures
            ({
                let block = data_block_bytes(
                    self@.keys,
                    self@.value,
                    self@.extra_data,
                    cfg.spec_slot_budget(),
                );
                &&& (r matches Ok(b) ==> (b@ == block && extras_ok(self@, cfg.spec_slot_budget())
                    && block.len() + NODE_FIXED_SIZE <= cfg.page_size))
                &&& (!extras_ok(self@, cfg.spec_slot_budget()) ==> (r matches Err(e)
                    && e matches BPlusError::MissingExtraData))
                &&& ((extras_ok(self@, cfg.spec_slot_budget()) && block.len() + NODE_FIXED_SIZE
                    > cfg.page_size) ==> (r matches Err(e) && e matches BPlusError::PageMax))
                &&& ((extras_ok(self@, cfg.spec_slot_budget()) && block.len() + NODE_FIXED_SIZE
                    <= cfg.page_size) ==> r is Ok)
            }),
    {
        let budget = cfg.slot_budget();
        let ghost gkeys = self@.keys;
        let ghost gvals = self@.value;
        let ghost gext = self@.extra_data;
        let ghost gbudget = cfg.spec_slot_budget();
        let n = self.key.len();
        let mut data_u8: Vec<u8> = Vec::new();
        let mut i: usize = 0;
        proof {
            assert(gkeys.skip(0) =~= gkeys);
            assert(gvals.skip(0) =~= gvals);
            assert(gext.skip(0) =~= gext);
            assert(data_u8@ + data_block_bytes(gkeys, gvals, gext, gbudget) =~= data_block_bytes(
                gkeys,
                gvals,
                gext,
                gbudget,
            ));
        }
        while i < n
            invariant
                0 <= i <= n,
                n == gkeys.len(),
                gkeys == self@.keys,
                gvals == self@.value,
                gext == self@.extra_data,
                gbudget == cfg.spec_slot_budget(),
                gvals.len() == n,
                gext.len() == n,
                self.key@.len() == n,
                self.value@.len() == n,
                self.extra_data@.len() == n,
                budget == gbudget,
                data_u8@ + data_block_bytes(
                    gkeys.skip(i as int),
                    gvals.skip(i as int),
                    gext.skip(i as int),
                    gbudget,
                ) == data_block_bytes(gkeys, gvals, gext, gbudget),
                forall|j: int| 0 <= j < i ==> (gvals[j].len() > gbudget ==> gext[j] is Some),
            decreases n - i,
        {
            proof {
                assert(gkeys.skip(i as int).drop_first() =~= gkeys.skip(i + 1));
                assert(gvals.skip(i as int).drop_first() =~= gvals.skip(i + 1));
                assert(gext.skip(i as int).drop_first() =~= gext.skip(i + 1));
                assert(gvals[i as int] == self.value@[i as int]@);
            }
            let v: &Vec<u8> = &self.value[i];
            let mut entry: Vec<u8> = Vec::new();
            let encode_len: u64 = v.len() as u64;
            crate::bytes::put_u64_be(&mut entry, encode_len);
            if v.len() > budget {
                match self.extra_data[i] {
                    Some(extra_seek) => {
                        crate::bytes::put_u64_be(&mut entry, budget as u64);
                        crate::bytes::put_u64_be(&mut entry, self.key[i]);
                        crate::bytes::push_range(&mut entry, v.as_slice(), 0, budget);
                        crate::bytes::put_u64_be(&mut entry, extra_seek);
                        proof {
                            assert(gvals[i as int].take(gbudget) =~= v@.subrange(0, gbudget));
                            assert(entry@ =~= entry_bytes(
                                gkeys[i as int],
                                gvals[i as int],
                                gext[i as int],
                                gbudget,
                            ));
                        }
                    },
                    None => {
                        return Err(BPlusError::MissingExtraData);
                    },
                }
            } else {
                crate::bytes::put_u64_be(&mut entry, encode_len);
                crate::bytes::put_u64_be(&mut entry, self.key[i]);
                crate::bytes::push_range(&mut entry, v.as_slice(), 0, v.len());
                proof {
                    assert(v@.subrange(0, v@.len() as int) =~= gvals[i as int]);
                    assert(entry@ =~= entry_bytes(
                        gkeys[i as int],
                        gvals[i as int],
                        gext[i as int],
                        gbudget,
                    ));
                }
            }
            let ghost before = data_u8@;
            data_u8.append(&mut entry);
            proof {
                assert(data_u8@ + data_block_bytes(
                    gkeys.skip(i + 1),
                    gvals.skip(i + 1),
                    gext.skip(i + 1),
                    gbudget,
                ) =~= before + data_block_bytes(
                    gkeys.skip(i as int),
                    gvals.skip(i as int),
                    gext.skip(i as int),
                    gbudget,
                ));
            }
            i = i + 1;
        }
        proof {
            assert(gkeys.skip(n as int) =~= Seq::<u64>::empty());
            assert(data_u8@ =~= data_block_bytes(gkeys, gvals, gext, gbudget));
        }
        if data_u8.len() > cfg.page_size - NODE_FIXED_SIZE {
            return Err(BPlusError::PageMax);
        }
        Ok(data_u8)
    }

    /// Decodes the key block of an internal node: `count` child-pointer/key
    /// pairs from byte 41 on, then the trailing child pointer. The keys and
    /// child pointers are rewritten entirely from the page — with a count of
    /// 0 they become the one trailing pointer and no keys — so the decoded
    /// node is determined by the page alone. Fails with `Corrupt` when the
    /// block would run past the page.
    pub fn key_decode(&mut self, b: &Vec<u8>, count: u64) -> (r: Result<(), BPlusError>)
        ensures
            r is Ok <==> parse_key_block(b@, NODE_FIXED_SIZE as int, count as nat) is Some,
            r matches Err(e) ==> (e matches BPlusError::Corrupt && *final(self) == *old(self)),
            r is Ok ==> (parse_key_block(b@, NODE_FIXED_SIZE as int, count as nat) matches Some(p)
                && final(self).key@ == p.0 && final(self).key_seek@ == p.1),
            final(self).flag == old(self).flag,
            final(self).is_change == old(self).is_change,
            final(self).seek_start == old(self).seek_start,
            final(self)@.value == old(self)@.value,
            final(self).extra_data@ == old(self).extra_data@,
            final(self).residual_storage_size == old(self).residual_storage_size,
            final(self).prev == old(self).prev,
            final(self).next == old(self).next,
    {
        if b.len() < NODE_FIXED_SIZE + 8 || count > ((b.len() - NODE_FIXED_SIZE - 8) / 16) as u64 {
            proof {
                lemma_parse_key_block_overrun(b@, NODE_FIXED_SIZE as int, count as nat);
            }
            return Err(BPlusError::Corrupt);
        }
        let count = count as usize;
        proof {
            lemma_parse_key_block_total(b@, NODE_FIXED_SIZE as int, count as nat);
        }
        let ghost p = parse_key_block(b@, NODE_FIXED_SIZE as int, count as nat).unwrap();
        let mut key: Vec<u64> = Vec::new();
        let mut key_seek: Vec<u64> = Vec::new();
        let mut i: usize = 0;
        let mut seek: usize = NODE_FIXED_SIZE;
        while i < count
            invariant
                0 <= i <= count,
                seek == NODE_FIXED_SIZE + 16 * i,
                NODE_FIXED_SIZE + 16 * count + 8 <= b@.len(),
                b@.len() <= usize::MAX,
                *self == *old(self),
                key@.len() == i,
                key_seek@.len() == i,
                p == parse_key_block(b@, NODE_FIXED_SIZE as int, count as nat).unwrap(),
                p.0.len() == count && p.1.len() == count + 1,
                forall|j: int| 0 <= j < count ==> p.0[j] == parse_u64_at(
                    b@,
                    NODE_FIXED_SIZE + 16 * j + 8,
                ),
                forall|j: int| 0 <= j <= count ==> p.1[j] == parse_u64_at(
                    b@,
                    NODE_FIXED_SIZE + 16 * j,
                ),
                forall|j: int| 0 <= j < i ==> key@[j] == p.0[j],
                forall|j: int| 0 <= j < i ==> key_seek@[j] == p.1[j],
            decreases count - i,
        {
            key_seek.push(crate::bytes::get_u64_be(b.as_slice(), seek));
            key.push(crate::bytes::get_u64_be(b.as_slice(), seek + 8));
            seek = seek + 16;
            i = i + 1;
        }
        key_seek.push(crate::bytes::get_u64_be(b.as_slice(), seek));
        proof {
            assert(key@ =~= p.0);
            assert(key_seek@ =~= p.1);
        }
        self.key = key;
        self.key_seek = key_seek;
        Ok(())
    }

    /// First decoding pass over a leaf's data block: records each entry's
    /// key, the bytes the page stores inline (the whole value, or the prefix
    /// of one that overflowed), and the head offset of its overflow chain if
    /// the value did not fit; chains are not walked. The keys, values and
    /// overflow references are rewritten entirely from the page — cleared
    /// when the count is 0 — so the decoded node is determined by the page
    /// alone, and a node holding only inline values re-encodes to the very
    /// same page. Fails with `Corrupt` when an entry runs past the page.
    pub fn data_decode_init(&mut self, b: &Vec<u8>, count: u64) -> (r: Result<(), BPlusError>)
        ensures
            r is Ok <==> parse_entries(b@, NODE_FIXED_SIZE as int, count as nat) is Some,
            r matches Err(e) ==> (e matches BPlusError::Corrupt && *final(self) == *old(self)),
            r is Ok ==> (parse_entries(b@, NODE_FIXED_SIZE as int, count as nat) matches Some(p)
                && final(self).key@ == p.0 && final(self)@.value == p.1
                && final(self).extra_data@ == p.2),
            final(self).flag == old(self).flag,
            final(self).is_change == old(self).is_change,
            final(self).seek_start == old(self).seek_start,
            final(self).key_seek@ == old(self).key_seek@,
            final(self).residual_storage_size == old(self).residual_storage_size,
            final(self).prev == old(self).prev,
            final(self).next == old(self).next,
    {
        let ghost base = NODE_FIXED_SIZE as int;
        let ghost whole = parse_entries(b@, base, count as nat);
        let mut key: Vec<u64> = Vec::new();
        let mut value: Vec<Vec<u8>> = Vec::new();
        let mut extra: Vec<Option<u64>> = Vec::new();
        let mut i: u64 = 0;
        let mut seek: usize = NODE_FIXED_SIZE;
        if count == 0 {
            proof {
                assert(value@.map_values(|v: Vec<u8>| v@) =~= Seq::<Seq<u8>>::empty());
            }
            self.key = key;
            self.value = value;
            self.extra_data = extra;
            return Ok(());
        }
        if b.len() < NODE_FIXED_SIZE + 24 {
            return Err(BPlusError::Corrupt);
        }
        proof {
            match whole {
                Some(w) => {
                    assert(key@ + w.0 =~= w.0);
                    assert(value@.map_values(|v: Vec<u8>| v@) + w.1 =~= w.1);
                    assert(extra@ + w.2 =~= w.2);
                },
                None => {},
            }
        }
        while i < count
            invariant
                0 <= i <= count,
                NODE_FIXED_SIZE <= seek <= b@.len(),
                b@.len() >= NODE_FIXED_SIZE + 24,
                b@.len() <= usize::MAX,
                *self == *old(self),
                base == NODE_FIXED_SIZE as int,
                key@.len() == i && value@.len() == i && extra@.len() == i,
                whole == parse_entries(b@, base, count as nat),
                ({
                    let rest = parse_entries(b@, seek as int, (count - i) as nat);
                    match (whole, rest) {
                        (Some(w), Some(rr)) => w.0 == key@ + rr.0 && w.1 == value@.map_values(
                            |v: Vec<u8>| v@,
                        ) + rr.1 && w.2 == extra@ + rr.2 && w.3 == rr.3,
                        (None, None) => true,
                        _ => false,
                    }
                }),
            decreases count - i,
        {
            let ghost rest0 = parse_entries(b@, seek as int, (count - i) as nat);
            if seek > b.len() - 24 {
                proof {
                    assert(rest0 is None);
                }
                return Err(BPlusError::Corrupt);
            }
            let orig = crate::bytes::get_u64_be(b.as_slice(), seek);
            let stored = crate::bytes::get_u64_be(b.as_slice(), seek + 8);
            let k = crate::bytes::get_u64_be(b.as_slice(), seek + 16);
            let ghost old_key = key@;
            let ghost old_val = value@.map_values(|v: Vec<u8>| v@);
            let ghost old_ext = extra@;
            if orig > stored {
                if b.len() - seek - 24 < 8 || stored > (b.len() - seek - 24 - 8) as u64 {
                    proof {
                        assert(rest0 is None);
                    }
                    return Err(BPlusError::Corrupt);
                }
                let stored_us = stored as usize;
                let v = crate::bytes::copy_range(b.as_slice(), seek + 24, seek + 24 + stored_us);
                let ext = crate::bytes::get_u64_be(b.as_slice(), seek + 24 + stored_us);
                key.push(k);
                value.push(v);
                extra.push(Some(ext));
                proof {
                    let ghost tail = parse_entries(
                        b@,
                        seek + 24 + stored + 8,
                        (count - i - 1) as nat,
                    );
                    assert(value@.map_values(|v: Vec<u8>| v@) =~= old_val.push(
                        b@.subrange(seek + 24, seek + 24 + stored as int),
                    ));
                    match whole {
                        Some(w) => {
                            let rr = rest0.unwrap();
                            let tt = tail.unwrap();
                            assert(old_key + rr.0 =~= key@ + tt.0);
                            assert(old_val + rr.1 =~= value@.map_values(|v: Vec<u8>| v@) + tt.1);
                            assert(old_ext + rr.2 =~= extra@ + tt.2);
                        },
                        None => {},
                    }
                }
                seek = seek + 24 + stored_us + 8;
            } else {
                if stored > (b.len() - seek - 24) as u64 {
                    proof {
                        assert(rest0 is None);
                    }
                    return Err(BPlusError::Corrupt);
                }
                let stored_us = stored as usize;
                let v = crate::bytes::copy_range(b.as_slice(), seek + 24, seek + 24 + stored_us);
                key.push(k);
                value.push(v);
                extra.push(None);
                proof {
                    let ghost tail = parse_entries(b@, seek + 24 + stored, (count - i - 1) as nat);
                    assert(value@.map_values(|v: Vec<u8>| v@) =~= old_val.push(
                        b@.subrange(seek + 24, seek + 24 + stored as int),
                    ));
                    match whole {
                        Some(w) => {
                            let rr = rest0.unwrap();
                            let tt = tail.unwrap();
                            assert(old_key + rr.0 =~= key@ + tt.0);
                            assert(old_val + rr.1 =~= value@.map_values(|v: Vec<u8>| v@) + tt.1);
                            assert(old_ext + rr.2 =~= extra@ + tt.2);
                        },
                        None => {},
                    }
                }
                seek = seek + 24 + stored_us;
            }
            i = i + 1;
        }
        proof {
            match whole {
                Some(w) => {
                    assert(key@ + Seq::<u64>::empty() =~= key@);
                    assert(value@.map_values(|v: Vec<u8>| v@) + Seq::<Seq<u8>>::empty()
                        =~= value@.map_values(|v: Vec<u8>| v@));
                    assert(extra@ + Seq::<Option<u64>>::empty() =~= extra@);
                },
                None => {},
            }
        }
        self.key = key;
        self.value = value;
        self.extra_data = extra;
        Ok(())
    }

    /// Decodes a page image read from offset `seek` into a node. A page
    /// whose VALID bit is unset comes back as an empty free node; an
    /// overflow page comes back with header fields only (its payload has a
    /// distinct layout); an internal page gets its key block decoded and a
    /// leaf page its data block. Fails with `Corrupt` when the page bytes
    /// cannot carry the node they announce.
    pub fn new_node_from_byte(seek: u64, data: &Vec<u8>, cfg: &Config) -> (r: Result<
        Node,
        BPlusError,
    >)
        ensures
            r is Ok <==> parse_node(data@, *cfg) is Some,
            r matches Ok(n) ==> (parse_node(data@, *cfg) matches Some(m) && n@ == m
                && n.seek_start == seek && !n.is_change),
            r matches Err(e) ==> e matches BPlusError::Corrupt,
    {
        if data.len() < NODE_FIXED_SIZE {
            return Err(BPlusError::Corrupt);
        }
        let mut node = Node::empty();
        node.flag = data[0];
        node.seek_start = seek;
        if node.flag & VALID != VALID {
            return Ok(node);
        }
        let key_count = crate::bytes::get_u64_be(data.as_slice(), 1);
        let data_count = crate::bytes::get_u64_be(data.as_slice(), 9);
        node.residual_storage_size = crate::bytes::get_u64_be(data.as_slice(), 17);
        node.prev = crate::bytes::get_u64_be(data.as_slice(), 25);
        node.next = crate::bytes::get_u64_be(data.as_slice(), 33);
        if node.flag & EXTRA_DATA == EXTRA_DATA {
            return Ok(node);
        }
        if node.flag & MIDDLE_NODE == MIDDLE_NODE {
            if key_count == 0 {
                return Ok(node);
            }
            return match node.key_decode(data, key_count) {
                Ok(()) => Ok(node),
                Err(e) => Err(e),
            };
        }
        if node.flag & LEAF == LEAF {
            return match node.data_decode_init(data, data_count) {
                Ok(()) => Ok(node),
                Err(e) => Err(e),
            };
        }
        Ok(node)
    }

    /// Encodes the node into a full page image: header, body, zero padding
    /// up to the page size. A leaf's free-space field is recomputed from the
    /// body it encodes; any other node keeps its stored value.
    pub fn stop(&self, cfg: &Config) -> (r: Result<Vec<u8>, BPlusError>)
        requires
            cfg.wf(),
            self@.shape_wf(),
        ensures
            encode_ok(self@, *cfg) ==> (r matches Ok(b) && b@ == node_bytes(self@, *cfg)
                && b@.len() == cfg.page_size),
            r is Ok <==> encode_ok(self@, *cfg),
            (self@.is_internal() && self@.keys.len() == 0) ==> (r matches Err(e)
                && e matches BPlusError::NodeError(_)),
            (self@.is_internal() && self@.keys.len() > 0 && NODE_FIXED_SIZE + body_bytes(
                self@,
                *cfg,
            ).len() > cfg.page_size) ==> (r matches Err(e) && e matches BPlusError::PageMax),
            (self@.is_leaf() && !extras_ok(self@, cfg.spec_slot_budget())) ==> (r matches Err(e)
                && e matches BPlusError::MissingExtraData),
            (self@.is_leaf() && extras_ok(self@, cfg.spec_slot_budget()) && NODE_FIXED_SIZE
                + body_bytes(self@, *cfg).len() > cfg.page_size) ==> (r matches Err(e)
                && e matches BPlusError::PageMax),
    {
        let mut body: Vec<u8>;
        let free: u64;
        let data_count: u64;
        if self.flag & MIDDLE_NODE == MIDDLE_NODE {
            body = match self.key_encode() {
                Ok(b) => b,
                Err(e) => { return Err(e); },
            };
            if body.len() > cfg.page_size - NODE_FIXED_SIZE {
                return Err(BPlusError::PageMax);
            }
            free = self.residual_storage_size;
            data_count = 0;
        } else if self.flag & LEAF == LEAF {
            body = match self.data_encode(cfg) {
                Ok(b) => b,
                Err(e) => { return Err(e); },
            };
            free = (cfg.page_size - NODE_FIXED_SIZE - body.len()) as u64;
            data_count = self.value.len() as u64;
        } else {
            body = Vec::new();
            free = self.residual_storage_size;
            data_count = 0;
        }
        proof {
            assert(body@ == body_bytes(self@, *cfg));
            assert(free == free_space_of(self@, *cfg));
        }
        let mut data: Vec<u8> = Vec::new();
        data.push(self.flag);
        crate::bytes::put_u64_be(&mut data, self.key.len() as u64);
        crate::bytes::put_u64_be(&mut data, data_count);
        crate::bytes::put_u64_be(&mut data, free);
        crate::bytes::put_u64_be(&mut data, self.prev);
        crate::bytes::put_u64_be(&mut data, self.next);
        proof {
            assert(data@ =~= header_bytes(
                self@.flag,
                self@.keys.len() as u64,
                (if self@.is_leaf() {
                    self@.value.len()
                } else {
                    0
                }) as u64,
                free_space_of(self@, *cfg),
                self@.prev,
                self@.next,
            ));
        }
        let ghost used = data@ + body@;
        data.append(&mut body);
        crate::bytes::pad_zeros(&mut data, cfg.page_size);
        proof {
            assert(data@ =~= node_bytes(self@, *cfg));
        }
        Ok(data)
    }
}

/// The bytes of each value that stay in the page: the whole value when it
/// fits the slot budget, its leading prefix otherwise.
pub open spec fn inline_of(values: Seq<Seq<u8>>, budget: int) -> Seq<Seq<u8>> {
    values.map_values(
        |v: Seq<u8>|
            if v.len() <= budget {
                v
            } else {
                v.take(budget)
            },
    )
}

/// A key block over `count` keys occupies `16 * count + 8` bytes.
pub proof fn lemma_key_block_len(keys: Seq<u64>, seeks: Seq<u64>)
    requires
        seeks.len() == keys.len() + 1,
    ensures
        key_block_bytes(keys, seeks).len() == 16 * keys.len() + 8,
    decreases keys.len(),
{
    if keys.len() == 0 {
    } else {
        lemma_key_block_len(keys.drop_first(), seeks.drop_first());
    }
}

/// Parsing a key block that was just encoded yields the keys and child
/// pointers it was encoded from.
#[verifier::rlimit(50)]
pub proof fn lemma_parse_key_block_inverts(b: Seq<u8>, off: int, keys: Seq<u64>, seeks: Seq<u64>)
    requires
        seeks.len() == keys.len() + 1,
        0 <= off,
        off + key_block_bytes(keys, seeks).len() <= b.len(),
        b.subrange(off, off + key_block_bytes(keys, seeks).len()) == key_block_bytes(keys, seeks),
    ensures
        parse_key_block(b, off, keys.len() as nat) == Some((keys, seeks)),
    decreases keys.len(),
{
    lemma_key_block_len(keys, seeks);
    let kb = key_block_bytes(keys, seeks);
    let ll = kb.len() as int;
    if keys.len() == 0 {
        crate::bytes::lemma_subrange_of_subrange(b, off, ll, 0, 8);
        assert(kb.subrange(0, 8) =~= be64(seeks[0]));
        lemma_be64_round_trip(seeks[0]);
        assert(Seq::<u64>::empty() =~= keys);
        assert(seq![seeks[0]] =~= seeks);
    } else {
        let rest = key_block_bytes(keys.drop_first(), seeks.drop_first());
        lemma_key_block_len(keys.drop_first(), seeks.drop_first());
        crate::bytes::lemma_subrange_of_subrange(b, off, ll, 0, 8);
        crate::bytes::lemma_subrange_of_subrange(b, off, ll, 8, 16);
        crate::bytes::lemma_subrange_of_subrange(b, off, ll, 16, ll);
        assert(kb.subrange(0, 8) =~= be64(seeks[0]));
        assert(kb.subrange(8, 16) =~= be64(keys[0]));
        assert(kb.subrange(16, ll) =~= rest);
        lemma_be64_round_trip(seeks[0]);
        lemma_be64_round_trip(keys[0]);
        lemma_parse_key_block_inverts(b, off + 16, keys.drop_first(), seeks.drop_first());
        assert(seq![keys[0]] + keys.drop_first() =~= keys);
        assert(seq![seeks[0]] + seeks.drop_first() =~= seeks);
    }
}

/// Parsing a data block that was just encoded yields the keys, the inline
/// bytes of each value, and the overflow references it was encoded from.
#[verifier::rlimit(50)]
pub proof fn lemma_parse_entries_inverts(
    b: Seq<u8>,
    off: int,
    keys: Seq<u64>,
    values: Seq<Seq<u8>>,
    extras: Seq<Option<u64>>,
    budget: int,
)
    requires
        values.len() == keys.len(),
        extras.len() == keys.len(),
        0 <= budget <= 0xffff_ffff,
        forall|i: int| 0 <= i < values.len() ==> #[trigger] values[i].len() <= u64::MAX,
        forall|i: int|
            0 <= i < values.len() ==> (#[trigger] values[i].len() > budget <==> extras[i] is Some),
        0 <= off,
        off + data_block_bytes(keys, values, extras, budget).len() <= b.len(),
        b.subrange(off, off + data_block_bytes(keys, values, extras, budget).len())
            == data_block_bytes(keys, values, extras, budget),
    ensures
        parse_entries(b, off, keys.len() as nat) == Some(
            (
                keys,
                inline_of(values, budget),
                extras,
                off + data_block_bytes(keys, values, extras, budget).len(),
            ),
        ),
    decreases keys.len(),
{
    let db = data_block_bytes(keys, values, extras, budget);
    let ll = db.len() as int;
    if keys.len() == 0 {
        assert(Seq::<u64>::empty() =~= keys);
        assert(inline_of(values, budget) =~= Seq::<Seq<u8>>::empty());
        assert(Seq::<Option<u64>>::empty() =~= extras);
    } else {
        let v = values[0];
        let e = entry_bytes(keys[0], v, extras[0], budget);
        let rest = data_block_bytes(
            keys.drop_first(),
            values.drop_first(),
            extras.drop_first(),
            budget,
        );
        assert(db == e + rest);
        let el = e.len() as int;
        lemma_be64_round_trip(v.len() as u64);
        lemma_be64_round_trip(keys[0]);
        crate::bytes::lemma_subrange_of_subrange(b, off, ll, 0, 8);
        crate::bytes::lemma_subrange_of_subrange(b, off, ll, 8, 16);
        crate::bytes::lemma_subrange_of_subrange(b, off, ll, 16, 24);
        assert(db.subrange(0, 8) =~= be64(v.len() as u64));
        assert(db.subrange(16, 24) =~= be64(keys[0]));
        if v.len() <= budget {
            assert(db.subrange(8, 16) =~= be64(v.len() as u64));
            assert(parse_u64_at(b, off) == v.len() as u64);
            assert(parse_u64_at(b, off + 8) == v.len() as u64);
            crate::bytes::lemma_subrange_of_subrange(b, off, ll, 24, 24 + v.len() as int);
            assert(db.subrange(24, 24 + v.len() as int) =~= v);
            crate::bytes::lemma_subrange_of_subrange(b, off, ll, el, ll);
            assert(db.subrange(el, ll) =~= rest);
            lemma_parse_entries_inverts(
                b,
                off + 24 + v.len() as int,
                keys.drop_first(),
                values.drop_first(),
                extras.drop_first(),
                budget,
            );
            assert(seq![keys[0]] + keys.drop_first() =~= keys);
            assert(seq![v] + inline_of(values.drop_first(), budget) =~= inline_of(values, budget));
            assert(extras[0] is None);
            assert(seq![Option::<u64>::None] + extras.drop_first() =~= extras);
        } else {
            let s = extras[0].unwrap_or(0);
            lemma_be64_round_trip(budget as u64);
            lemma_be64_round_trip(s);
            assert(db.subrange(8, 16) =~= be64(budget as u64));
            crate::bytes::lemma_subrange_of_subrange(b, off, ll, 24, 24 + budget);
            assert(db.subrange(24, 24 + budget) =~= v.take(budget));
            crate::bytes::lemma_subrange_of_subrange(b, off, ll, 24 + budget, 32 + budget);
            assert(db.subrange(24 + budget, 32 + budget) =~= be64(s));
            crate::bytes::lemma_subrange_of_subrange(b, off, ll, el, ll);
            assert(db.subrange(el, ll) =~= rest);
            lemma_parse_entries_inverts(
                b,
                off + 32 + budget,
                keys.drop_first(),
                values.drop_first(),
                extras.drop_first(),
                budget,
            );
            assert(seq![keys[0]] + keys.drop_first() =~= keys);
            assert(seq![v.take(budget)] + inline_of(values.drop_first(), budget) =~= inline_of(
                values,
                budget,
            ));
            assert(extras[0] matches Some(x) && x == s);
            assert(seq![Some(s)] + extras.drop_first() =~= extras);
        }
    }
}

impl Default for Node {
    /// The same empty node a never-written page decodes to.
    fn default() -> (r: Node)
        ensures
            r@.flag == INVALID,
            r@.keys == Seq::<u64>::empty(),
            r@.key_seek == Seq::<u64>::empty(),
            r@.value == Seq::<Seq<u8>>::empty(),
            r@.extra_data == Seq::<Option<u64>>::empty(),
            r@.residual_storage_size == 0,
            r@.prev == 0,
            r@.next == 0,
            r.seek_start == 0,
            r.is_change == false,
    {
        Node::empty()
    }
}

/// A node can be encoded: an internal node holds at least one key, a leaf's
/// oversized values all carry overflow references, and the body fits the
/// page.
pub open spec fn encode_ok(n: NodeV, cfg: Config) -> bool {
    &&& n.is_internal() ==> (n.keys.len() > 0 && NODE_FIXED_SIZE + body_bytes(n, cfg).len()
        <= cfg.page_size)
    &&& n.is_leaf() ==> (extras_ok(n, cfg.spec_slot_budget()) && NODE_FIXED_SIZE + body_bytes(
        n,
        cfg,
    ).len() <= cfg.page_size)
}

/// The extra references mark exactly the values that overflow the budget.
pub open spec fn extras_exact(n: NodeV, budget: int) -> bool {
    forall|i: int|
        0 <= i < n.value.len() ==> (#[trigger] n.value[i].len() > budget <==> n.extra_data[i]
            is Some)
}

/// Every leaf entry occupies at least its 24 header bytes, so a data block
/// bounds how many entries it can hold.
pub proof fn lemma_data_block_min_len(
    keys: Seq<u64>,
    values: Seq<Seq<u8>>,
    extras: Seq<Option<u64>>,
    budget: int,
)
    requires
        values.len() == keys.len(),
        extras.len() == keys.len(),
    ensures
        data_block_bytes(keys, values, extras, budget).len() >= 24 * keys.len(),
    decreases keys.len(),
{
    if keys.len() == 0 {
    } else {
        lemma_data_block_min_len(
            keys.drop_first(),
            values.drop_first(),
            extras.drop_first(),
            budget,
        );
    }
}

/// The five header fields read back from a page whose first 41 bytes are a
/// header image.
pub proof fn lemma_header_extract(
    b: Seq<u8>,
    flag: u8,
    kc: u64,
    dc: u64,
    fr: u64,
    pv: u64,
    nx: u64,
)
    requires
        b.len() >= NODE_FIXED_SIZE,
        b.subrange(0, NODE_FIXED_SIZE as int) == header_bytes(flag, kc, dc, fr, pv, nx),
    ensures
        b[0] == flag,
        parse_u64_at(b, 1) == kc,
        parse_u64_at(b, 9) == dc,
        parse_u64_at(b, 17) == fr,
        parse_u64_at(b, 25) == pv,
        parse_u64_at(b, 33) == nx,
{
    let h = header_bytes(flag, kc, dc, fr, pv, nx);
    crate::bytes::lemma_subrange_of_subrange(b, 0, 41, 0, 1);
    crate::bytes::lemma_subrange_of_subrange(b, 0, 41, 1, 9);
    crate::bytes::lemma_subrange_of_subrange(b, 0, 41, 9, 17);
    crate::bytes::lemma_subrange_of_subrange(b, 0, 41, 17, 25);
    crate::bytes::lemma_subrange_of_subrange(b, 0, 41, 25, 33);
    crate::bytes::lemma_subrange_of_subrange(b, 0, 41, 33, 41);
    assert(h.subrange(1, 9) =~= be64(kc));
    assert(h.subrange(9, 17) =~= be64(dc));
    assert(h.subrange(17, 25) =~= be64(fr));
    assert(h.subrange(25, 33) =~= be64(pv));
    assert(h.subrange(33, 41) =~= be64(nx));
    lemma_be64_round_trip(kc);
    lemma_be64_round_trip(dc);
    lemma_be64_round_trip(fr);
    lemma_be64_round_trip(pv);
    lemma_be64_round_trip(nx);
    assert(b[0] == b.subrange(0, 41)[0]);
}

/// Round trip of the page codec: decoding the page image of a well-formed
/// internal or leaf node yields the node back — its flag, keys, child
/// pointers, overflow references and sibling offsets exactly, and for each
/// value the bytes the page stores inline: the whole value where it fits
/// the slot budget, its leading prefix where it overflows. A page cannot
/// say more: the overflowed tail lives in the chain, and splicing it back
/// is `lemma_overflow_round_trip`.
pub proof fn lemma_node_round_trip(n: NodeV, cfg: Config)
    requires
        cfg.wf(),
        n.shape_wf(),
        n.is_valid(),
        !n.is_extra(),
        n.is_internal() || n.is_leaf(),
        encode_ok(n, cfg),
        n.is_leaf() ==> extras_exact(n, cfg.spec_slot_budget()),
        forall|i: int| 0 <= i < n.value.len() ==> #[trigger] n.value[i].len() <= u64::MAX,
    ensures
        parse_node(node_bytes(n, cfg), cfg) matches Some(m) && m.flag == n.flag && m.keys == n.keys
            && m.key_seek == n.key_seek && m.extra_data == n.extra_data && m.prev == n.prev
            && m.next == n.next && m.residual_storage_size == free_space_of(n, cfg) && m.value
            == inline_of(n.value, cfg.spec_slot_budget()),
{
    let b = node_bytes(n, cfg);
    if n.is_internal() {
        lemma_key_block_len(n.keys, n.key_seek);
    } else {
        lemma_data_block_min_len(n.keys, n.value, n.extra_data, cfg.spec_slot_budget());
        assert(24 * n.value.len() <= body_bytes(n, cfg).len());
    }
    let kc = n.keys.len() as u64;
    let dc = (if n.is_leaf() {
        n.value.len()
    } else {
        0
    }) as u64;
    let fr = free_space_of(n, cfg);
    let h = header_bytes(n.flag, kc, dc, fr, n.prev, n.next);
    let body = body_bytes(n, cfg);
    let used = h + body;
    assert(h.len() == 41);
    if n.is_internal() {
        lemma_key_block_len(n.keys, n.key_seek);
    }
    assert(used.len() == 41 + body.len());
    assert(NODE_FIXED_SIZE + body.len() <= cfg.page_size);
    assert(b.len() == cfg.page_size);
    assert(b.subrange(0, 41) =~= h);
    lemma_header_extract(b, n.flag, kc, dc, fr, n.prev, n.next);
    assert(b[0] == n.flag);
    assert(has_bit(n.flag, VALID));
    assert(b.subrange(41, 41 + body.len() as int) =~= body);
    if n.is_internal() {
        assert(n.keys.len() < 0x1000_0000);
        assert(kc as nat == n.keys.len());
        assert(kc != 0);
        lemma_parse_key_block_inverts(b, 41, n.keys, n.key_seek);
        assert(parse_key_block(b, NODE_FIXED_SIZE as int, kc as nat) == Some(
            (n.keys, n.key_seek),
        ));
        let m = parse_node(b, cfg).unwrap();
        assert(m.value =~= inline_of(n.value, cfg.spec_slot_budget()));
    } else {
        assert(dc as nat == n.value.len());
        lemma_parse_entries_inverts(
            b,
            41,
            n.keys,
            n.value,
            n.extra_data,
            cfg.spec_slot_budget(),
        );
    }
}

/// The ordering invariant survives the page codec: a node whose keys are
/// strictly increasing decodes from its own page image with the same keys
/// in the same strictly increasing order.
pub proof fn lemma_codec_keeps_order(n: NodeV, cfg: Config)
    requires
        cfg.wf(),
        n.shape_wf(),
        n.is_valid(),
        !n.is_extra(),
        n.is_internal() || n.is_leaf(),
        encode_ok(n, cfg),
        n.is_leaf() ==> extras_exact(n, cfg.spec_slot_budget()),
        forall|i: int| 0 <= i < n.value.len() ==> #[trigger] n.value[i].len() <= u64::MAX,
        n.keys_sorted(),
    ensures
        parse_node(node_bytes(n, cfg), cfg) matches Some(m) && m.keys == n.keys
            && m.keys_sorted(),
{
    lemma_node_round_trip(n, cfg);
}

} // verus!
