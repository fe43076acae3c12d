//! Overflow pages: the chained layout that holds the tail of a value
//! too large for its leaf entry, with the proof that a chain reassembles
//! the exact bytes it was built from.

use vstd::prelude::*;

use crate::bytes::{be64, lemma_be64_round_trip};
use crate::config::{Config, NODE_FIXED_SIZE};
use crate::error::BPlusError;
use crate::node::{parse_u64_at, Node, EXTRA_DATA, VALID};

verus! {

/// A decoded overflow page: the page offset it was read from, its payload,
/// and — once a whole chain is gathered — the pages after it in link order.
#[derive(Debug)]
pub struct ExtraData {
    /// Offset of the page this piece was read from.
    pub seek: u64,
    /// Payload bytes the page stores.
    pub data: Option<Vec<u8>>,
    /// The later links of the chain, in order, each holding its payload.
    pub next: Option<Vec<ExtraData>>,
}

/// The payload of one chain piece, empty when none was read.
pub open spec fn opt_bytes(d: Option<Vec<u8>>) -> Seq<u8> {
    match d {
        Some(v) => v@,
        None => Seq::empty(),
    }
}

/// The payloads of a list of chain pieces, concatenated in order.
pub open spec fn pieces_bytes(list: Seq<ExtraData>) -> Seq<u8>
    decreases list.len(),
{
    if list.len() == 0 {
        Seq::empty()
    } else {
        opt_bytes(list[0].data) + pieces_bytes(list.drop_first())
    }
}

/// All the bytes a gathered chain holds: the head's payload, then each
/// later link's payload in order.
pub open spec fn extra_joined(e: ExtraData) -> Seq<u8> {
    opt_bytes(e.data) + match e.next {
        Some(v) => pieces_bytes(v@),
        None => Seq::empty(),
    }
}

/// Concatenates a gathered overflow chain's payloads in link order.
pub fn join_extra(extra: &ExtraData) -> (r: Vec<u8>)
    ensures
        r@ == extra_joined(*extra),
{
    let mut out: Vec<u8> = Vec::new();
    match &extra.data {
        Some(d) => {
            crate::bytes::push_range(&mut out, d.as_slice(), 0, d.len());
            proof {
                assert(out@ =~= opt_bytes(extra.data));
            }
        },
        None => {},
    }
    match &extra.next {
        Some(list) => {
            let ghost whole = extra_joined(*extra);
            let n = list.len();
            let mut i: usize = 0;
            proof {
                assert(list@.skip(0) =~= list@);
                assert(out@ + pieces_bytes(list@) =~= whole);
            }
            while i < n
                invariant
                    0 <= i <= n,
                    n == list@.len(),
                    whole == extra_joined(*extra),
                    out@ + pieces_bytes(list@.skip(i as int)) == whole,
                decreases n - i,
            {
                proof {
                    assert(list@.skip(i as int).drop_first() =~= list@.skip(i + 1));
                    assert(list@.skip(i as int)[0] == list@[i as int]);
                }
                let ghost before = out@;
                match &list[i].data {
                    Some(d) => {
                        crate::bytes::push_range(&mut out, d.as_slice(), 0, d.len());
                    },
                    None => {},
                }
                proof {
                    assert(out@ =~= before + opt_bytes(list@[i as int].data));
                    assert(out@ + pieces_bytes(list@.skip(i + 1)) =~= before + pieces_bytes(
                        list@.skip(i as int),
                    ));
                }
                i = i + 1;
            }
            proof {
                assert(pieces_bytes(list@.skip(n as int)) =~= Seq::<u8>::empty());
                assert(out@ =~= whole);
            }
        },
        None => {
            proof {
                assert(out@ =~= extra_joined(*extra));
            }
        },
    }
    out
}

/// The payload and successor offset one overflow page stores: after the
/// page header come the remaining length of the value from this page on,
/// the length stored in this page, the payload, and — only when more
/// remains — the offset of the next page. A successor of 0 ends the chain.
pub open spec fn parse_extra_page(b: Seq<u8>) -> Option<(Seq<u8>, u64)> {
    if b.len() < NODE_FIXED_SIZE + 16 {
        None
    } else {
        let orig = parse_u64_at(b, NODE_FIXED_SIZE as int);
        let stored = parse_u64_at(b, NODE_FIXED_SIZE + 8);
        if NODE_FIXED_SIZE + 16 + stored <= b.len() {
            let payload = b.subrange(NODE_FIXED_SIZE + 16, NODE_FIXED_SIZE + 16 + stored);
            if orig > stored {
                if NODE_FIXED_SIZE + 16 + stored + 8 <= b.len() {
                    Some((payload, parse_u64_at(b, NODE_FIXED_SIZE + 16 + stored)))
                } else {
                    None
                }
            } else {
                Some((payload, 0))
            }
        } else {
            None
        }
    }
}

impl ExtraData {
    /// Decodes one overflow page: returns the piece holding its payload and
    /// the offset of the next page in the chain, 0 at the chain's end.
    /// Fails with `Corrupt` when the payload runs past the page.
    pub fn data_extra_decode(b: &Vec<u8>, seek_index: u64) -> (r: Result<
        (ExtraData, u64),
        BPlusError,
    >)
        ensures
            r is Ok <==> parse_extra_page(b@) is Some,
            r matches Ok((e, next)) ==> ({
                &&& parse_extra_page(b@) matches Some(p)
                &&& e.seek == seek_index
                &&& e.data matches Some(d)
                &&& d@ == p.0
                &&& e.next is None
                &&& next == p.1
            }),
            r matches Err(e) ==> e matches BPlusError::Corrupt,
    {
        if b.len() < NODE_FIXED_SIZE + 16 {
            return Err(BPlusError::Corrupt);
        }
        let orig = crate::bytes::get_u64_be(b.as_slice(), NODE_FIXED_SIZE);
        let stored = crate::bytes::get_u64_be(b.as_slice(), NODE_FIXED_SIZE + 8);
        if stored > (b.len() - NODE_FIXED_SIZE - 16) as u64 {
            return Err(BPlusError::Corrupt);
        }
        let stored_us = stored as usize;
        let data = crate::bytes::copy_range(
            b.as_slice(),
            NODE_FIXED_SIZE + 16,
            NODE_FIXED_SIZE + 16 + stored_us,
        );
        let result = ExtraData { seek: seek_index, data: Some(data), next: None };
        if orig > stored {
            if b.len() - NODE_FIXED_SIZE - 16 - stored_us < 8 {
                return Err(BPlusError::Corrupt);
            }
            let next = crate::bytes::get_u64_be(b.as_slice(), NODE_FIXED_SIZE + 16 + stored_us);
            return Ok((result, next));
        }
        Ok((result, 0))
    }
}

/// The byte sequences of a store of pages.
pub open spec fn page_views(pages: Seq<Vec<u8>>) -> Seq<Seq<u8>> {
    pages.map_values(|p: Vec<u8>| p@)
}

/// The bytes a whole overflow chain stores, following successor offsets
/// from `head` until a page announces no successor. `None` when a page is
/// missing, malformed, or the chain is longer than `fuel` (a cycle).
pub open spec fn chain_bytes(pages: Seq<Seq<u8>>, head: u64, cfg: Config, fuel: nat) -> Option<
    Seq<u8>,
>
    decreases fuel,
{
    if head == 0 {
        Some(Seq::empty())
    } else if fuel == 0 {
        None
    } else {
        let idx = head as int / cfg.page_size as int;
        if 0 <= idx < pages.len() && head as int % cfg.page_size as int == 0 {
            match parse_extra_page(pages[idx]) {
                None => None,
                Some(p) => match chain_bytes(pages, p.1, cfg, (fuel - 1) as nat) {
                    None => None,
                    Some(rest) => Some(p.0 + rest),
                },
            }
        } else {
            None
        }
    }
}

/// A chain that resolves within some fuel resolves identically with more.
pub proof fn lemma_chain_fuel_mono(
    pages: Seq<Seq<u8>>,
    head: u64,
    cfg: Config,
    fuel: nat,
    more: nat,
)
    requires
        chain_bytes(pages, head, cfg, fuel) is Some,
        more >= fuel,
    ensures
        chain_bytes(pages, head, cfg, more) == chain_bytes(pages, head, cfg, fuel),
    decreases fuel,
{
    if head == 0 {
    } else {
        let idx = head as int / cfg.page_size as int;
        let p = parse_extra_page(pages[idx]).unwrap();
        lemma_chain_fuel_mono(pages, p.1, cfg, (fuel - 1) as nat, (more - 1) as nat);
    }
}

/// A chain that resolves keeps resolving to the same bytes after a new
/// page is appended to the store: it never reads past the pages it knew.
pub proof fn lemma_chain_push_preserves(
    pages: Seq<Seq<u8>>,
    extra: Seq<u8>,
    head: u64,
    cfg: Config,
    fuel: nat,
)
    requires
        chain_bytes(pages, head, cfg, fuel) is Some,
    ensures
        chain_bytes(pages.push(extra), head, cfg, fuel) == chain_bytes(pages, head, cfg, fuel),
    decreases fuel,
{
    if head == 0 {
    } else {
        let idx = head as int / cfg.page_size as int;
        assert(pages.push(extra)[idx] == pages[idx]);
        let p = parse_extra_page(pages[idx]).unwrap();
        lemma_chain_push_preserves(pages, extra, p.1, cfg, (fuel - 1) as nat);
    }
}

/// A page offset that is `l` pages into the file divides back into `l`.
pub proof fn lemma_page_offset(l: int, ps: int)
    by (nonlinear_arith)
    requires
        ps >= 1,
        l >= 0,
    ensures
        (l * ps) / ps == l,
        (l * ps) % ps == 0,
        l * ps >= 0,
        l >= 1 ==> l * ps >= ps,
{
}

/// The product of two bounded factors is bounded by the product of the
/// bounds.
pub proof fn lemma_mul_bound(x: int, y: int, bx: int, by: int)
    by (nonlinear_arith)
    requires
        0 <= x <= bx,
        0 <= y <= by,
    ensures
        x * y <= bx * by,
{
}

/// A factor is bounded by the quotient its product fits under.
pub proof fn lemma_div_bound(x: int, c: int, s: int)
    by (nonlinear_arith)
    requires
        x >= 0,
        c >= 1,
        x * c <= s,
    ensures
        x <= s / c,
        s / c >= 0,
{
}

/// Builds one overflow page image: the page header, the remaining length
/// `orig`, the stored length, the payload `src[from..to]`, and — when more
/// remains — the successor offset; zero padding up to the page size.
pub fn make_extra_page(src: &[u8], from: usize, to: usize, orig: u64, next: u64, cfg: &Config) -> (r:
    Vec<u8>)
    requires
        cfg.wf(),
        from <= to <= src@.len(),
        orig > (to - from) as u64 ==> NODE_FIXED_SIZE + 16 + (to - from) + 8 <= cfg.page_size,
        orig == (to - from) as u64 ==> NODE_FIXED_SIZE + 16 + (to - from) <= cfg.page_size,
        orig >= to - from,
    ensures
        r@.len() == cfg.page_size,
        parse_extra_page(r@) == Some(
            (
                src@.subrange(from as int, to as int),
                if orig > (to - from) as u64 {
                    next
                } else {
                    0u64
                },
            ),
        ),
{
    let stored: u64 = (to - from) as u64;
    let mut d: Vec<u8> = Vec::new();
    d.push(VALID | EXTRA_DATA);
    crate::bytes::put_u64_be(&mut d, 0);
    crate::bytes::put_u64_be(&mut d, 0);
    crate::bytes::put_u64_be(&mut d, 0);
    crate::bytes::put_u64_be(&mut d, 0);
    crate::bytes::put_u64_be(&mut d, 0);
    crate::bytes::put_u64_be(&mut d, orig);
    crate::bytes::put_u64_be(&mut d, stored);
    proof {
        assert(d@.len() == NODE_FIXED_SIZE + 16);
    }
    crate::bytes::push_range(&mut d, src, from, to);
    if orig > stored {
        crate::bytes::put_u64_be(&mut d, next);
    }
    crate::bytes::pad_zeros(&mut d, cfg.page_size);
    proof {
        assert(d@.subrange(NODE_FIXED_SIZE as int, NODE_FIXED_SIZE + 8) =~= be64(orig));
        assert(d@.subrange(NODE_FIXED_SIZE + 8, NODE_FIXED_SIZE + 16) =~= be64(stored));
        assert(d@.subrange(NODE_FIXED_SIZE + 16, NODE_FIXED_SIZE + 16 + stored as int)
            =~= src@.subrange(from as int, to as int));
        lemma_be64_round_trip(orig);
        lemma_be64_round_trip(stored);
        if orig > stored {
            assert(d@.subrange(
                NODE_FIXED_SIZE + 16 + stored as int,
                NODE_FIXED_SIZE + 24 + stored as int,
            ) =~= be64(next));
            lemma_be64_round_trip(next);
        }
    }
    d
}

/// Writes the tail `src[from..]` of an oversized value into freshly
/// allocated overflow pages and returns the head offset of the chain. Every
/// page the store already held is untouched; refuses with `PageMax` a store
/// that has grown past the offsets the chain format can address.
pub fn write_extra_chain(pages: &mut Vec<Vec<u8>>, src: &Vec<u8>, from: usize, cfg: &Config) -> (r:
    Result<u64, BPlusError>)
    requires
        cfg.wf(),
        from < src@.len(),
        old(pages)@.len() >= 1,
    ensures
        r is Err ==> final(pages)@ == old(pages)@,
        r matches Err(e) ==> e matches BPlusError::PageMax,
        old(pages)@.len() + (src@.len() - from) / (cfg.page_size - NODE_FIXED_SIZE - 24) + 2
            <= 0x0fff_ffff ==> r is Ok,
        r matches Ok(head) ==> ({
            &&& final(pages)@.len() >= old(pages)@.len() + 1
            &&& final(pages)@.len() <= 0x0fff_ffff
            &&& forall|i: int|
                0 <= i < old(pages)@.len() ==> final(pages)@[i] == old(pages)@[i]
            &&& forall|i: int|
                old(pages)@.len() <= i < final(pages)@.len() ==> (#[trigger] final(pages)@[i])@.len()
                    == cfg.page_size
            &&& head != 0
            &&& chain_bytes(page_views(final(pages)@), head, *cfg, (final(pages)@.len() + 1) as nat)
                == Some(src@.skip(from as int))
        }),
{
    let cap_l: usize = cfg.page_size - NODE_FIXED_SIZE - 16;
    let cap_n: usize = cap_l - 8;
    let sl: usize = src.len();
    let mut segs: Vec<(usize, usize)> = Vec::new();
    let mut pos: usize = from;
    proof {
        assert(segs@.len() * cap_n == 0) by (nonlinear_arith)
            requires
                segs@.len() == 0,
        ;
    }
    while sl - pos > cap_l
        invariant
            cfg.wf(),
            cap_l == cfg.page_size - NODE_FIXED_SIZE - 16,
            cap_n == cap_l - 8,
            cap_n >= 1,
            from <= pos < src@.len(),
            sl == src@.len(),
            pos == from + segs@.len() * cap_n,
            forall|k: int|
                0 <= k < segs@.len() ==> (#[trigger] segs@[k]).0 == from + k * cap_n
                    && segs@[k].1 == from + (k + 1) * cap_n,
        decreases src@.len() - pos,
    {
        proof {
            assert((segs@.len() + 1) * cap_n == segs@.len() * cap_n + cap_n) by (nonlinear_arith);
        }
        segs.push((pos, pos + cap_n));
        pos = pos + cap_n;
    }
    proof {
        lemma_div_bound(
            segs@.len() as int,
            cap_n as int,
            src@.len() - from,
        );
    }
    let base = pages.len();
    if base > 0x0fff_ffff {
        return Err(BPlusError::PageMax);
    }
    if segs.len() > 0x0fff_ffff {
        return Err(BPlusError::PageMax);
    }
    if base + segs.len() + 1 > 0x0fff_ffff {
        return Err(BPlusError::PageMax);
    }
    let ghost base_pages = pages@;
    // the chain is laid down back to front, so every page can already name
    // its successor's offset
    let last_orig: u64 = (src.len() - pos) as u64;
    let page = make_extra_page(src.as_slice(), pos, src.len(), last_orig, 0, cfg);
    proof {
        lemma_mul_bound(pages@.len() as int, cfg.page_size as int, 0x1fff_ffff, 0x1000_0000);
        lemma_page_offset(pages@.len() as int, cfg.page_size as int);
    }
    let off64: u64 = (pages.len() as u64) * (cfg.page_size as u64);
    pages.push(page);
    let mut next_off: u64 = off64;
    let ghost gsrc = src@;
    proof {
        assert(src@.subrange(pos as int, src@.len() as int) + Seq::<u8>::empty() =~= src@.skip(
            pos as int,
        ));
        assert(page_views(pages@)[base_pages.len() as int] == page@);
        assert(chain_bytes(page_views(pages@), 0, *cfg, 1) == Some(Seq::<u8>::empty()));
        assert(chain_bytes(
            page_views(pages@),
            next_off,
            *cfg,
            (pages@.len() - base_pages.len() + 1) as nat,
        ) == Some(src@.skip(pos as int)));
    }
    let mut j = segs.len();
    let ghost mut cur_start: int = pos as int;
    while j > 0
        invariant
            cfg.wf(),
            cap_l == cfg.page_size - NODE_FIXED_SIZE - 16,
            cap_n == cap_l - 8,
            cap_n >= 1,
            0 <= j <= segs@.len(),
            gsrc == src@,
            from <= pos < src@.len(),
            sl == src@.len(),
            pos == from + segs@.len() * cap_n,
            forall|k: int|
                0 <= k < segs@.len() ==> (#[trigger] segs@[k]).0 == from + k * cap_n
                    && segs@[k].1 == from + (k + 1) * cap_n,
            cur_start == (if j == segs@.len() {
                pos as int
            } else {
                segs@[j as int].0 as int
            }),
            from <= cur_start <= pos,
            base_pages.len() >= 1,
            base <= 0x0fff_ffff,
            segs@.len() <= 0x0fff_ffff - base - 1,
            base == base_pages.len(),
            pages@.len() == base_pages.len() + 1 + (segs@.len() - j),
            forall|i: int| 0 <= i < base_pages.len() ==> pages@[i] == base_pages[i],
            forall|i: int|
                base_pages.len() <= i < pages@.len() ==> (#[trigger] pages@[i])@.len()
                    == cfg.page_size,
            next_off == (pages@.len() - 1) * cfg.page_size,
            next_off != 0,
            chain_bytes(
                page_views(pages@),
                next_off,
                *cfg,
                (pages@.len() - base_pages.len() + 1) as nat,
            ) == Some(gsrc.skip(cur_start)),
        decreases j,
    {
        j = j - 1;
        let (a, b) = segs[j];
        proof {
            assert(segs@[j as int].0 == from + j * cap_n);
            assert(segs@[j as int].1 == from + (j + 1) * cap_n);
            assert((j as int) * cap_n + cap_n <= segs@.len() * cap_n) by (nonlinear_arith)
                requires
                    0 <= (j as int) < segs@.len(),
                    cap_n >= 1,
            ;
            assert(((j as int) + 1) * cap_n == (j as int) * cap_n + cap_n) by (nonlinear_arith);
            assert(b <= pos);
            assert(a < b);
            assert(b as int == cur_start) by {
                if j + 1 == segs@.len() {
                } else {
                    assert(segs@[j + 1].0 == from + (j + 1) * cap_n);
                }
            }
        }
        let orig: u64 = (src.len() - a) as u64;
        let page = make_extra_page(src.as_slice(), a, b, orig, next_off, cfg);
        proof {
            lemma_mul_bound(pages@.len() as int, cfg.page_size as int, 0x1fff_ffff, 0x1000_0000);
            lemma_page_offset(pages@.len() as int, cfg.page_size as int);
        }
        let off64: u64 = (pages.len() as u64) * (cfg.page_size as u64);
        proof {
            lemma_chain_push_preserves(
                page_views(pages@),
                page@,
                next_off,
                *cfg,
                (pages@.len() - base_pages.len() + 1) as nat,
            );
        }
        let ghost old_pages = pages@;
        pages.push(page);
        proof {
            let fuel = (old_pages.len() - base_pages.len() + 1) as nat;
            assert(page_views(pages@) =~= page_views(old_pages).push(page@));
            assert(chain_bytes(page_views(pages@), next_off, *cfg, fuel) == Some(
                gsrc.skip(b as int),
            ));
            lemma_chain_fuel_mono(page_views(pages@), next_off, *cfg, fuel, (fuel + 1) as nat);
            assert(orig > (b - a) as u64);
            assert(page_views(pages@)[old_pages.len() as int] == page@);
            assert(parse_extra_page(page_views(pages@)[old_pages.len() as int]) == Some(
                (gsrc.subrange(a as int, b as int), next_off),
            ));
            assert(gsrc.subrange(a as int, b as int) + gsrc.skip(b as int) =~= gsrc.skip(
                a as int,
            ));
            assert(chain_bytes(page_views(pages@), off64, *cfg, (fuel + 2) as nat) == Some(
                gsrc.skip(a as int),
            )) by {
                lemma_page_offset(old_pages.len() as int, cfg.page_size as int);
            }
        }
        next_off = off64;
        proof {
            cur_start = a as int;
        }
    }
    proof {
        assert(cur_start == from as int);
        lemma_chain_fuel_mono(
            page_views(pages@),
            next_off,
            *cfg,
            (pages@.len() - base_pages.len() + 1) as nat,
            (pages@.len() + 1) as nat,
        );
    }
    Ok(next_off)
}

/// Walks an overflow chain from `head` and concatenates every page's
/// payload in link order. Fails with `Corrupt` when an offset is not
/// page-aligned, names no page of the store, a page is malformed, or the
/// walk visits more pages than the store holds (a cycle).
pub fn read_chain(pages: &Vec<Vec<u8>>, head: u64, cfg: &Config) -> (r: Result<
    Vec<u8>,
    BPlusError,
>)
    requires
        cfg.wf(),
        pages@.len() < usize::MAX,
    ensures
        r is Ok <==> chain_bytes(page_views(pages@), head, *cfg, (pages@.len() + 1) as nat)
            is Some,
        r matches Ok(v) ==> chain_bytes(page_views(pages@), head, *cfg, (pages@.len() + 1) as nat)
            == Some(v@),
        r matches Err(e) ==> e matches BPlusError::Corrupt,
{
    let ghost views = page_views(pages@);
    let ghost whole = chain_bytes(views, head, *cfg, (pages@.len() + 1) as nat);
    let fuel_total: usize = pages.len() + 1;
    let mut out: Vec<u8> = Vec::new();
    let mut cur: u64 = head;
    let mut steps: usize = 0;
    proof {
        match whole {
            Some(rest) => {
                assert(Seq::<u8>::empty() + rest =~= rest);
            },
            None => {},
        }
    }
    while cur != 0
        invariant
            cfg.wf(),
            views == page_views(pages@),
            whole == chain_bytes(views, head, *cfg, (pages@.len() + 1) as nat),
            fuel_total == pages@.len() + 1,
            0 <= steps <= fuel_total,
            ({
                let rest = chain_bytes(views, cur, *cfg, (fuel_total - steps) as nat);
                match (whole, rest) {
                    (Some(w), Some(rr)) => w == out@ + rr,
                    (None, None) => true,
                    _ => false,
                }
            }),
        decreases fuel_total - steps,
    {
        let ghost rest0 = chain_bytes(views, cur, *cfg, (fuel_total - steps) as nat);
        if steps == fuel_total {
            proof {
                assert(rest0 is None);
            }
            return Err(BPlusError::Corrupt);
        }
        let ps: u64 = cfg.page_size as u64;
        if cur % ps != 0 {
            return Err(BPlusError::Corrupt);
        }
        let idx64: u64 = cur / ps;
        if idx64 >= pages.len() as u64 {
            return Err(BPlusError::Corrupt);
        }
        let idx = idx64 as usize;
        proof {
            assert(views[idx as int] == pages@[idx as int]@);
        }
        match ExtraData::data_extra_decode(&pages[idx], cur) {
            Err(_) => {
                proof {
                    assert(rest0 is None);
                }
                return Err(BPlusError::Corrupt);
            },
            Ok((piece, next)) => {
                let ghost before = out@;
                match piece.data {
                    Some(mut d) => {
                        out.append(&mut d);
                    },
                    None => {
                        proof {
                            assert(false);
                        }
                    },
                }
                proof {
                    let p = parse_extra_page(views[idx as int]).unwrap();
                    let tail = chain_bytes(views, next, *cfg, (fuel_total - steps - 1) as nat);
                    match (whole, tail) {
                        (Some(w), Some(tt)) => {
                            assert(before + (p.0 + tt) =~= out@ + tt);
                        },
                        _ => {},
                    }
                }
                cur = next;
                steps = steps + 1;
            },
        }
    }
    proof {
        match whole {
            Some(w) => {
                assert(chain_bytes(views, 0u64, *cfg, (fuel_total - steps) as nat) == Some(
                    Seq::<u8>::empty(),
                ));
                assert(out@ + Seq::<u8>::empty() =~= out@);
            },
            None => {},
        }
    }
    Ok(out)
}

impl Node {
    /// Second decoding pass over a leaf: runs the inline pass, then walks
    /// each entry's overflow chain and splices prefix and chain back into
    /// the full value bytes. Like the first pass it rewrites the keys,
    /// values and overflow references entirely from the page — cleared when
    /// the count is 0 — so the decoded node is determined by the page and
    /// the chains it references, whatever the node held before.
    pub fn data_decode(
        &mut self,
        b: &Vec<u8>,
        count: u64,
        pages: &Vec<Vec<u8>>,
        cfg: &Config,
    ) -> (r: Result<(), BPlusError>)
        requires
            cfg.wf(),
            pages@.len() < usize::MAX,
        ensures
            r matches Err(e) ==> e matches BPlusError::Corrupt,
            ({
                let p0 = crate::node::parse_entries(b@, NODE_FIXED_SIZE as int, count as nat);
                let fuel = (pages@.len() + 1) as nat;
                &&& (r is Ok <==> (p0 matches Some(p) && forall|i: int|
                    0 <= i < p.0.len() ==> #[trigger] full_value(
                        p.1[i],
                        p.2[i],
                        page_views(pages@),
                        *cfg,
                        fuel,
                    ) is Some))
                &&& (r is Ok ==> (p0 matches Some(p) && final(self).key@ == p.0
                    && final(self).extra_data@ == p.2 && final(self)@.value.len() == p.0.len()
                    && (forall|i: int|
                    0 <= i < p.0.len() ==> final(self)@.value[i] == #[trigger] full_value(
                        p.1[i],
                        p.2[i],
                        page_views(pages@),
                        *cfg,
                        fuel,
                    ).unwrap())))
            }),
            final(self).flag == old(self).flag,
            final(self).is_change == old(self).is_change,
            final(self).seek_start == old(self).seek_start,
            final(self).key_seek@ == old(self).key_seek@,
            final(self).residual_storage_size == old(self).residual_storage_size,
            final(self).prev == old(self).prev,
            final(self).next == old(self).next,
    {
        match self.data_decode_init(b, count) {
            Ok(()) => {},
            Err(e) => {
                return Err(e);
            },
        }
        proof {
            crate::node::lemma_parse_entries_lens(b@, NODE_FIXED_SIZE as int, count as nat);
        }
        let ghost p = crate::node::parse_entries(
            b@,
            NODE_FIXED_SIZE as int,
            count as nat,
        ).unwrap();
        let ghost views = page_views(pages@);
        let ghost fuel = (pages@.len() + 1) as nat;
        let n = self.value.len();
        let mut vals: Vec<Vec<u8>> = Vec::new();
        let mut i: usize = 0;
        while i < n
            invariant
                cfg.wf(),
                views == page_views(pages@),
                fuel == (pages@.len() + 1) as nat,
                pages@.len() < usize::MAX,
                crate::node::parse_entries(b@, NODE_FIXED_SIZE as int, count as nat) == Some(p),
                0 <= i <= n,
                self.key@ == p.0,
                self@.value == p.1,
                self.extra_data@ == p.2,
                n == self.value@.len(),
                p.0.len() == n && p.1.len() == n && p.2.len() == n,
                vals@.len() == i,
                self.flag == old(self).flag,
                self.is_change == old(self).is_change,
                self.seek_start == old(self).seek_start,
                self.key_seek@ == old(self).key_seek@,
                self.residual_storage_size == old(self).residual_storage_size,
                self.prev == old(self).prev,
                self.next == old(self).next,
                forall|j: int|
                    0 <= j < i ==> (#[trigger] full_value(p.1[j], p.2[j], views, *cfg, fuel)
                        matches Some(fv) && vals@[j]@ == fv),
            decreases n - i,
        {
            let vi_len = self.value[i].len();
            let mut v = crate::bytes::copy_range(self.value[i].as_slice(), 0, vi_len);
            proof {
                assert(self@.value[i as int] == self.value@[i as int]@);
                assert(v@ =~= p.1[i as int]);
            }
            match self.extra_data[i] {
                Some(h) => {
                    match read_chain(pages, h, cfg) {
                        Ok(mut c) => {
                            v.append(&mut c);
                        },
                        Err(_) => {
                            proof {
                                assert(full_value(p.1[i as int], p.2[i as int], views, *cfg, fuel)
                                    is None);
                            }
                            return Err(BPlusError::Corrupt);
                        },
                    }
                },
                None => {},
            }
            vals.push(v);
            i = i + 1;
        }
        self.value = vals;
        Ok(())
    }
}

/// Splicing the inline bytes of an entry back together with its overflow
/// chain: the whole value where nothing overflowed, prefix plus chain
/// otherwise; `None` when the chain cannot be resolved.
pub open spec fn full_value(
    inline: Seq<u8>,
    extra: Option<u64>,
    pages: Seq<Seq<u8>>,
    cfg: Config,
    fuel: nat,
) -> Option<Seq<u8>> {
    match extra {
        None => Some(inline),
        Some(h) => match chain_bytes(pages, h, cfg, fuel) {
            None => None,
            Some(c) => Some(inline + c),
        },
    }
}

/// Overflow round trip: a value cut at the slot budget is reassembled
/// exactly by splicing the stored prefix with the chain that holds its
/// tail, however many pages the chain spans.
pub proof fn lemma_overflow_round_trip(
    v: Seq<u8>,
    head: u64,
    pages: Seq<Seq<u8>>,
    cfg: Config,
    budget: int,
    fuel: nat,
)
    requires
        0 <= budget < v.len(),
        chain_bytes(pages, head, cfg, fuel) == Some(v.skip(budget)),
    ensures
        full_value(v.take(budget), Some(head), pages, cfg, fuel) == Some(v),
{
    assert(v.take(budget) + v.skip(budget) =~= v);
}

} // verus!
