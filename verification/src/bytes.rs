//! Big-endian integer images and the byte-buffer helpers the page
//! codec is built on, each proved against its sequence-level meaning.

use vstd::prelude::*;

verus! {

/// Big-endian byte image of a 64-bit integer: most significant byte first.
pub open spec fn be64(v: u64) -> Seq<u8> {
    seq![
        (v >> 56) as u8,
        (v >> 48) as u8,
        (v >> 40) as u8,
        (v >> 32) as u8,
        (v >> 24) as u8,
        (v >> 16) as u8,
        (v >> 8) as u8,
        v as u8,
    ]
}

/// The 64-bit integer read back from eight big-endian bytes.
pub open spec fn be64_val(s: Seq<u8>) -> u64
    recommends
        s.len() == 8,
{
    (((s[0] as u64) << 56) | ((s[1] as u64) << 48) | ((s[2] as u64) << 40) | ((s[3] as u64)
        << 32) | ((s[4] as u64) << 24) | ((s[5] as u64) << 16) | ((s[6] as u64) << 8) | (
    s[7] as u64)) as u64
}

/// Big-endian byte image of a 32-bit integer.
pub open spec fn be32(v: u32) -> Seq<u8> {
    seq![(v >> 24) as u8, (v >> 16) as u8, (v >> 8) as u8, v as u8]
}

/// The 32-bit integer read back from four big-endian bytes.
pub open spec fn be32_val(s: Seq<u8>) -> u32
    recommends
        s.len() == 4,
{
    (((s[0] as u32) << 24) | ((s[1] as u32) << 16) | ((s[2] as u32) << 8) | (s[3] as u32)) as u32
}

/// A run of `n` zero bytes, as used to pad a page to its fixed size.
pub open spec fn zeros(n: nat) -> Seq<u8> {
    Seq::new(n, |i: int| 0u8)
}

/// Reading back the big-endian image of an integer yields the integer.
pub proof fn lemma_be64_round_trip(v: u64)
    ensures
        be64_val(be64(v)) == v,
{
    let s = be64(v);
    assert(((((v >> 56) as u8) as u64) << 56 | (((v >> 48) as u8) as u64) << 48 | (((v
        >> 40) as u8) as u64) << 40 | (((v >> 32) as u8) as u64) << 32 | (((v >> 24) as u8) as u64)
        << 24 | (((v >> 16) as u8) as u64) << 16 | (((v >> 8) as u8) as u64) << 8 | ((
    v as u8) as u64)) as u64 == v) by (bit_vector);
}

/// The big-endian image of the integer read from eight bytes is those bytes.
pub proof fn lemma_be64_extensional(s: Seq<u8>)
    requires
        s.len() == 8,
    ensures
        be64(be64_val(s)) == s,
{
    let b0 = s[0];
    let b1 = s[1];
    let b2 = s[2];
    let b3 = s[3];
    let b4 = s[4];
    let b5 = s[5];
    let b6 = s[6];
    let b7 = s[7];
    let v = be64_val(s);
    assert(v == (((b0 as u64) << 56) | ((b1 as u64) << 48) | ((b2 as u64) << 40) | ((b3 as u64)
        << 32) | ((b4 as u64) << 24) | ((b5 as u64) << 16) | ((b6 as u64) << 8) | (
    b7 as u64)) as u64);
    let w = (((b0 as u64) << 56) | ((b1 as u64) << 48) | ((b2 as u64) << 40) | ((b3 as u64) << 32)
        | ((b4 as u64) << 24) | ((b5 as u64) << 16) | ((b6 as u64) << 8) | (b7 as u64)) as u64;
    assert((w >> 56) as u8 == b0 && (w >> 48) as u8 == b1 && (w >> 40) as u8 == b2 && (w
        >> 32) as u8 == b3 && (w >> 24) as u8 == b4 && (w >> 16) as u8 == b5 && (w >> 8) as u8
        == b6 && w as u8 == b7) by (bit_vector)
        requires
            w == (((b0 as u64) << 56) | ((b1 as u64) << 48) | ((b2 as u64) << 40) | ((b3 as u64)
                << 32) | ((b4 as u64) << 24) | ((b5 as u64) << 16) | ((b6 as u64) << 8) | (
            b7 as u64)) as u64,
    ;
    assert(be64(v) =~= s);
}

/// A window into a window of a byte sequence is a window of the sequence.
pub proof fn lemma_subrange_of_subrange(s: Seq<u8>, off: int, len: int, a: int, b: int)
    requires
        0 <= off,
        off + len <= s.len(),
        0 <= a <= b <= len,
    ensures
        s.subrange(off + a, off + b) == s.subrange(off, off + len).subrange(a, b),
{
    assert(s.subrange(off + a, off + b) =~= s.subrange(off, off + len).subrange(a, b));
}

/// Appends the eight big-endian bytes of `v` to `buf`.
pub fn put_u64_be(buf: &mut Vec<u8>, v: u64)
    ensures
        final(buf)@ == old(buf)@ + be64(v),
{
    buf.push((v >> 56) as u8);
    buf.push((v >> 48) as u8);
    buf.push((v >> 40) as u8);
    buf.push((v >> 32) as u8);
    buf.push((v >> 24) as u8);
    buf.push((v >> 16) as u8);
    buf.push((v >> 8) as u8);
    buf.push(v as u8);
    proof {
        assert(buf@ =~= old(buf)@ + be64(v));
    }
}

/// Appends the four big-endian bytes of `v` to `buf`.
pub fn put_u32_be(buf: &mut Vec<u8>, v: u32)
    ensures
        final(buf)@ == old(buf)@ + be32(v),
{
    buf.push((v >> 24) as u8);
    buf.push((v >> 16) as u8);
    buf.push((v >> 8) as u8);
    buf.push(v as u8);
    proof {
        assert(buf@ =~= old(buf)@ + be32(v));
    }
}

/// Appends the bytes `src[from..to]` to `buf`.
pub fn push_range(buf: &mut Vec<u8>, src: &[u8], from: usize, to: usize)
    requires
        from <= to <= src@.len(),
    ensures
        final(buf)@ == old(buf)@ + src@.subrange(from as int, to as int),
{
    let mut j: usize = from;
    while j < to
        invariant
            from <= j <= to <= src@.len(),
            buf@ == old(buf)@ + src@.subrange(from as int, j as int),
        decreases to - j,
    {
        buf.push(src[j]);
        proof {
            assert(src@.subrange(from as int, j + 1) =~= src@.subrange(from as int, j as int).push(
                src@[j as int],
            ));
        }
        j = j + 1;
    }
    proof {
        assert(buf@ =~= old(buf)@ + src@.subrange(from as int, to as int));
    }
}

/// Copies the bytes `src[from..to]` into a fresh buffer.
pub fn copy_range(src: &[u8], from: usize, to: usize) -> (r: Vec<u8>)
    requires
        from <= to <= src@.len(),
    ensures
        r@ == src@.subrange(from as int, to as int),
{
    let mut v: Vec<u8> = Vec::new();
    push_range(&mut v, src, from, to);
    proof {
        assert(v@ =~= src@.subrange(from as int, to as int));
    }
    v
}

/// Extends `buf` with zero bytes until it is `n` long; a buffer already
/// that long or longer is unchanged.
pub fn pad_zeros(buf: &mut Vec<u8>, n: usize)
    ensures
        old(buf)@.len() <= n ==> final(buf)@ == old(buf)@ + zeros((n - old(buf)@.len()) as nat),
        old(buf)@.len() > n ==> final(buf)@ == old(buf)@,
{
    let ghost base = buf@;
    while buf.len() < n
        invariant
            base.len() <= buf@.len(),
            buf@.subrange(0, base.len() as int) == base,
            forall|k: int| base.len() <= k < buf@.len() ==> buf@[k] == 0u8,
            buf@.len() <= n || buf@.len() == base.len(),
        decreases n - buf@.len(),
    {
        let ghost prev = buf@;
        buf.push(0u8);
        proof {
            assert(buf@.subrange(0, base.len() as int) =~= prev.subrange(0, base.len() as int));
        }
    }
    proof {
        if base.len() <= n {
            assert(buf@ =~= base + zeros((n - base.len()) as nat));
        } else {
            assert(buf@ =~= base);
        }
    }
}

/// Reads the big-endian 64-bit integer stored at `off` in `buf`.
pub fn get_u64_be(buf: &[u8], off: usize) -> (r: u64)
    requires
        off + 8 <= buf@.len(),
    ensures
        r == be64_val(buf@.subrange(off as int, off + 8)),
{
    let r = ((buf[off] as u64) << 56) | ((buf[off + 1] as u64) << 48) | ((buf[off + 2] as u64)
        << 40) | ((buf[off + 3] as u64) << 32) | ((buf[off + 4] as u64) << 24) | ((buf[off
        + 5] as u64) << 16) | ((buf[off + 6] as u64) << 8) | (buf[off + 7] as u64);
    proof {
        let s = buf@.subrange(off as int, off + 8);
        assert(s[0] == buf@[off as int] && s[1] == buf@[off + 1] && s[2] == buf@[off + 2] && s[3]
            == buf@[off + 3] && s[4] == buf@[off + 4] && s[5] == buf@[off + 5] && s[6] == buf@[off
            + 6] && s[7] == buf@[off + 7]);
    }
    r
}

/// Reads the big-endian 32-bit integer stored at `off` in `buf`.
pub fn get_u32_be(buf: &[u8], off: usize) -> (r: u32)
    requires
        off + 4 <= buf@.len(),
    ensures
        r == be32_val(buf@.subrange(off as int, off + 4)),
{
    let r = ((buf[off] as u32) << 24) | ((buf[off + 1] as u32) << 16) | ((buf[off + 2] as u32)
        << 8) | (buf[off + 3] as u32);
    proof {
        let s = buf@.subrange(off as int, off + 4);
        assert(s[0] == buf@[off as int] && s[1] == buf@[off + 1] && s[2] == buf@[off + 2] && s[3]
            == buf@[off + 3]);
    }
    r
}

} // verus!
