//! An embedded B+tree page store: fixed-size pages hold internal key-routing
//! nodes or leaf key/value nodes, oversized values spill into chained overflow
//! pages, and the tree engine offers point search, range search, insertion
//! with splitting, deletion with merging, and full rebuild.

use vstd::prelude::*;

pub mod bytes;
pub mod cache;
pub mod config;
pub mod error;
pub mod node;
pub mod ops;
pub mod overflow;
pub mod tree;

use crate::bytes::{be32, be32_val, put_u32_be};
use crate::error::BPlusError;

verus! {

/// Fixed encoded size, in bytes, of a key type.
pub trait Size {
    /// The size the executable `size` reports.
    spec fn spec_size() -> u64;

    fn size() -> (r: u64)
        ensures
            r == Self::spec_size(),
    ;
}

/// A value that can append its byte encoding to a growable buffer.
pub trait EncodableU8 {
    /// The byte image `encode` appends.
    spec fn encoding(&self) -> Seq<u8>;

    /// Appends the encoding of `self` to `buf` and returns the encoded
    /// length, the number of bytes appended.
    fn encode(&self, buf: &mut Vec<u8>) -> (r: Result<u64, BPlusError>)
        ensures
            r matches Ok(n) ==> (final(buf)@ == old(buf)@ + self.encoding() && n
                == self.encoding().len()),
            r is Err ==> final(buf)@ == old(buf)@,
    ;
}

/// A value that can be read back from a byte slice, together with the number
/// of bytes consumed.
pub trait DecodableU8 where Self: Sized {
    fn decode(buf: &[u8]) -> (r: Result<(Self, u64), BPlusError>);
}

impl Size for u64 {
    open spec fn spec_size() -> u64 {
        8
    }

    fn size() -> (r: u64)
        ensures
            r == 8,
    {
        8
    }
}

impl EncodableU8 for u64 {
    open spec fn encoding(&self) -> Seq<u8> {
        crate::bytes::be64(*self)
    }

    /// Always succeeds: appends the eight big-endian bytes of the integer.
    fn encode(&self, buf: &mut Vec<u8>) -> (r: Result<u64, BPlusError>)
        ensures
            r matches Ok(n) && final(buf)@ == old(buf)@ + self.encoding() && n == 8,
    {
        crate::bytes::put_u64_be(buf, *self);
        Ok(8)
    }
}

/// A sample value type for exercising the store: a numeric id followed by
/// free text.
#[derive(Debug)]
pub struct ValueTest {
    pub id: u32,
    pub data: String,
}

/// Relies on String::from_utf8_lossy: bytes that are valid UTF-8 come back
/// as exactly the character sequence they encode.
#[verifier::external_body]
fn bytes_to_string_lossy(b: &[u8]) -> (r: String)
    ensures
        vstd::utf8::valid_utf8(b@) ==> r@ == vstd::utf8::decode_utf8(b@),
{
    String::from_utf8_lossy(b).into_owned()
}

impl EncodableU8 for ValueTest {
    open spec fn encoding(&self) -> Seq<u8> {
        be32(self.id) + vstd::utf8::encode_utf8(self.data@)
    }

    /// Always succeeds: the id big-endian, then the text's UTF-8 bytes.
    fn encode(&self, buf: &mut Vec<u8>) -> (r: Result<u64, BPlusError>)
        ensures
            r matches Ok(n) && final(buf)@ == old(buf)@ + self.encoding()
                && n == self.encoding().len(),
    {
        let start = buf.len();
        put_u32_be(buf, self.id);
        let bytes = self.data.as_str().as_bytes();
        crate::bytes::push_range(buf, bytes, 0, bytes.len());
        proof {
            assert(buf@ =~= old(buf)@ + self.encoding());
        }
        Ok((buf.len() - start) as u64)
    }
}

impl DecodableU8 for ValueTest {
    /// Reads the leading four bytes as the id and takes the rest as text;
    /// byte runs that are not UTF-8 are replaced as `from_utf8_lossy` does.
    /// Fails with `Corrupt` when fewer than four bytes are given.
    fn decode(buf: &[u8]) -> (r: Result<(Self, u64), BPlusError>)
        ensures
            buf@.len() >= 4 ==> (r matches Ok((v, n)) && v.id == be32_val(buf@.subrange(0, 4)) && (
            vstd::utf8::valid_utf8(buf@.skip(4)) ==> (v.data@ == vstd::utf8::decode_utf8(
                buf@.skip(4),
            ) && n == 4 + buf@.skip(4).len()))),
            buf@.len() < 4 ==> (r matches Err(e) && e matches BPlusError::Corrupt),
    {
        if buf.len() < 4 {
            return Err(BPlusError::Corrupt);
        }
        let id = crate::bytes::get_u32_be(buf, 0);
        let rest = crate::bytes::copy_range(buf, 4, buf.len());
        let data = bytes_to_string_lossy(rest.as_slice());
        proof {
            if vstd::utf8::valid_utf8(rest@) {
                vstd::utf8::decode_utf8_encode_utf8(rest@);
            }
        }
        Ok((ValueTest { id, data }, buf.len() as u64))
    }
}

impl DecodableU8 for u64 {
    /// Reads the leading eight bytes as a big-endian integer; fails with
    /// `Corrupt` when fewer than eight bytes are given.
    fn decode(buf: &[u8]) -> (r: Result<(Self, u64), BPlusError>)
        ensures
            buf@.len() >= 8 ==> (r matches Ok((v, n)) && v == crate::bytes::be64_val(
                buf@.subrange(0, 8),
            ) && n == 8),
            buf@.len() < 8 ==> (r matches Err(e) && e matches BPlusError::Corrupt),
    {
        if buf.len() < 8 {
            return Err(BPlusError::Corrupt);
        }
        Ok((crate::bytes::get_u64_be(buf, 0), 8))
    }
}

} // verus!
