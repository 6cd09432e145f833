//! Big-endian integers and length-prefixed strings of the binary protocol.

use vstd::prelude::*;
use vstd::utf8::{decode_utf8, encode_utf8, valid_utf8};

verus! {

/// What an incremental decoder makes of the bytes buffered so far.
pub enum Decoding<M> {
    /// No complete frame is buffered yet.
    NeedMore,
    /// A frame, and the number of bytes it takes.
    Frame(M, nat),
    /// The buffered bytes cannot start a frame.
    Invalid,
}

/// Why buffered bytes cannot start a frame.
#[derive(Clone, Copy, Debug, PartialEq, Eq)]
pub enum DecodeError {
    /// The first byte is no known message type.
    UnknownTag(u8),
    /// A string field does not hold valid UTF-8.
    BadText,
}

/// The two big-endian bytes of `v`.
pub open spec fn be16(v: u16) -> Seq<u8> {
    seq![(v / 256) as u8, (v % 256) as u8]
}

/// The four big-endian bytes of `v`.
pub open spec fn be32(v: u32) -> Seq<u8> {
    seq![(v / 16777216) as u8, ((v / 65536) % 256) as u8, ((v / 256) % 256) as u8, (v % 256) as u8]
}

/// The 16-bit big-endian integer that starts at `b[i]`.
pub open spec fn be16_at(b: Seq<u8>, i: int) -> u16 {
    (b[i] as int * 256 + b[i + 1] as int) as u16
}

/// The 32-bit big-endian integer that starts at `b[i]`.
pub open spec fn be32_at(b: Seq<u8>, i: int) -> u32 {
    (b[i] as int * 16777216 + b[i + 1] as int * 65536 + b[i + 2] as int * 256
        + b[i + 3] as int) as u32
}

/// The bytes of a string field: one length byte, then the UTF-8 bytes.
pub open spec fn string_field(s: Seq<char>) -> Seq<u8> {
    seq![encode_utf8(s).len() as u8] + encode_utf8(s)
}

/// Whether `s` fits in a string field.
pub open spec fn fits_string_field(s: Seq<char>) -> bool {
    encode_utf8(s).len() <= 255
}

pub proof fn lemma_be16_at(v: u16, pre: Seq<u8>, post: Seq<u8>)
    ensures
        be16_at(pre + be16(v) + post, pre.len() as int) == v,
{
    let b = pre + be16(v) + post;
    assert(b[pre.len() as int] == (v / 256) as u8);
    assert(b[pre.len() as int + 1] == (v % 256) as u8);
}

pub proof fn lemma_be32_at(v: u32, pre: Seq<u8>, post: Seq<u8>)
    ensures
        be32_at(pre + be32(v) + post, pre.len() as int) == v,
{
    let b = pre + be32(v) + post;
    let n = pre.len() as int;
    assert(b[n] == (v / 16777216) as u8);
    assert(b[n + 1] == ((v / 65536) % 256) as u8);
    assert(b[n + 2] == ((v / 256) % 256) as u8);
    assert(b[n + 3] == (v % 256) as u8);
}

/// The big-endian bytes of the integer read at `b[i]` are those bytes.
pub proof fn lemma_be16_bytes(b: Seq<u8>, i: int)
    requires
        0 <= i,
        i + 2 <= b.len(),
    ensures
        be16(be16_at(b, i)) == b.subrange(i, i + 2),
{
    let x = b[i] as int;
    let y = b[i + 1] as int;
    let v = be16_at(b, i);
    assert(v as int == x * 256 + y);
    assert((x * 256 + y) / 256 == x && (x * 256 + y) % 256 == y) by (nonlinear_arith)
        requires
            0 <= x < 256,
            0 <= y < 256,
    ;
    assert(be16(v) =~= b.subrange(i, i + 2));
}

/// The big-endian bytes of the integer read at `b[i]` are those bytes.
pub proof fn lemma_be32_bytes(b: Seq<u8>, i: int)
    requires
        0 <= i,
        i + 4 <= b.len(),
    ensures
        be32(be32_at(b, i)) == b.subrange(i, i + 4),
{
    let w = b[i] as int;
    let x = b[i + 1] as int;
    let y = b[i + 2] as int;
    let z = b[i + 3] as int;
    let v = be32_at(b, i);
    let n = w * 16777216 + x * 65536 + y * 256 + z;
    assert(v as int == n);
    assert(n / 16777216 == w && (n / 65536) % 256 == x && (n / 256) % 256 == y && n % 256 == z)
        by (nonlinear_arith)
        requires
            0 <= w < 256,
            0 <= x < 256,
            0 <= y < 256,
            0 <= z < 256,
            n == w * 16777216 + x * 65536 + y * 256 + z,
    ;
    assert(be32(v) =~= b.subrange(i, i + 4));
}

/// Appends the big-endian bytes of `v`.
pub(crate) fn push_u16(out: &mut Vec<u8>, v: u16)
    ensures
        final(out)@ == old(out)@ + be16(v),
{
    out.push((v / 256) as u8);
    out.push((v % 256) as u8);
    assert(final(out)@ =~= old(out)@ + be16(v));
}

/// Appends the big-endian bytes of `v`.
pub(crate) fn push_u32(out: &mut Vec<u8>, v: u32)
    ensures
        final(out)@ == old(out)@ + be32(v),
{
    out.push((v / 16777216) as u8);
    out.push(((v / 65536) % 256) as u8);
    out.push(((v / 256) % 256) as u8);
    out.push((v % 256) as u8);
    assert(final(out)@ =~= old(out)@ + be32(v));
}

/// Appends the bytes of `b`.
pub(crate) fn push_bytes(out: &mut Vec<u8>, b: &[u8])
    ensures
        final(out)@ == old(out)@ + b@,
{
    let mut i: usize = 0;
    while i < b.len()
        invariant
            i <= b@.len(),
            out@ == old(out)@ + b@.subrange(0, i as int),
        decreases b.len() - i,
    {
        out.push(b[i]);
        assert(b@.subrange(0, i + 1) =~= b@.subrange(0, i as int) + seq![b@[i as int]]);
        i = i + 1;
    }
    assert(b@.subrange(0, b@.len() as int) =~= b@);
}

/// Appends a string field holding `s`.
pub(crate) fn push_string(out: &mut Vec<u8>, s: &String)
    requires
        fits_string_field(s@),
    ensures
        final(out)@ == old(out)@ + string_field(s@),
{
    let bytes = s.as_str().as_bytes();
    out.push(bytes.len() as u8);
    push_bytes(out, bytes);
    assert(final(out)@ =~= old(out)@ + string_field(s@));
}

/// The 16-bit big-endian integer at `b[i]`.
pub(crate) fn read_u16(b: &[u8], i: usize) -> (r: u16)
    requires
        i + 2 <= b@.len(),
    ensures
        r == be16_at(b@, i as int),
{
    (b[i] as u16) * 256 + (b[i + 1] as u16)
}

/// The 32-bit big-endian integer at `b[i]`.
pub(crate) fn read_u32(b: &[u8], i: usize) -> (r: u32)
    requires
        i + 4 <= b@.len(),
    ensures
        r == be32_at(b@, i as int),
{
    (b[i] as u32) * 16777216 + (b[i + 1] as u32) * 65536 + (b[i + 2] as u32) * 256 + (b[i
        + 3] as u32)
}

/// Relies on `std::str::from_utf8`: it succeeds exactly on valid UTF-8, and
/// the text it returns is made of those bytes.
#[verifier::external_body]
fn utf8_str(b: &[u8]) -> (r: Option<&str>)
    ensures
        r is Some <==> valid_utf8(b@),
        r matches Some(s) ==> encode_utf8(s@) == b@,
{
    std::str::from_utf8(b).ok()
}

/// The text whose UTF-8 bytes are `b`, if they are valid UTF-8.
pub(crate) fn text_of_bytes(b: &[u8]) -> (r: Option<String>)
    ensures
        r is Some <==> valid_utf8(b@),
        r matches Some(s) ==> s@ == decode_utf8(b@),
{
    match utf8_str(b) {
        Some(s) => {
            proof {
                vstd::utf8::encode_utf8_decode_utf8(s@);
            }
            Some(s.to_owned())
        },
        None => None,
    }
}

} // verus!
