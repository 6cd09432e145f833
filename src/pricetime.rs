//! Answers of the price store: one big-endian 32-bit integer each.

use vstd::prelude::*;

verus! {

/// An answer: a mean price.
#[derive(Clone, Copy, Debug, PartialEq, Eq)]
pub struct Response(pub i32);

/// Encodes answers.
#[derive(Clone, Copy, Debug, Default, PartialEq, Eq)]
pub struct ResponseEncoder;

/// The four big-endian two's-complement bytes of `v`.
pub open spec fn be_i32(v: i32) -> Seq<u8> {
    let u = if v >= 0 {
        v as int
    } else {
        v as int + 4294967296
    };
    seq![(u / 16777216) as u8, ((u / 65536) % 256) as u8, ((u / 256) % 256) as u8, (u % 256) as u8]
}

impl ResponseEncoder {
    /// Appends the bytes of `item` to `dst`.
    pub fn encode(&mut self, item: i32, dst: &mut Vec<u8>)
        ensures
            final(dst)@ == old(dst)@ + be_i32(item),
    {
        let u: u32 = if item >= 0 {
            item as u32
        } else {
            (item as i64 + 4294967296) as u32
        };
        dst.push((u / 16777216) as u8);
        dst.push(((u / 65536) % 256) as u8);
        dst.push(((u / 256) % 256) as u8);
        dst.push((u % 256) as u8);
        assert(final(dst)@ =~= old(dst)@ + be_i32(item));
    }
}

} // verus!
