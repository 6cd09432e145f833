//! Options of a small network tool: hexadecimal bytes and line delimiters.

use vstd::prelude::*;
use crate::text::chars_of;

verus! {

/// The value of a hexadecimal digit, either case.
pub open spec fn hex_value(c: char) -> Option<nat> {
    if '0' <= c <= '9' {
        Some((c as int - '0' as int) as nat)
    } else if 'a' <= c <= 'f' {
        Some((c as int - 'a' as int + 10) as nat)
    } else if 'A' <= c <= 'F' {
        Some((c as int - 'A' as int + 10) as nat)
    } else {
        None
    }
}

/// Whether every character of `s` is a hexadecimal digit.
pub open spec fn all_hex(s: Seq<char>) -> bool {
    forall|i: int| 0 <= i < s.len() ==> (#[trigger] hex_value(s[i])) is Some
}

/// The value of the hexadecimal digits `s`.
pub open spec fn hex_digits_value(s: Seq<char>) -> nat
    decreases s.len(),
{
    if s.len() == 0 {
        0
    } else {
        hex_digits_value(s.drop_last()) * 16 + hex_value(s.last())->0
    }
}

/// The digits of `s` after an optional leading `+`.
pub open spec fn unsigned_digits(s: Seq<char>) -> Seq<char> {
    if s.len() > 0 && s[0] == '+' {
        s.drop_first()
    } else {
        s
    }
}

/// The byte that `s` writes in hexadecimal, if any: an optional `+`, then
/// at least one hexadecimal digit, with a value below 256.
pub open spec fn hex_byte(s: Seq<char>) -> Option<u8> {
    let d = unsigned_digits(s);
    if d.len() > 0 && all_hex(d) && hex_digits_value(d) < 256 {
        Some(hex_digits_value(d) as u8)
    } else {
        None
    }
}

/// Why a text is no hexadecimal byte.
#[derive(Clone, Copy, Debug, PartialEq, Eq)]
pub enum HexError {
    Invalid,
}

fn hex_digit(c: char) -> (r: Option<u32>)
    ensures
        r matches Some(v) ==> hex_value(c) == Some(v as nat),
        r is None ==> hex_value(c) is None,
{
    if '0' <= c && c <= '9' {
        Some(c as u32 - '0' as u32)
    } else if 'a' <= c && c <= 'f' {
        Some(c as u32 - 'a' as u32 + 10)
    } else if 'A' <= c && c <= 'F' {
        Some(c as u32 - 'A' as u32 + 10)
    } else {
        None
    }
}

proof fn lemma_hex_prefix_grows(s: Seq<char>, k: int)
    requires
        0 <= k <= s.len(),
        all_hex(s),
    ensures
        hex_digits_value(s.subrange(0, k)) <= hex_digits_value(s),
    decreases s.len() - k,
{
    if k < s.len() {
        lemma_hex_prefix_grows(s, k + 1);
        assert(s.subrange(0, k + 1).drop_last() =~= s.subrange(0, k));
    } else {
        assert(s.subrange(0, k) =~= s);
    }
}

/// Reads one byte written in hexadecimal.
pub fn parse_hex_digit(s: &str) -> (r: Result<u8, HexError>)
    ensures
        r is Ok <==> hex_byte(s@) is Some,
        r matches Ok(b) ==> hex_byte(s@) == Some(b),
{
    let c = chars_of(s);
    let start: usize = if c.len() > 0 && c[0] == '+' {
        1
    } else {
        0
    };
    let ghost d = unsigned_digits(s@);
    assert(d =~= c@.subrange(start as int, c@.len() as int));
    if start == c.len() {
        return Err(HexError::Invalid);
    }
    let mut value: u32 = 0;
    let mut i = start;
    while i < c.len()
        invariant
            start <= i <= c@.len(),
            d == c@.subrange(start as int, c@.len() as int),
            d == unsigned_digits(s@),
            forall|j: int| start <= j < i ==> (#[trigger] hex_value(c@[j])) is Some,
            value == hex_digits_value(c@.subrange(start as int, i as int)),
            value < 256,
        decreases c.len() - i,
    {
        match hex_digit(c[i]) {
            Some(v) => {
                assert(c@.subrange(start as int, i + 1).drop_last() =~= c@.subrange(
                    start as int,
                    i as int,
                ));
                value = value * 16 + v;
                assert(c@.subrange(start as int, i + 1).last() == c@[i as int]);
                assert(value == hex_digits_value(c@.subrange(start as int, i + 1)));
                if value >= 256 {
                    proof {
                        if all_hex(d) {
                            lemma_hex_prefix_grows(d, i + 1 - start);
                            assert(d.subrange(0, i + 1 - start) =~= c@.subrange(
                                start as int,
                                i + 1,
                            ));
                        }
                    }
                    return Err(HexError::Invalid);
                }
            },
            None => {
                assert(d[i - start] == c@[i as int]);
                assert(hex_value(d[i - start]) is None);
                assert(!all_hex(d));
                return Err(HexError::Invalid);
            },
        }
        i = i + 1;
    }
    assert(forall|j: int| 0 <= j < d.len() ==> d[j] == c@[start + j]);
    Ok(value as u8)
}

/// How lines end.
#[derive(Clone, Copy, Debug, Default, PartialEq, Eq)]
pub enum Delimiter {
    #[default]
    Newline,
    CrLf,
    Bare,
}

/// What the tool does.
#[derive(Clone, Debug, PartialEq, Eq)]
pub enum Action {
    /// Send these raw bytes.
    Hex { bytes: Vec<u8> },
    /// Read lines interactively.
    Repl,
}

} // verus!
