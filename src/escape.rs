//! Escaping of data payloads: `\` and `/` are prefixed with `\`.

use vstd::prelude::*;
use crate::text::{chars_of, push_char};

verus! {

/// The escape character of data payloads.
pub const ESCAPE: char = '\\';

/// Whether `c` must be escaped inside a data payload.
pub open spec fn needs_escape(c: char) -> bool {
    c == '\\' || c == '/'
}

/// The escaped form of `s`: each `\` or `/` is preceded by `\`.
pub open spec fn escaped(s: Seq<char>) -> Seq<char>
    decreases s.len(),
{
    if s.len() == 0 {
        Seq::empty()
    } else if needs_escape(s[0]) {
        seq!['\\', s[0]] + escaped(s.drop_first())
    } else {
        seq![s[0]] + escaped(s.drop_first())
    }
}

/// The unescaped form of `s`: a `\` makes the next character literal; a
/// trailing `\` is dropped.
pub open spec fn unescaped(s: Seq<char>) -> Seq<char>
    decreases s.len(),
{
    if s.len() == 0 {
        Seq::empty()
    } else if s[0] == '\\' {
        if s.len() >= 2 {
            seq![s[1]] + unescaped(s.subrange(2, s.len() as int))
        } else {
            Seq::empty()
        }
    } else {
        seq![s[0]] + unescaped(s.drop_first())
    }
}

/// Escaping distributes over concatenation.
pub proof fn lemma_escaped_append(a: Seq<char>, b: Seq<char>)
    ensures
        escaped(a + b) == escaped(a) + escaped(b),
    decreases a.len(),
{
    if a.len() == 0 {
        assert(a + b =~= b);
    } else {
        assert((a + b).drop_first() =~= a.drop_first() + b);
        lemma_escaped_append(a.drop_first(), b);
    }
}

/// Unescaping undoes escaping, for every character sequence.
pub proof fn lemma_unescape_escaped(s: Seq<char>)
    ensures
        unescaped(escaped(s)) == s,
    decreases s.len(),
{
    if s.len() > 0 {
        lemma_unescape_escaped(s.drop_first());
        let e = escaped(s);
        if needs_escape(s[0]) {
            assert(e.subrange(2, e.len() as int) =~= escaped(s.drop_first()));
        } else {
            assert(e.drop_first() =~= escaped(s.drop_first()));
        }
        assert(s =~= seq![s[0]] + s.drop_first());
    }
}

/// Escapes `\` and `/` in `string` by prefixing each with `\`.
pub fn escape(string: &str) -> (r: String)
    ensures
        r@ == escaped(string@),
{
    let chars = chars_of(string);
    let mut token = String::new();
    let mut i: usize = 0;
    while i < chars.len()
        invariant
            i <= chars@.len(),
            token@ == escaped(chars@.subrange(0, i as int)),
        decreases chars.len() - i,
    {
        let ch = chars[i];
        proof {
            let pre = chars@.subrange(0, i as int);
            assert(chars@.subrange(0, i + 1) =~= pre + seq![ch]);
            lemma_escaped_append(pre, seq![ch]);
            assert(seq![ch].drop_first() =~= Seq::<char>::empty());
            assert(escaped(Seq::<char>::empty()) == Seq::<char>::empty());
            if needs_escape(ch) {
                assert(escaped(seq![ch]) =~= seq!['\\', ch]);
            } else {
                assert(escaped(seq![ch]) =~= seq![ch]);
            }
        }
        if ch == ESCAPE || ch == '/' {
            push_char(&mut token, ESCAPE);
        }
        push_char(&mut token, ch);
        proof {
            let pre = chars@.subrange(0, i as int);
            if needs_escape(ch) {
                assert(token@ =~= escaped(pre) + seq!['\\', ch]);
            } else {
                assert(token@ =~= escaped(pre) + seq![ch]);
            }
        }
        i = i + 1;
    }
    assert(chars@.subrange(0, chars@.len() as int) =~= chars@);
    token
}

/// Removes one level of escaping: each `\` makes the character after it
/// literal, and a `\` at the very end is dropped.
pub fn unescape(string: &str) -> (r: String)
    ensures
        r@ == unescaped(string@),
{
    let chars = chars_of(string);
    assert(chars@.subrange(0, chars@.len() as int) =~= chars@);
    unescape_range(&chars, 0, chars.len())
}

/// Unescapes the characters `chars[lo..hi]`.
pub(crate) fn unescape_range(chars: &Vec<char>, lo: usize, hi: usize) -> (r: String)
    requires
        lo <= hi <= chars@.len(),
    ensures
        r@ == unescaped(chars@.subrange(lo as int, hi as int)),
{
    let ghost whole = chars@.subrange(lo as int, hi as int);
    let mut token = String::new();
    let mut i: usize = lo;
    while i < hi
        invariant
            lo <= i <= hi <= chars@.len(),
            whole == chars@.subrange(lo as int, hi as int),
            token@ + unescaped(chars@.subrange(i as int, hi as int)) == unescaped(whole),
        decreases hi - i,
    {
        let ghost rest = chars@.subrange(i as int, hi as int);
        let ch = chars[i];
        if ch == ESCAPE {
            if i + 1 < hi {
                let next = chars[i + 1];
                push_char(&mut token, next);
                assert(rest.subrange(2, rest.len() as int)
                    =~= chars@.subrange(i + 2, hi as int));
                i = i + 2;
            } else {
                i = i + 1;
                assert(chars@.subrange(i as int, hi as int) =~= Seq::<char>::empty());
            }
        } else {
            push_char(&mut token, ch);
            assert(rest.drop_first() =~= chars@.subrange(i + 1, hi as int));
            i = i + 1;
        }
    }
    token
}

} // verus!
