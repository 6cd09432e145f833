//! Rewriting of chat lines: every word that looks like a coin address is
//! replaced by one fixed address.

use vstd::prelude::*;
use crate::text::{chars_of, push_char, push_str};
use vstd::utf8::encode_utf8;

verus! {

/// The address that replaces every other.
pub const TONYS_ADDRESS: &'static str = "7YWHMfk9JZe0LM0g1ZauHuiSxhI";

/// The pattern of a coin address inside free text, for a regular
/// expression engine: a `7` and 25 to 34 word characters, followed by a
/// space or the end of the text. The second group keeps what follows.
pub const ADDRESS_PATTERN: &'static str = r"(7\w{25,34})( |$)";

/// Whether `c` is ASCII whitespace: space, tab, line feed, form feed or
/// carriage return.
pub open spec fn is_space(c: char) -> bool {
    c == ' ' || c == '\t' || c == '\n' || c == '\x0C' || c == '\r'
}

/// Whether `c` is an ASCII letter or digit.
pub open spec fn is_alnum(c: char) -> bool {
    ('0' <= c <= '9') || ('a' <= c <= 'z') || ('A' <= c <= 'Z')
}

/// Whether `w` looks like a coin address: a `7`, then only ASCII letters
/// and digits, 26 to 35 characters in all.
pub open spec fn is_address(w: Seq<char>) -> bool {
    26 <= w.len() <= 35 && w[0] == '7' && forall|i: int| 0 <= i < w.len() ==> is_alnum(#[trigger] w[i])
}

/// The words of `s` after the partial word `cur`: maximal runs of
/// characters other than ASCII whitespace.
pub open spec fn words_from(s: Seq<char>, cur: Seq<char>) -> Seq<Seq<char>>
    decreases s.len(),
{
    if s.len() == 0 {
        if cur.len() > 0 {
            seq![cur]
        } else {
            Seq::empty()
        }
    } else if is_space(s[0]) {
        (if cur.len() > 0 {
            seq![cur]
        } else {
            Seq::empty()
        }) + words_from(s.drop_first(), Seq::empty())
    } else {
        words_from(s.drop_first(), cur.push(s[0]))
    }
}

/// The words joined with single spaces.
pub open spec fn joined(ws: Seq<Seq<char>>) -> Seq<char>
    decreases ws.len(),
{
    if ws.len() == 0 {
        Seq::empty()
    } else if ws.len() == 1 {
        ws[0]
    } else {
        joined(ws.drop_last()) + seq![' '] + ws.last()
    }
}

/// A word with an address replaced.
pub open spec fn rewritten(w: Seq<char>) -> Seq<char> {
    if is_address(w) {
        TONYS_ADDRESS@
    } else {
        w
    }
}

/// The line `s` with its words rewritten and joined by single spaces.
pub open spec fn replaced(s: Seq<char>) -> Seq<char> {
    joined(words_from(s, Seq::empty()).map_values(|w: Seq<char>| rewritten(w)))
}

fn word_is_address(w: &Vec<char>) -> (r: bool)
    ensures
        r == is_address(w@),
{
    if w.len() < 26 || w.len() > 35 || w[0] != '7' {
        return false;
    }
    let mut i: usize = 0;
    while i < w.len()
        invariant
            i <= w@.len(),
            forall|j: int| 0 <= j < i ==> is_alnum(#[trigger] w@[j]),
        decreases w.len() - i,
    {
        let c = w[i];
        if !(('0' <= c && c <= '9') || ('a' <= c && c <= 'z') || ('A' <= c && c <= 'Z')) {
            assert(!is_alnum(w@[i as int]));
            return false;
        }
        i = i + 1;
    }
    true
}

/// Appends the word `w`, rewritten, after a space unless it is the first.
fn flush(out: &mut String, w: &Vec<char>, any: bool, done: Ghost<Seq<Seq<char>>>)
    requires
        any == (done@.len() > 0),
        w@.len() > 0,
        old(out)@ == joined(done@.map_values(|x: Seq<char>| rewritten(x))),
    ensures
        final(out)@ == joined(done@.push(w@).map_values(|x: Seq<char>| rewritten(x))),
{
    let ghost m = done@.push(w@).map_values(|x: Seq<char>| rewritten(x));
    assert(m.drop_last() =~= done@.map_values(|x: Seq<char>| rewritten(x)));
    if any {
        push_char(out, ' ');
    }
    if word_is_address(w) {
        push_str(out, TONYS_ADDRESS);
    } else {
        let mut i: usize = 0;
        let ghost start = out@;
        while i < w.len()
            invariant
                i <= w@.len(),
                out@ == start + w@.subrange(0, i as int),
            decreases w.len() - i,
        {
            push_char(out, w[i]);
            assert(w@.subrange(0, i + 1) =~= w@.subrange(0, i as int).push(w@[i as int]));
            i = i + 1;
        }
        assert(w@.subrange(0, w@.len() as int) =~= w@);
    }
    assert(final(out)@ =~= joined(m));
}

/// The line with every coin address among its words replaced by
/// `TONYS_ADDRESS`; the words are joined by single spaces.
pub fn replace(line: &str) -> (r: String)
    ensures
        r@ == replaced(line@),
{
    let c = chars_of(line);
    let mut out = String::new();
    let mut cur: Vec<char> = Vec::new();
    let ghost mut done: Seq<Seq<char>> = Seq::empty();
    let mut any = false;
    let mut i: usize = 0;
    assert(c@.subrange(0, c@.len() as int) =~= c@);
    while i < c.len()
        invariant
            i <= c@.len(),
            c@ == line@,
            words_from(line@, Seq::empty()) == done + words_from(
                c@.subrange(i as int, c@.len() as int),
                cur@,
            ),
            out@ == joined(done.map_values(|x: Seq<char>| rewritten(x))),
            any == (done.len() > 0),
        decreases c.len() - i,
    {
        let ch = c[i];
        let ghost rest = c@.subrange(i as int, c@.len() as int);
        assert(rest.drop_first() =~= c@.subrange(i + 1, c@.len() as int));
        if ch == ' ' || ch == '\t' || ch == '\n' || ch == '\x0C' || ch == '\r' {
            if cur.len() > 0 {
                flush(&mut out, &cur, any, Ghost(done));
                any = true;
                proof {
                    assert(done.push(cur@) + words_from(rest.drop_first(), Seq::empty()) =~= done
                        + (seq![cur@] + words_from(rest.drop_first(), Seq::empty())));
                    done = done.push(cur@);
                }
                cur = Vec::new();
            } else {
                assert(done + words_from(rest, cur@) =~= done + words_from(
                    rest.drop_first(),
                    Seq::empty(),
                ));
                cur = Vec::new();
            }
        } else {
            cur.push(ch);
        }
        i = i + 1;
    }
    if cur.len() > 0 {
        flush(&mut out, &cur, any, Ghost(done));
        proof {
            assert(done + words_from(Seq::empty(), cur@) =~= done.push(cur@));
            done = done.push(cur@);
        }
    } else {
        assert(done + words_from(Seq::empty(), cur@) =~= done);
    }
    assert(c@.subrange(c@.len() as int, c@.len() as int) =~= Seq::<char>::empty());
    out
}

/// Whether the byte ends a word in a stream: a space or a line feed.
pub open spec fn is_break(b: u8) -> bool {
    b == 32 || b == 10
}

/// Runs the stream rewriter over `input[used..]` from state `held` (the
/// bytes of a possible address held back, or none) with `out` written so
/// far. Returns the state after, the output, the number of bytes consumed,
/// and whether it stopped early at the `7` that starts a possible address.
///
/// Outside an address bytes pass through. A `7` starts holding bytes back;
/// a space or line feed then ends the word: a held word of 26 bytes or more
/// is replaced by `TONYS_ADDRESS`, a shorter one passes through; a held
/// word that reaches 37 bytes passes through unchanged.
pub open spec fn rewrite_run(held: Option<Seq<u8>>, out: Seq<u8>, input: Seq<u8>, used: nat) -> (
    Option<Seq<u8>>,
    Seq<u8>,
    nat,
    bool,
)
    decreases input.len() - used,
{
    if used >= input.len() {
        (held, out, used, false)
    } else {
        let ch = input[used as int];
        match held {
            None => if ch == 55 {
                (Some(seq![ch]), out, used + 1, true)
            } else {
                rewrite_run(None, out.push(ch), input, used + 1)
            },
            Some(b) => if is_break(ch) {
                if b.len() <= 25 {
                    rewrite_run(None, out + b.push(ch), input, used + 1)
                } else {
                    rewrite_run(None, out + encode_utf8(TONYS_ADDRESS@).push(ch), input, used + 1)
                }
            } else if b.len() <= 35 {
                rewrite_run(Some(b.push(ch)), out, input, used + 1)
            } else {
                rewrite_run(None, out + b.push(ch), input, used + 1)
            },
        }
    }
}

/// Rewrites coin addresses in a byte stream as it passes.
#[derive(Clone, Debug, Default, PartialEq, Eq)]
pub enum MessageDecoder {
    #[default]
    Forwarding,
    Buffering(Vec<u8>),
}

impl MessageDecoder {
    /// The bytes held back, if any.
    pub open spec fn held(&self) -> Option<Seq<u8>> {
        match self {
            MessageDecoder::Forwarding => None,
            MessageDecoder::Buffering(b) => Some(b@),
        }
    }

    /// Rewrites bytes from `src`. Returns what to pass on, if anything, and
    /// how many bytes of `src` were consumed: all of them, or up to and
    /// including a `7` that starts a possible address, in which case what
    /// came before it is passed on even when empty.
    pub fn decode(&mut self, src: &[u8]) -> (r: (Option<Vec<u8>>, usize))
        ensures
            ({
                let (held, out, used, stopped) = rewrite_run(old(self).held(), Seq::empty(), src@, 0);
                &&& final(self).held() == held
                &&& r.1 == used
                &&& match r.0 {
                    Some(v) => v@ == out && (stopped || out.len() > 0),
                    None => !stopped && out.len() == 0,
                }
            }),
    {
        let ghost start = old(self).held();
        let mut response: Vec<u8> = Vec::new();
        let mut i: usize = 0;
        let tony = TONYS_ADDRESS.as_bytes();
        while i < src.len()
            invariant
                i <= src@.len(),
                start == old(self).held(),
                tony@ == encode_utf8(TONYS_ADDRESS@),
                rewrite_run(start, Seq::empty(), src@, 0) == rewrite_run(
                    self.held(),
                    response@,
                    src@,
                    i as nat,
                ),
            decreases src.len() - i,
        {
            let ch = src[i];
            match self {
                MessageDecoder::Forwarding => {
                    if ch == 55 {
                        assert(rewrite_run(None, response@, src@, i as nat) == (
                            Some(seq![ch]),
                            response@,
                            (i + 1) as nat,
                            true,
                        ));
                        *self = MessageDecoder::Buffering(vec![ch]);
                        assert(self.held()->0 =~= seq![ch]);
                        return (Some(response), i + 1);
                    }
                    response.push(ch);
                },
                MessageDecoder::Buffering(bytes) => {
                    let ghost b = bytes@;
                    if ch == 32 || ch == 10 {
                        if bytes.len() <= 25 {
                            bytes.push(ch);
                            let mut k: usize = 0;
                            let ghost r0 = response@;
                            while k < bytes.len()
                                invariant
                                    k <= bytes@.len(),
                                    response@ == r0 + bytes@.subrange(0, k as int),
                                decreases bytes.len() - k,
                            {
                                response.push(bytes[k]);
                                assert(bytes@.subrange(0, k + 1) =~= bytes@.subrange(0, k as int).push(
                                    bytes@[k as int],
                                ));
                                k = k + 1;
                            }
                            assert(bytes@.subrange(0, bytes@.len() as int) =~= bytes@);
                            assert(response@ =~= r0 + b.push(ch));
                        } else {
                            let mut k: usize = 0;
                            let ghost r0 = response@;
                            while k < tony.len()
                                invariant
                                    k <= tony@.len(),
                                    response@ == r0 + tony@.subrange(0, k as int),
                                decreases tony.len() - k,
                            {
                                response.push(tony[k]);
                                assert(tony@.subrange(0, k + 1) =~= tony@.subrange(0, k as int).push(
                                    tony@[k as int],
                                ));
                                k = k + 1;
                            }
                            response.push(ch);
                            assert(tony@.subrange(0, tony@.len() as int) =~= tony@);
                            assert(response@ =~= r0 + tony@.push(ch));
                        }
                        *self = MessageDecoder::Forwarding;
                    } else if bytes.len() <= 35 {
                        bytes.push(ch);
                    } else {
                        bytes.push(ch);
                        let mut k: usize = 0;
                        let ghost r0 = response@;
                        while k < bytes.len()
                            invariant
                                k <= bytes@.len(),
                                response@ == r0 + bytes@.subrange(0, k as int),
                            decreases bytes.len() - k,
                        {
                            response.push(bytes[k]);
                            assert(bytes@.subrange(0, k + 1) =~= bytes@.subrange(0, k as int).push(
                                bytes@[k as int],
                            ));
                            k = k + 1;
                        }
                        assert(bytes@.subrange(0, bytes@.len() as int) =~= bytes@);
                        assert(response@ =~= r0 + b.push(ch));
                        *self = MessageDecoder::Forwarding;
                    }
                },
            }
            i = i + 1;
        }
        if response.len() == 0 {
            (None, i)
        } else {
            (Some(response), i)
        }
    }
}

} // verus!
