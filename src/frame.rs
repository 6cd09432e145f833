//! Frames of the line-oriented reliable session protocol: each frame is a
//! slash-delimited record such as `/ack/SID/LEN/`.

use vstd::prelude::*;
use crate::escape::{
    escape, escaped, lemma_unescape_escaped, needs_escape, unescape_range, unescaped,
};
use crate::wire::{push_bytes, text_of_bytes};
use vstd::utf8::{decode_utf8, encode_utf8, valid_utf8};
use crate::text::{
    all_digits, chars_of, decimal, digit_char, digit_value, digits_value, is_digit, push_char,
    push_decimal, push_str,
};

verus! {

/// The bound that every number of a frame stays below.
pub const NUMBER_LIMIT: u32 = 2147483648;

/// One frame of the session protocol.
#[derive(Clone, Debug, PartialEq, Eq)]
pub enum Frame {
    Connect(u32),
    Ack { session: u32, length: u32 },
    Data { session: u32, position: u32, data: String },
    Close(u32),
}

/// What a frame is, with its payload as characters.
pub enum FrameModel {
    Connect(u32),
    Ack(u32, u32),
    Data(u32, u32, Seq<char>),
    Close(u32),
}

impl FrameModel {
    /// The session that the frame belongs to.
    pub open spec fn session(self) -> u32 {
        match self {
            FrameModel::Connect(s) => s,
            FrameModel::Ack(s, _) => s,
            FrameModel::Data(s, _, _) => s,
            FrameModel::Close(s) => s,
        }
    }
}

impl View for Frame {
    type V = FrameModel;

    open spec fn view(&self) -> FrameModel {
        match self {
            Frame::Connect(s) => FrameModel::Connect(*s),
            Frame::Ack { session, length } => FrameModel::Ack(*session, *length),
            Frame::Data { session, position, data } => FrameModel::Data(
                *session,
                *position,
                data@,
            ),
            Frame::Close(s) => FrameModel::Close(*s),
        }
    }
}

/// Why a text is not a frame.
#[derive(Clone, Copy, Debug, PartialEq, Eq)]
pub enum FrameError {
    Invalid,
}

/// The number that a field of decimal digits stands for, if it is one and
/// lies below the frame number limit.
pub open spec fn number_field(s: Seq<char>) -> Option<u32> {
    if all_digits(s) && digits_value(s) < NUMBER_LIMIT {
        Some(digits_value(s) as u32)
    } else {
        None
    }
}

/// The index of the first `/` in `s` at or after `from`, or `s.len()`.
pub open spec fn next_slash(s: Seq<char>, from: int) -> int
    decreases s.len() - from,
{
    if from >= s.len() || from < 0 {
        s.len() as int
    } else if s[from] == '/' {
        from
    } else {
        next_slash(s, from + 1)
    }
}

/// Whether `p` is a well-escaped, non-empty data payload: each `/` and
/// each `\` in it is escaped by a `\`.
pub open spec fn valid_payload(p: Seq<char>) -> bool {
    p.len() > 0 && escaped_tokens(p)
}

/// Whether `p` is a sequence of the tokens `\\`, `\/` and single
/// characters other than `/` and `\`.
pub open spec fn escaped_tokens(p: Seq<char>) -> bool
    decreases p.len(),
{
    if p.len() == 0 {
        true
    } else if p[0] == '\\' {
        p.len() >= 2 && (p[1] == '\\' || p[1] == '/') && escaped_tokens(p.subrange(2, p.len() as int))
    } else {
        p[0] != '/' && escaped_tokens(p.drop_first())
    }
}

pub open spec fn word_connect() -> Seq<char> {
    seq!['c', 'o', 'n', 'n', 'e', 'c', 't']
}

pub open spec fn word_data() -> Seq<char> {
    seq!['d', 'a', 't', 'a']
}

pub open spec fn word_ack() -> Seq<char> {
    seq!['a', 'c', 'k']
}

pub open spec fn word_close() -> Seq<char> {
    seq!['c', 'l', 'o', 's', 'e']
}

/// The frame that the text `s` denotes, if any: `/connect/N/`, `/close/N/`,
/// `/ack/N/M/` or `/data/N/M/PAYLOAD/`, with numbers of decimal digits below
/// the number limit and a non-empty, well-escaped payload that is unescaped.
pub open spec fn frame_of(s: Seq<char>) -> Option<FrameModel> {
    if s.len() < 2 || s[0] != '/' || s.last() != '/' {
        None
    } else {
        let last = s.len() - 1;
        let i1 = next_slash(s, 1);
        let i2 = next_slash(s, i1 + 1);
        let i3 = next_slash(s, i2 + 1);
        let word = s.subrange(1, i1);
        let f1 = number_field(s.subrange(i1 + 1, i2));
        if i2 == last && word == word_connect() && f1 is Some {
            Some(FrameModel::Connect(f1->0))
        } else if i2 == last && word == word_close() && f1 is Some {
            Some(FrameModel::Close(f1->0))
        } else if i2 < last && i3 <= last {
            let f2 = number_field(s.subrange(i2 + 1, i3));
            if i3 == last && word == word_ack() && f1 is Some && f2 is Some {
                Some(FrameModel::Ack(f1->0, f2->0))
            } else if i3 < last && word == word_data() && f1 is Some && f2 is Some
                && valid_payload(s.subrange(i3 + 1, last)) {
                Some(FrameModel::Data(f1->0, f2->0, unescaped(s.subrange(i3 + 1, last))))
            } else {
                None
            }
        } else {
            None
        }
    }
}

/// The text of a frame, with the payload of a data frame escaped.
pub open spec fn frame_text(f: FrameModel) -> Seq<char> {
    match f {
        FrameModel::Connect(s) => seq!['/'] + word_connect() + seq!['/'] + decimal(s as nat)
            + seq!['/'],
        FrameModel::Ack(s, l) => seq!['/'] + word_ack() + seq!['/'] + decimal(s as nat) + seq![
            '/',
        ] + decimal(l as nat) + seq!['/'],
        FrameModel::Data(s, p, d) => seq!['/'] + word_data() + seq!['/'] + decimal(s as nat)
            + seq!['/'] + decimal(p as nat) + seq!['/'] + escaped(d) + seq!['/'],
        FrameModel::Close(s) => seq!['/'] + word_close() + seq!['/'] + decimal(s as nat) + seq![
            '/',
        ],
    }
}

impl Frame {
    /// The session that the frame belongs to.
    pub fn session_id(&self) -> (r: u32)
        ensures
            r == self@.session(),
    {
        match self {
            Frame::Connect(s) => *s,
            Frame::Ack { session, .. } => *session,
            Frame::Data { session, .. } => *session,
            Frame::Close(s) => *s,
        }
    }

    /// Reads a frame from its text.
    pub fn parse(s: &str) -> (r: Result<Frame, FrameError>)
        ensures
            r is Ok <==> frame_of(s@) is Some,
            r matches Ok(f) ==> f@ == frame_of(s@)->0,
    {
        let c = chars_of(s);
        let n = c.len();
        if n < 2 || c[0] != '/' || c[n - 1] != '/' {
            return Err(FrameError::Invalid);
        }
        let last = n - 1;
        let i1 = find_slash(&c, 1);
        let i2 = find_slash(&c, i1 + 1);
        let f1 = number_in(&c, i1 + 1, i2);
        let is_connect = same_word(&c, 1, i1, "connect");
        let is_close = same_word(&c, 1, i1, "close");
        proof {
            reveal_strlit("connect");
            reveal_strlit("close");
            assert("connect"@ =~= word_connect());
            assert("close"@ =~= word_close());
        }
        if i2 == last && is_connect && f1.is_some() {
            return Ok(Frame::Connect(f1.unwrap()));
        }
        if i2 == last && is_close && f1.is_some() {
            return Ok(Frame::Close(f1.unwrap()));
        }
        if i2 < last {
            let i3 = find_slash(&c, i2 + 1);
            let f2 = number_in(&c, i2 + 1, i3);
            let is_ack = same_word(&c, 1, i1, "ack");
            let is_data = same_word(&c, 1, i1, "data");
            proof {
                reveal_strlit("ack");
                reveal_strlit("data");
                assert("ack"@ =~= word_ack());
                assert("data"@ =~= word_data());
            }
            if i3 > last {
                return Err(FrameError::Invalid);
            }
            if i3 == last && is_ack && f1.is_some() && f2.is_some() {
                return Ok(Frame::Ack { session: f1.unwrap(), length: f2.unwrap() });
            }
            if i3 < last && is_data && f1.is_some() && f2.is_some() && payload_ok(
                &c,
                i3 + 1,
                last,
            ) {
                let data = unescape_range(&c, i3 + 1, last);
                return Ok(Frame::Data { session: f1.unwrap(), position: f2.unwrap(), data });
            }
        }
        Err(FrameError::Invalid)
    }

    /// The text of the frame; a data payload is escaped.
    pub fn encode(&self) -> (r: String)
        ensures
            r@ == frame_text(self@),
    {
        let mut out = String::new();
        push_char(&mut out, '/');
        proof {
            reveal_strlit("connect");
            reveal_strlit("close");
            reveal_strlit("ack");
            reveal_strlit("data");
            assert("connect"@ =~= word_connect());
            assert("close"@ =~= word_close());
            assert("ack"@ =~= word_ack());
            assert("data"@ =~= word_data());
        }
        match self {
            Frame::Connect(session) => {
                push_str(&mut out, "connect");
                push_char(&mut out, '/');
                push_decimal(&mut out, *session);
                push_char(&mut out, '/');
            },
            Frame::Ack { session, length } => {
                push_str(&mut out, "ack");
                push_char(&mut out, '/');
                push_decimal(&mut out, *session);
                push_char(&mut out, '/');
                push_decimal(&mut out, *length);
                push_char(&mut out, '/');
            },
            Frame::Data { session, position, data } => {
                push_str(&mut out, "data");
                push_char(&mut out, '/');
                push_decimal(&mut out, *session);
                push_char(&mut out, '/');
                push_decimal(&mut out, *position);
                push_char(&mut out, '/');
                let escaped_data = escape(data.as_str());
                push_str(&mut out, escaped_data.as_str());
                push_char(&mut out, '/');
            },
            Frame::Close(session) => {
                push_str(&mut out, "close");
                push_char(&mut out, '/');
                push_decimal(&mut out, *session);
                push_char(&mut out, '/');
            },
        }
        assert(out@ =~= frame_text(self@));
        out
    }
}

impl std::str::FromStr for Frame {
    type Err = FrameError;

    fn from_str(s: &str) -> (r: Result<Frame, FrameError>)
        ensures
            r is Ok <==> frame_of(s@) is Some,
            r matches Ok(f) ==> f@ == frame_of(s@)->0,
    {
        Frame::parse(s)
    }
}

/// Frames of the session protocol in datagrams: one frame per datagram, as
/// UTF-8 text.
#[derive(Clone, Copy, Debug, Default, PartialEq, Eq)]
pub struct Lrcp;

impl Lrcp {
    /// Reads the frame in a datagram: nothing from an empty one, an error
    /// unless it is UTF-8 text that is a frame.
    pub fn decode(&mut self, src: &[u8]) -> (r: Result<Option<Frame>, FrameError>)
        ensures
            src@.len() == 0 ==> r == Ok::<Option<Frame>, FrameError>(None),
            src@.len() > 0 ==> (r is Ok <==> valid_utf8(src@) && frame_of(decode_utf8(src@)) is Some),
            src@.len() > 0 && valid_utf8(src@) && frame_of(decode_utf8(src@)) is Some ==> (r matches Ok(
                Some(f),
            ) && f@ == frame_of(decode_utf8(src@))->0),
            r matches Ok(Some(f)) ==> f@ == frame_of(decode_utf8(src@))->0,
    {
        if src.len() == 0 {
            return Ok(None);
        }
        match text_of_bytes(src) {
            None => Err(FrameError::Invalid),
            Some(text) => match Frame::parse(text.as_str()) {
                Ok(f) => Ok(Some(f)),
                Err(e) => Err(e),
            },
        }
    }

    /// Appends the datagram of `item`: the UTF-8 bytes of its text.
    pub fn encode(&mut self, item: &Frame, dst: &mut Vec<u8>)
        ensures
            final(dst)@ == old(dst)@ + encode_utf8(frame_text(item@)),
    {
        let text = item.encode();
        push_bytes(dst, text.as_str().as_bytes());
    }
}

/// Reads a frame number: decimal digits whose value is below the number
/// limit.
pub fn parse_number(n: &str) -> (r: Option<u32>)
    ensures
        r == number_field(n@),
{
    let c = chars_of(n);
    assert(c@.subrange(0, c@.len() as int) =~= c@);
    number_in(&c, 0, c.len())
}

/// The index of the first `/` in `c` at or after `from`, or `c.len()`.
fn find_slash(c: &Vec<char>, from: usize) -> (r: usize)
    requires
        from <= c@.len(),
    ensures
        r as int == next_slash(c@, from as int),
        from <= r <= c@.len(),
        forall|j: int| from <= j < r ==> c@[j] != '/',
{
    let mut i = from;
    while i < c.len() && c[i] != '/'
        invariant
            from <= i <= c@.len(),
            next_slash(c@, from as int) == next_slash(c@, i as int),
            forall|j: int| from <= j < i ==> c@[j] != '/',
        decreases c.len() - i,
    {
        i = i + 1;
    }
    i
}

/// Whether `c[lo..hi]` spells `word`.
fn same_word(c: &Vec<char>, lo: usize, hi: usize, word: &str) -> (r: bool)
    requires
        lo <= hi <= c@.len(),
    ensures
        r == (c@.subrange(lo as int, hi as int) == word@),
{
    let w = chars_of(word);
    if hi - lo != w.len() {
        assert(c@.subrange(lo as int, hi as int).len() != word@.len());
        return false;
    }
    let mut i: usize = 0;
    while i < w.len()
        invariant
            w@ == word@,
            hi - lo == w@.len(),
            lo <= hi <= c@.len(),
            i <= w@.len(),
            forall|j: int| 0 <= j < i ==> c@[lo + j] == w@[j],
        decreases w.len() - i,
    {
        if c[lo + i] != w[i] {
            assert(c@.subrange(lo as int, hi as int)[i as int] != word@[i as int]);
            return false;
        }
        i = i + 1;
    }
    assert(c@.subrange(lo as int, hi as int) =~= word@);
    true
}

proof fn lemma_digits_prefix_grows(s: Seq<char>, k: int)
    requires
        0 <= k <= s.len(),
        all_digits(s) || s.len() == 0 || forall|i: int| 0 <= i < s.len() ==> is_digit(#[trigger] s[i]),
    ensures
        digits_value(s.subrange(0, k)) <= digits_value(s),
    decreases s.len() - k,
{
    if k < s.len() {
        lemma_digits_prefix_grows(s, k + 1);
        assert(s.subrange(0, k + 1).drop_last() =~= s.subrange(0, k));
    } else {
        assert(s.subrange(0, k) =~= s);
    }
}

/// The number written in `c[lo..hi]`, as a frame field.
fn number_in(c: &Vec<char>, lo: usize, hi: usize) -> (r: Option<u32>)
    requires
        lo <= hi <= c@.len(),
    ensures
        r == number_field(c@.subrange(lo as int, hi as int)),
{
    let ghost f = c@.subrange(lo as int, hi as int);
    if lo == hi {
        return None;
    }
    let mut value: u64 = 0;
    let mut i: usize = lo;
    while i < hi
        invariant
            lo <= i <= hi <= c@.len(),
            f == c@.subrange(lo as int, hi as int),
            forall|j: int| lo <= j < i ==> is_digit(#[trigger] c@[j]),
            value == digits_value(c@.subrange(lo as int, i as int)),
            value < NUMBER_LIMIT,
        decreases hi - i,
    {
        let ch = c[i];
        if !('0' <= ch && ch <= '9') {
            assert(!is_digit(f[i - lo]));
            return None;
        }
        let d = (ch as u32 - '0' as u32) as u64;
        assert(c@.subrange(lo as int, i + 1).drop_last() =~= c@.subrange(lo as int, i as int));
        value = value * 10 + d;
        assert(value == digits_value(c@.subrange(lo as int, i + 1)));
        if value >= NUMBER_LIMIT as u64 {
            proof {
                let g = c@.subrange(lo as int, i + 1);
                if all_digits(f) {
                    lemma_digits_prefix_grows(f, i + 1 - lo);
                    assert(f.subrange(0, i + 1 - lo) =~= g);
                }
            }
            return None;
        }
        i = i + 1;
    }
    assert(f =~= c@.subrange(lo as int, i as int));
    Some(value as u32)
}

/// Whether `c[lo..hi]` is a valid payload.
fn payload_ok(c: &Vec<char>, lo: usize, hi: usize) -> (r: bool)
    requires
        lo <= hi <= c@.len(),
    ensures
        r == valid_payload(c@.subrange(lo as int, hi as int)),
{
    let ghost p = c@.subrange(lo as int, hi as int);
    if lo == hi {
        return false;
    }
    let mut i: usize = lo;
    while i < hi
        invariant
            lo <= i <= hi <= c@.len(),
            p == c@.subrange(lo as int, hi as int),
            p.len() > 0,
            escaped_tokens(p) == escaped_tokens(c@.subrange(i as int, hi as int)),
        decreases hi - i,
    {
        let ghost rest = c@.subrange(i as int, hi as int);
        if c[i] == '\\' {
            if i + 1 < hi && (c[i + 1] == '\\' || c[i + 1] == '/') {
                assert(rest.subrange(2, rest.len() as int) =~= c@.subrange(i + 2, hi as int));
                i = i + 2;
            } else {
                return false;
            }
        } else if c[i] == '/' {
            return false;
        } else {
            assert(rest.drop_first() =~= c@.subrange(i + 1, hi as int));
            i = i + 1;
        }
    }
    true
}

proof fn lemma_digit_char(k: nat)
    requires
        k < 10,
    ensures
        is_digit(digit_char(k)),
        digit_value(digit_char(k)) == k,
{
    if k == 0 {
    } else if k == 1 {
    } else if k == 2 {
    } else if k == 3 {
    } else if k == 4 {
    } else if k == 5 {
    } else if k == 6 {
    } else if k == 7 {
    } else if k == 8 {
    } else {
        assert(k == 9);
    }
}

pub(crate) proof fn lemma_decimal(n: nat)
    ensures
        all_digits(decimal(n)),
        digits_value(decimal(n)) == n,
        forall|i: int| 0 <= i < decimal(n).len() ==> #[trigger] decimal(n)[i] != '/',
    decreases n,
{
    let d = decimal(n);
    lemma_digit_char(n % 10);
    if n >= 10 {
        lemma_decimal(n / 10);
        assert(d.drop_last() =~= decimal(n / 10));
        assert(d.last() == digit_char(n % 10));
        assert(digits_value(d) == (n / 10) * 10 + n % 10);
        assert((n / 10) * 10 + n % 10 == n);
    } else {
        assert(d.drop_last() =~= Seq::<char>::empty());
        assert(digits_value(d.drop_last()) == 0);
        assert(d.last() == digit_char(n));
        assert(n % 10 == n);
    }
    assert forall|i: int| 0 <= i < d.len() implies is_digit(#[trigger] d[i]) && d[i] != '/' by {
        if n >= 10 && i < d.len() - 1 {
            assert(d[i] == decimal(n / 10)[i]);
        }
    }
}

proof fn lemma_escaped_payload(d: Seq<char>)
    ensures
        escaped(d).len() >= d.len(),
        escaped_tokens(escaped(d)),
    decreases d.len(),
{
    if d.len() > 0 {
        lemma_escaped_payload(d.drop_first());
        let e = escaped(d);
        let t = escaped(d.drop_first());
        if needs_escape(d[0]) {
            assert(e.subrange(2, e.len() as int) =~= t);
        } else {
            assert(e.drop_first() =~= t);
        }
    }
}

proof fn lemma_next_slash_at(s: Seq<char>, from: int, k: int)
    requires
        0 <= from <= k < s.len(),
        s[k] == '/',
        forall|j: int| from <= j < k ==> s[j] != '/',
    ensures
        next_slash(s, from) == k,
    decreases k - from,
{
    if from < k {
        lemma_next_slash_at(s, from + 1, k);
    }
}

proof fn lemma_one_number(w: Seq<char>, n: u32)
    requires
        n < NUMBER_LIMIT,
        forall|j: int| 0 <= j < w.len() ==> w[j] != '/',
    ensures
        ({
            let t = seq!['/'] + w + seq!['/'] + decimal(n as nat) + seq!['/'];
            let i1 = next_slash(t, 1);
            let i2 = next_slash(t, i1 + 1);
            &&& i1 == 1 + w.len()
            &&& i2 == t.len() - 1
            &&& t.subrange(1, i1) == w
            &&& number_field(t.subrange(i1 + 1, i2)) == Some(n)
        }),
{
    let a = decimal(n as nat);
    lemma_decimal(n as nat);
    let t = seq!['/'] + w + seq!['/'] + a + seq!['/'];
    let i1: int = 1 + w.len() as int;
    let i2: int = i1 + 1 + a.len();
    assert forall|j: int| 1 <= j < i1 implies t[j] != '/' by {
        assert(t[j] == w[j - 1]);
    }
    lemma_next_slash_at(t, 1, i1);
    assert forall|j: int| i1 + 1 <= j < i2 implies t[j] != '/' by {
        assert(t[j] == a[j - i1 - 1]);
    }
    lemma_next_slash_at(t, i1 + 1, i2);
    assert(t.subrange(1, i1) =~= w);
    assert(t.subrange(i1 + 1, i2) =~= a);
}

proof fn lemma_two_numbers(w: Seq<char>, n: u32, m: u32, rest: Seq<char>)
    requires
        n < NUMBER_LIMIT,
        m < NUMBER_LIMIT,
        forall|j: int| 0 <= j < w.len() ==> w[j] != '/',
    ensures
        ({
            let t = seq!['/'] + w + seq!['/'] + decimal(n as nat) + seq!['/'] + decimal(m as nat)
                + seq!['/'] + rest;
            let i1 = next_slash(t, 1);
            let i2 = next_slash(t, i1 + 1);
            let i3 = next_slash(t, i2 + 1);
            &&& i1 == 1 + w.len()
            &&& i2 == i1 + 1 + decimal(n as nat).len()
            &&& i3 == t.len() - rest.len() - 1
            &&& t.subrange(1, i1) == w
            &&& number_field(t.subrange(i1 + 1, i2)) == Some(n)
            &&& number_field(t.subrange(i2 + 1, i3)) == Some(m)
            &&& t.subrange(i3 + 1, t.len() as int) == rest
        }),
{
    let a = decimal(n as nat);
    let b = decimal(m as nat);
    lemma_decimal(n as nat);
    lemma_decimal(m as nat);
    let t = seq!['/'] + w + seq!['/'] + a + seq!['/'] + b + seq!['/'] + rest;
    let i1: int = 1 + w.len() as int;
    let i2: int = i1 + 1 + a.len();
    let i3: int = i2 + 1 + b.len();
    assert forall|j: int| 1 <= j < i1 implies t[j] != '/' by {
        assert(t[j] == w[j - 1]);
    }
    lemma_next_slash_at(t, 1, i1);
    assert forall|j: int| i1 + 1 <= j < i2 implies t[j] != '/' by {
        assert(t[j] == a[j - i1 - 1]);
    }
    lemma_next_slash_at(t, i1 + 1, i2);
    assert forall|j: int| i2 + 1 <= j < i3 implies t[j] != '/' by {
        assert(t[j] == b[j - i2 - 1]);
    }
    lemma_next_slash_at(t, i2 + 1, i3);
    assert(t.subrange(1, i1) =~= w);
    assert(t.subrange(i1 + 1, i2) =~= a);
    assert(t.subrange(i2 + 1, i3) =~= b);
    assert(t.subrange(i3 + 1, t.len() as int) =~= rest);
}

/// Reading the text of a frame gives the frame back, when its numbers lie
/// below the number limit and a data frame carries some data.
pub proof fn lemma_frame_round_trip(f: FrameModel)
    requires
        match f {
            FrameModel::Connect(s) => s < NUMBER_LIMIT,
            FrameModel::Close(s) => s < NUMBER_LIMIT,
            FrameModel::Ack(s, l) => s < NUMBER_LIMIT && l < NUMBER_LIMIT,
            FrameModel::Data(s, p, d) => s < NUMBER_LIMIT && p < NUMBER_LIMIT && d.len() > 0,
        },
    ensures
        frame_of(frame_text(f)) == Some(f),
{
    let t = frame_text(f);
    match f {
        FrameModel::Connect(n) => {
            lemma_one_number(word_connect(), n);
        },
        FrameModel::Close(n) => {
            lemma_one_number(word_close(), n);
        },
        FrameModel::Ack(n, l) => {
            lemma_two_numbers(word_ack(), n, l, Seq::empty());
            assert(t =~= seq!['/'] + word_ack() + seq!['/'] + decimal(n as nat) + seq!['/'] + decimal(
                l as nat,
            ) + seq!['/'] + Seq::<char>::empty());
        },
        FrameModel::Data(n, p, d) => {
            let e = escaped(d);
            lemma_escaped_payload(d);
            lemma_unescape_escaped(d);
            let rest = e + seq!['/'];
            lemma_two_numbers(word_data(), n, p, rest);
            assert(t =~= seq!['/'] + word_data() + seq!['/'] + decimal(n as nat) + seq!['/']
                + decimal(p as nat) + seq!['/'] + rest);
            let i3 = t.len() - rest.len() - 1;
            assert(t.subrange(i3 + 1, t.len() - 1) =~= e);
        },
    }
}

} // verus!
