//! The two halves of a session of the reliable stream protocol: the reader
//! puts received data in order, the writer keeps what was sent until the
//! peer acknowledges it.

use vstd::prelude::*;
use vstd::utf8::encode_utf8;
use crate::frame::{frame_text, lemma_decimal, word_data, Frame, FrameModel, NUMBER_LIMIT};
use crate::escape::{escaped, needs_escape};
use crate::text::decimal;
use crate::text::{chars_of, push_char};
use vstd::utf8::encode_scalar;

verus! {

/// The number of bytes of the UTF-8 form of the first `k` characters of
/// `text`: the byte offset at which character `k` starts.
pub open spec fn byte_offset(text: Seq<char>, k: int) -> nat {
    encode_utf8(text.subrange(0, k)).len()
}

/// The UTF-8 form of a concatenation is the concatenation of the forms.
pub proof fn lemma_encode_append(a: Seq<char>, b: Seq<char>)
    ensures
        encode_utf8(a + b) == encode_utf8(a) + encode_utf8(b),
    decreases a.len(),
{
    if a.len() == 0 {
        assert(a + b =~= b);
        assert(encode_utf8(a) =~= Seq::<u8>::empty());
        assert(encode_utf8(a) + encode_utf8(b) =~= encode_utf8(b));
    } else {
        assert((a + b).drop_first() =~= a.drop_first() + b);
        assert((a + b)[0] == a[0]);
        lemma_encode_append(a.drop_first(), b);
        assert(encode_utf8(a + b) =~= encode_utf8(a) + encode_utf8(b));
    }
}

/// The UTF-8 form of `text[i..j]` is the part of the whole form between
/// the byte offsets of `i` and `j`.
pub proof fn lemma_encode_range(text: Seq<char>, i: int, j: int)
    requires
        0 <= i <= j <= text.len(),
    ensures
        byte_offset(text, i) <= byte_offset(text, j) <= encode_utf8(text).len(),
        encode_utf8(text.subrange(i, j)) == encode_utf8(text).subrange(
            byte_offset(text, i) as int,
            byte_offset(text, j) as int,
        ),
{
    let a = text.subrange(0, i);
    let m = text.subrange(i, j);
    let c = text.subrange(j, text.len() as int);
    lemma_encode_append(a, m);
    lemma_encode_append(a + m, c);
    assert(a + m =~= text.subrange(0, j));
    assert(a + m + c =~= text);
    assert(encode_utf8(text).subrange(byte_offset(text, i) as int, byte_offset(text, j) as int)
        =~= encode_utf8(m));
}

/// The number of bytes of the UTF-8 form of `c`.
fn char_width(c: char) -> (w: u32)
    ensures
        w == encode_utf8(seq![c]).len(),
        1 <= w <= 4,
{
    proof {
        vstd::utf8::char_is_scalar(c);
        assert(seq![c].drop_first() =~= Seq::<char>::empty());
        assert(encode_utf8(seq![c]) == encode_scalar(c as u32) + encode_utf8(Seq::<char>::empty()));
    }
    let v = c as u32;
    if v <= 0x7F {
        1
    } else if v <= 0x7FF {
        2
    } else if v <= 0xFFFF {
        3
    } else {
        4
    }
}

/// The byte offset of character `k` of `text`, which is at most `bound`.
fn byte_offset_exec(text: &Vec<char>, k: usize, bound: u32) -> (r: u32)
    requires
        k <= text@.len(),
        byte_offset(text@, k as int) <= bound,
    ensures
        r == byte_offset(text@, k as int),
{
    let mut j: usize = 0;
    let mut b: u32 = 0;
    assert(text@.subrange(0, 0) =~= Seq::<char>::empty());
    while j < k
        invariant
            j <= k <= text@.len(),
            b == byte_offset(text@, j as int),
            byte_offset(text@, k as int) <= bound,
        decreases k - j,
    {
        proof {
            lemma_offset_step(text@, j as int);
            lemma_encode_range(text@, j + 1, k as int);
        }
        b = b + char_width(text[j]);
        j = j + 1;
    }
    b
}

/// Text of ASCII characters takes one byte per character.
proof fn lemma_ascii_len(s: Seq<char>)
    requires
        forall|i: int| 0 <= i < s.len() ==> (#[trigger] s[i] as u32) <= 0x7F,
    ensures
        encode_utf8(s).len() == s.len(),
    decreases s.len(),
{
    if s.len() > 0 {
        lemma_ascii_len(s.drop_first());
    }
}

/// The decimal form of a 32-bit number has at most ten digits.
proof fn lemma_decimal_len(n: nat, k: nat)
    requires
        n < pow10(k),
        k >= 1,
    ensures
        decimal(n).len() <= k,
    decreases n,
{
    if n >= 10 {
        assert(k >= 2) by {
            if k == 1 {
                assert(pow10(1) == 10 * pow10(0));
            }
        }
        assert(pow10(k) == 10 * pow10((k - 1) as nat));
        assert(n / 10 < pow10((k - 1) as nat)) by (nonlinear_arith)
            requires
                n < 10 * pow10((k - 1) as nat),
        ;
        lemma_decimal_len(n / 10, (k - 1) as nat);
    }
}

spec fn pow10(k: nat) -> nat
    decreases k,
{
    if k == 0 {
        1
    } else {
        10 * pow10((k - 1) as nat)
    }
}

/// Escaped text takes at most four bytes for each character it escapes.
proof fn lemma_escaped_bytes(d: Seq<char>)
    ensures
        encode_utf8(escaped(d)).len() <= 4 * d.len(),
    decreases d.len(),
{
    if d.len() > 0 {
        lemma_escaped_bytes(d.drop_first());
        let head = if needs_escape(d[0]) {
            seq!['\\', d[0]]
        } else {
            seq![d[0]]
        };
        assert(escaped(d) == head + escaped(d.drop_first()));
        lemma_encode_append(head, escaped(d.drop_first()));
        if needs_escape(d[0]) {
            lemma_ascii_len(head);
        } else {
            lemma_char_len(d[0]);
        }
    }
}

/// A data frame with at most `CHUNK` characters of data takes at most a
/// thousand bytes.
pub proof fn lemma_data_frame_size(s: u32, p: u32, d: Seq<char>)
    requires
        d.len() <= CHUNK,
    ensures
        encode_utf8(frame_text(FrameModel::Data(s, p, d))).len() <= 1000,
{
    let a = decimal(s as nat);
    let b = decimal(p as nat);
    lemma_decimal(s as nat);
    lemma_decimal(p as nat);
    reveal_with_fuel(pow10, 11);
    assert(pow10(10) == 10000000000);
    lemma_decimal_len(s as nat, 10);
    lemma_decimal_len(p as nat, 10);
    let head = seq!['/'] + word_data() + seq!['/'] + a + seq!['/'] + b + seq!['/'];
    assert forall|i: int| 0 <= i < head.len() implies (#[trigger] head[i] as u32) <= 0x7F by {
        if 6 <= i < 6 + a.len() {
            assert(head[i] == a[i - 6]);
            assert(crate::text::is_digit(a[i - 6]));
        } else if 7 + a.len() <= i < 7 + a.len() + b.len() {
            assert(head[i] == b[i - 7 - a.len()]);
            assert(crate::text::is_digit(b[i - 7 - a.len()]));
        }
    }
    lemma_ascii_len(head);
    lemma_ascii_len(seq!['/']);
    lemma_escaped_bytes(d);
    assert(frame_text(FrameModel::Data(s, p, d)) == head + escaped(d) + seq!['/']);
    lemma_encode_append(head, escaped(d));
    lemma_encode_append(head + escaped(d), seq!['/']);
}

proof fn lemma_char_len(c: char)
    ensures
        1 <= encode_utf8(seq![c]).len() <= 4,
{
    vstd::utf8::char_is_scalar(c);
    assert(seq![c].drop_first() =~= Seq::<char>::empty());
    assert(encode_utf8(seq![c]) == encode_scalar(c as u32) + encode_utf8(Seq::<char>::empty()));
}

proof fn lemma_offset_step(text: Seq<char>, k: int)
    requires
        0 <= k < text.len(),
    ensures
        byte_offset(text, k + 1) == byte_offset(text, k) + encode_utf8(seq![text[k]]).len(),
{
    assert(text.subrange(0, k + 1) =~= text.subrange(0, k) + seq![text[k]]);
    lemma_encode_append(text.subrange(0, k), seq![text[k]]);
}

/// Characters of outgoing data per data frame. Each character takes at
/// most four bytes on the wire, escaped or not, so a data frame stays under
/// a thousand bytes.
pub const CHUNK: usize = 240;

/// The delivered bytes after a data frame at `position` with `bytes`: the
/// bytes are appended when the frame starts right where the delivered bytes
/// end and the new length stays below the number limit.
pub open spec fn after_data(delivered: Seq<u8>, position: u32, bytes: Seq<u8>) -> Seq<u8> {
    if position == delivered.len() && delivered.len() + bytes.len() < NUMBER_LIMIT {
        delivered + bytes
    } else {
        delivered
    }
}

/// If the delivered bytes are a prefix of what the peer sends, and a data
/// frame carries the peer's bytes at its position, the delivered bytes
/// after it are still a prefix of what the peer sends: nothing is skipped,
/// repeated or reordered.
pub proof fn lemma_delivered_prefix(peer: Seq<u8>, delivered: Seq<u8>, position: u32, bytes: Seq<u8>)
    requires
        delivered.len() <= peer.len(),
        delivered == peer.subrange(0, delivered.len() as int),
        position + bytes.len() <= peer.len(),
        bytes == peer.subrange(position as int, position + bytes.len()),
    ensures
        after_data(delivered, position, bytes).len() <= peer.len(),
        after_data(delivered, position, bytes) == peer.subrange(
            0,
            after_data(delivered, position, bytes).len() as int,
        ),
{
    if position == delivered.len() && delivered.len() + bytes.len() < NUMBER_LIMIT {
        assert(delivered + bytes =~= peer.subrange(0, (delivered.len() + bytes.len()) as int));
    }
}

/// The delivered bytes after the data frames `frames` (position and bytes
/// of each), in order.
pub open spec fn after_frames(delivered: Seq<u8>, frames: Seq<(u32, Seq<u8>)>) -> Seq<u8>
    decreases frames.len(),
{
    if frames.len() == 0 {
        delivered
    } else {
        after_frames(after_data(delivered, frames[0].0, frames[0].1), frames.drop_first())
    }
}

/// However many data frames arrive, in whatever order, as long as each
/// carries the peer's bytes at its position, the delivered bytes stay a
/// prefix of what the peer sends.
pub proof fn lemma_delivered_prefix_all(peer: Seq<u8>, delivered: Seq<u8>, frames: Seq<(u32, Seq<u8>)>)
    requires
        delivered.len() <= peer.len(),
        delivered == peer.subrange(0, delivered.len() as int),
        forall|k: int|
            0 <= k < frames.len() ==> (#[trigger] frames[k]).0 + frames[k].1.len() <= peer.len()
                && frames[k].1 == peer.subrange(frames[k].0 as int, frames[k].0 + frames[k].1.len()),
    ensures
        after_frames(delivered, frames).len() <= peer.len(),
        after_frames(delivered, frames) == peer.subrange(0, after_frames(delivered, frames).len() as int),
    decreases frames.len(),
{
    if frames.len() > 0 {
        assert(frames[0] == frames[0]);
        lemma_delivered_prefix(peer, delivered, frames[0].0, frames[0].1);
        let rest = frames.drop_first();
        assert forall|k: int| 0 <= k < rest.len() implies (#[trigger] rest[k]).0 + rest[k].1.len()
            <= peer.len() && rest[k].1 == peer.subrange(rest[k].0 as int, rest[k].0 + rest[k].1.len()) by {
            assert(rest[k] == frames[k + 1]);
        }
        lemma_delivered_prefix_all(peer, after_data(delivered, frames[0].0, frames[0].1), rest);
    }
}

/// The receiving half of a session.
pub struct Reader {
    pub(crate) id: u32,
    length: u32,
    delivered: Ghost<Seq<u8>>,
}

impl Reader {
    /// The session.
    pub closed spec fn session(self) -> u32 {
        self.id
    }

    /// The bytes delivered to the application so far, in order.
    pub closed spec fn delivered(self) -> Seq<u8> {
        self.delivered@
    }

    /// The number of contiguous bytes received.
    pub closed spec fn received(self) -> u32 {
        self.length
    }

    pub closed spec fn wf(self) -> bool {
        self.length == self.delivered@.len() && self.length < NUMBER_LIMIT
    }

    /// A well-formed reader has received exactly the bytes it delivered.
    pub proof fn lemma_wf(self)
        requires
            self.wf(),
        ensures
            self.received() == self.delivered().len(),
            self.received() < NUMBER_LIMIT,
    {
    }

    /// A reader for session `id` that has received nothing.
    pub fn with_id(id: u32) -> (r: Reader)
        ensures
            r.wf(),
            r.session() == id,
            r.received() == 0,
            r.delivered() == Seq::<u8>::empty(),
    {
        Reader { id, length: 0, delivered: Ghost(Seq::empty()) }
    }

    /// The acknowledgement of everything received so far.
    pub fn ack(&self) -> (f: Frame)
        ensures
            f@ == FrameModel::Ack(self.session(), self.received()),
    {
        Frame::Ack { session: self.id, length: self.length }
    }

    /// Takes in a data frame at `position` carrying `data`, whose bytes are
    /// its UTF-8 encoding. Returns the acknowledgement to send, if any, and
    /// whether `data` goes to the application.
    ///
    /// Data that starts where the received bytes end is delivered and
    /// acknowledged; data from before that is acknowledged with what was
    /// received; data from beyond it is ignored.
    pub fn handle_data(&mut self, position: u32, data: &str) -> (r: (Option<Frame>, bool))
        requires
            old(self).wf(),
        ensures
            final(self).wf(),
            final(self).session() == old(self).session(),
            final(self).delivered() == after_data(old(self).delivered(), position, encode_utf8(data@)),
            r.1 == (position == old(self).received() && old(self).received() + encode_utf8(
                data@,
            ).len() < NUMBER_LIMIT),
            r.1 ==> final(self).delivered() == old(self).delivered() + encode_utf8(data@),
            r.0 matches Some(f) ==> f@ == FrameModel::Ack(final(self).session(), final(self).received()),
            r.0 is Some <==> (position < old(self).received() || r.1),
            final(self).received() == final(self).delivered().len(),
    {
        let n = data.as_bytes().len();
        if position == self.length && n < NUMBER_LIMIT as usize && (self.length as usize) < (NUMBER_LIMIT as usize) - n {
            self.length = self.length + n as u32;
            self.delivered = Ghost(self.delivered@ + encode_utf8(data@));
            (Some(Frame::Ack { session: self.id, length: self.length }), true)
        } else if position < self.length {
            (Some(Frame::Ack { session: self.id, length: self.length }), false)
        } else {
            (None, false)
        }
    }
}

/// What an acknowledgement did to the writer.
#[derive(Clone, Copy, Debug, PartialEq, Eq)]
pub enum AckOutcome {
    /// It acknowledged bytes never sent: the session is to be closed.
    Close,
    /// It acknowledged nothing new.
    Ignored,
    /// It acknowledged new bytes.
    Advanced,
}

/// The data frame that carries the `i`-th chunk of the unacknowledged text
/// `text[acked..]` of session `id`: its position is the byte offset of its
/// first character.
pub open spec fn chunk_frame(id: u32, text: Seq<char>, acked: int, i: int) -> FrameModel {
    let start = acked + i * CHUNK;
    let end = if start + CHUNK < text.len() {
        start + CHUNK
    } else {
        text.len() as int
    };
    FrameModel::Data(id, byte_offset(text, start) as u32, text.subrange(start, end))
}

/// The sending half of a session. Positions and acknowledgements count the
/// bytes of the UTF-8 form of the text handed over.
pub struct Writer {
    id: u32,
    acked_chars: usize,
    length: u32,
    text: Vec<char>,
    sent_len: u32,
}

impl Writer {
    /// The session.
    pub closed spec fn session(self) -> u32 {
        self.id
    }

    /// The text handed over by the application so far.
    pub closed spec fn text(self) -> Seq<char> {
        self.text@
    }

    /// The bytes handed over by the application so far.
    pub open spec fn sent(self) -> Seq<u8> {
        encode_utf8(self.text())
    }

    /// The number of characters the peer has acknowledged.
    pub closed spec fn acked_text(self) -> nat {
        self.acked_chars as nat
    }

    /// The number of bytes the peer has acknowledged.
    pub closed spec fn acked(self) -> u32 {
        self.length
    }

    pub closed spec fn wf(self) -> bool {
        &&& self.acked_chars <= self.text@.len()
        &&& byte_offset(self.text@, self.acked_chars as int) <= self.length <= self.sent_len
        &&& self.acked_chars < self.text@.len() ==> self.length < byte_offset(
            self.text@,
            self.acked_chars + 1,
        )
        &&& self.sent_len == encode_utf8(self.text@).len()
        &&& self.sent_len < NUMBER_LIMIT
    }

    /// What a well-formed writer has acknowledged: no more than was sent,
    /// and the characters it counts as acknowledged are the whole ones
    /// among the acknowledged bytes.
    pub proof fn lemma_wf(self)
        requires
            self.wf(),
        ensures
            self.acked_text() <= self.text().len(),
            byte_offset(self.text(), self.acked_text() as int) <= self.acked(),
            self.acked_text() < self.text().len() ==> self.acked() < byte_offset(
                self.text(),
                self.acked_text() as int + 1,
            ),
            self.acked() <= self.sent().len() < NUMBER_LIMIT,
    {
    }

    /// A writer for session `id` that has sent nothing.
    pub fn with_id(id: u32) -> (r: Writer)
        ensures
            r.wf(),
            r.session() == id,
            r.acked() == 0,
            r.acked_text() == 0,
            r.text() == Seq::<char>::empty(),
    {
        let r = Writer { id, acked_chars: 0, length: 0, text: Vec::new(), sent_len: 0 };
        assert(r.text@.subrange(0, 0) =~= Seq::<char>::empty());
        r
    }

    /// Hands `text` over for sending. It is taken unless the stream would
    /// reach the number limit of bytes.
    pub fn push(&mut self, text: &str) -> (accepted: bool)
        requires
            old(self).wf(),
        ensures
            final(self).wf(),
            final(self).session() == old(self).session(),
            final(self).acked() == old(self).acked(),
            final(self).acked_text() == old(self).acked_text(),
            accepted == (old(self).sent().len() + encode_utf8(text@).len() < NUMBER_LIMIT),
            final(self).text() == if accepted {
                old(self).text() + text@
            } else {
                old(self).text()
            },
            accepted ==> final(self).sent() == old(self).sent() + encode_utf8(text@),
    {
        let n = text.as_bytes().len();
        if n >= NUMBER_LIMIT as usize || self.sent_len as usize >= (NUMBER_LIMIT as usize) - n {
            return false;
        }
        let chars = chars_of(text);
        let mut i: usize = 0;
        while i < chars.len()
            invariant
                i <= chars@.len(),
                chars@ == text@,
                self.id == old(self).id,
                self.length == old(self).length,
                self.acked_chars == old(self).acked_chars,
                self.sent_len == old(self).sent_len,
                self.text@ == old(self).text@ + chars@.subrange(0, i as int),
            decreases chars.len() - i,
        {
            self.text.push(chars[i]);
            assert(chars@.subrange(0, i + 1) =~= chars@.subrange(0, i as int) + seq![chars@[i as int]]);
            i = i + 1;
        }
        proof {
            assert(chars@.subrange(0, chars@.len() as int) =~= text@);
            lemma_encode_append(old(self).text@, text@);
            let k = old(self).acked_chars as int;
            assert(self.text@.subrange(0, k) =~= old(self).text@.subrange(0, k));
            if k < old(self).text@.len() {
                assert(self.text@.subrange(0, k + 1) =~= old(self).text@.subrange(0, k + 1));
            } else {
                assert(old(self).text@.subrange(0, k) =~= old(self).text@);
                if k < self.text@.len() {
                    lemma_offset_step(self.text@, k);
                    lemma_char_len(self.text@[k]);
                }
            }
        }
        self.sent_len = self.sent_len + n as u32;
        true
    }

    /// Takes in an acknowledgement of the first `length` bytes. An
    /// acknowledgement of bytes never sent closes the session; one that
    /// adds nothing is ignored; any other becomes the acknowledged length.
    pub fn handle_ack(&mut self, length: u32) -> (r: AckOutcome)
        requires
            old(self).wf(),
        ensures
            final(self).wf(),
            final(self).session() == old(self).session(),
            final(self).text() == old(self).text(),
            length > old(self).sent().len() ==> r == AckOutcome::Close && final(self).acked() == old(self).acked(),
            length <= old(self).acked() ==> r == AckOutcome::Ignored && final(self).acked() == old(self).acked()
                && final(self).acked_text() == old(self).acked_text(),
            old(self).acked() < length <= old(self).sent().len() ==> r == AckOutcome::Advanced
                && final(self).acked() == length,
    {
        if length > self.sent_len {
            return AckOutcome::Close;
        }
        if length <= self.length {
            return AckOutcome::Ignored;
        }
        let mut k: usize = self.acked_chars;
        let mut b: u32 = byte_offset_exec(&self.text, k, self.length);
        while k < self.text.len() && b + char_width(self.text[k]) <= length
            invariant
                old(self).wf(),
                self.id == old(self).id,
                self.text == old(self).text,
                self.sent_len == old(self).sent_len,
                k <= self.text@.len(),
                b == byte_offset(self.text@, k as int),
                b <= length <= self.sent_len,
            decreases self.text.len() - k,
        {
            proof {
                lemma_offset_step(self.text@, k as int);
            }
            b = b + char_width(self.text[k]);
            k = k + 1;
        }
        proof {
            if k < self.text@.len() {
                lemma_offset_step(self.text@, k as int);
            }
        }
        self.acked_chars = k;
        self.length = length;
        AckOutcome::Advanced
    }

    /// The data frames that carry the unacknowledged text, in chunks of
    /// `CHUNK` characters from the first unacknowledged one. The UTF-8 form
    /// of each frame's data is exactly the bytes sent at its position.
    #[verifier::rlimit(60)]
    pub fn pending(&self) -> (r: Vec<Frame>)
        requires
            self.wf(),
        ensures
            self.acked_text() + r@.len() * CHUNK >= self.text().len(),
            r@.len() == 0 || self.acked_text() + (r@.len() - 1) * CHUNK < self.text().len(),
            forall|i: int|
                0 <= i < r@.len() ==> (#[trigger] r@[i])@ == chunk_frame(
                    self.session(),
                    self.text(),
                    self.acked_text() as int,
                    i,
                ),
            forall|i: int|
                0 <= i < r@.len() ==> match (#[trigger] r@[i])@ {
                    FrameModel::Data(_, p, d) => encode_utf8(d) == self.sent().subrange(
                        p as int,
                        p + encode_utf8(d).len(),
                    ),
                    _ => false,
                },
            forall|i: int|
                0 <= i < r@.len() ==> encode_utf8(frame_text((#[trigger] r@[i])@)).len() <= 1000,
    {
        let mut r: Vec<Frame> = Vec::new();
        let mut start: usize = self.acked_chars;
        let mut pos: u32 = byte_offset_exec(&self.text, start, self.length);
        let total = self.text.len();
        while start < total
            invariant
                self.wf(),
                total == self.text@.len(),
                start <= total,
                pos == byte_offset(self.text@, start as int),
                start == self.acked_chars + r@.len() * CHUNK || (start == total && self.acked_chars
                    + r@.len() * CHUNK >= total),
                r@.len() == 0 || self.acked_chars + (r@.len() - 1) * CHUNK < total,
                forall|i: int|
                    0 <= i < r@.len() ==> (#[trigger] r@[i])@ == chunk_frame(
                        self.id,
                        self.text@,
                        self.acked_chars as int,
                        i,
                    ),
                forall|i: int|
                    0 <= i < r@.len() ==> match (#[trigger] r@[i])@ {
                        FrameModel::Data(_, p, d) => encode_utf8(d) == encode_utf8(self.text@).subrange(
                            p as int,
                            p + encode_utf8(d).len(),
                        ),
                        _ => false,
                    },
                forall|i: int|
                    0 <= i < r@.len() ==> encode_utf8(frame_text((#[trigger] r@[i])@)).len() <= 1000,
            decreases total - start,
        {
            let end = if total - start > CHUNK {
                start + CHUNK
            } else {
                total
            };
            let mut data = String::new();
            let mut j: usize = start;
            let mut next: u32 = pos;
            while j < end
                invariant
                    self.wf(),
                    start <= j <= end <= total,
                    total == self.text@.len(),
                    data@ == self.text@.subrange(start as int, j as int),
                    next == byte_offset(self.text@, j as int),
                decreases end - j,
            {
                proof {
                    lemma_offset_step(self.text@, j as int);
                    lemma_encode_range(self.text@, j + 1, total as int);
                    assert(self.text@.subrange(0, total as int) =~= self.text@);
                }
                let c = self.text[j];
                push_char(&mut data, c);
                next = next + char_width(c);
                assert(self.text@.subrange(start as int, j + 1) =~= self.text@.subrange(
                    start as int,
                    j as int,
                ).push(c));
                j = j + 1;
            }
            proof {
                lemma_encode_range(self.text@, start as int, end as int);
                lemma_encode_range(self.text@, end as int, total as int);
                assert(self.text@.subrange(0, total as int) =~= self.text@);
            }
            let ghost k = r@.len() as int;
            proof {
                lemma_data_frame_size(self.id, pos, data@);
            }
            r.push(Frame::Data { session: self.id, position: pos, data });
            assert(r@[k]@ == chunk_frame(self.id, self.text@, self.acked_chars as int, k));
            start = end;
            pos = next;
        }
        r
    }
}

/// One session: its receiving and its sending half.
pub struct Session {
    pub reader: Reader,
    pub writer: Writer,
}

/// What the server does in answer to a frame.
pub struct Handled {
    /// Frames to send to the peer of the session.
    pub replies: Vec<Frame>,
    /// Data to hand to the application of the session.
    pub deliver: Option<String>,
}

/// The open sessions, by session id.
pub struct Sessions {
    open: Vec<Session>,
}

impl Sessions {
    /// The session with id `id`, if it is open.
    pub closed spec fn get(self, id: u32) -> Option<Session> {
        if exists|i: int| 0 <= i < self.open@.len() && #[trigger] self.open@[i].reader.session() == id {
            let i = choose|i: int|
                0 <= i < self.open@.len() && #[trigger] self.open@[i].reader.session() == id;
            Some(self.open@[i])
        } else {
            None
        }
    }

    pub closed spec fn wf(self) -> bool {
        &&& forall|i: int, j: int|
            0 <= i < self.open@.len() && 0 <= j < self.open@.len()
                && #[trigger] self.open@[i].reader.session() == #[trigger] self.open@[j].reader.session()
                ==> i == j
        &&& forall|i: int|
            0 <= i < self.open@.len() ==> (#[trigger] self.open@[i]).reader.wf()
                && self.open@[i].writer.wf() && self.open@[i].writer.session()
                == self.open@[i].reader.session()
    }

    proof fn lemma_get_at(self, i: int)
        requires
            self.wf(),
            0 <= i < self.open@.len(),
        ensures
            self.get(self.open@[i].reader.session()) == Some(self.open@[i]),
    {
        let id = self.open@[i].reader.session();
        assert(self.open@[i].reader.session() == id);
        let j = choose|j: int| 0 <= j < self.open@.len() && #[trigger] self.open@[j].reader.session() == id;
        assert(self.open@[j].reader.session() == self.open@[i].reader.session());
    }

    /// No open session.
    pub fn new() -> (r: Sessions)
        ensures
            r.wf(),
            forall|id: u32| #[trigger] r.get(id) is None,
    {
        Sessions { open: Vec::new() }
    }

    /// The index of the open session `id`, if any.
    fn find(&self, id: u32) -> (r: Option<usize>)
        requires
            self.wf(),
        ensures
            r is None ==> self.get(id) is None,
            r matches Some(i) ==> i < self.open@.len() && self.open@[i as int].reader.session() == id
                && self.get(id) == Some(self.open@[i as int]),
    {
        let mut i: usize = 0;
        while i < self.open.len()
            invariant
                i <= self.open@.len(),
                self.wf(),
                forall|j: int| 0 <= j < i ==> #[trigger] self.open@[j].reader.session() != id,
            decreases self.open.len() - i,
        {
            if self.open[i].reader.id == id {
                proof {
                    self.lemma_get_at(i as int);
                }
                return Some(i);
            }
            i = i + 1;
        }
        None
    }

    /// Handles one frame from a peer.
    ///
    /// A connect opens the session if it is new and acknowledges what was
    /// received; a close ends the session and is echoed; data and
    /// acknowledgements for a session that is not open are answered with a
    /// close. Data goes to the session's reader, which says what to
    /// acknowledge and deliver. An acknowledgement of bytes never sent ends
    /// the session with a close.
    pub fn handle(&mut self, frame: &Frame) -> (r: Handled)
        requires
            old(self).wf(),
        ensures
            final(self).wf(),
            forall|other: u32| other != frame@.session() ==> #[trigger] final(self).get(other) == old(self).get(other),
            match frame@ {
                FrameModel::Connect(s) => r.replies@.len() == 1 && r.deliver is None && match old(self).get(s) {
                    Some(x) => r.replies@[0]@ == FrameModel::Ack(s, x.reader.received()) && final(self).get(s) == Some(x),
                    None => r.replies@[0]@ == FrameModel::Ack(s, 0) && (final(self).get(s) matches Some(
                        x,
                    ) && x.reader.received() == 0 && x.reader.delivered() == Seq::<u8>::empty()
                        && x.writer.text() == Seq::<char>::empty() && x.writer.acked() == 0),
                },
                FrameModel::Close(s) => r.replies@.len() == 1 && r.replies@[0]@ == FrameModel::Close(
                    s,
                ) && r.deliver is None && final(self).get(s) is None,
                FrameModel::Data(s, p, d) => match old(self).get(s) {
                    None => r.replies@.len() == 1 && r.replies@[0]@ == FrameModel::Close(s)
                        && r.deliver is None && final(self).get(s) is None,
                    Some(x) => (final(self).get(s) matches Some(y) && y.writer == x.writer
                        && y.reader.delivered() == after_data(
                        x.reader.delivered(),
                        p,
                        encode_utf8(d),
                    ) && (r.deliver matches Some(t) ==> t@ == d) && (r.deliver is Some
                        ==> y.reader.delivered() == x.reader.delivered() + encode_utf8(d))
                        && r.replies@.len() <= 1 && (forall|k: int|
                        0 <= k < r.replies@.len() ==> (#[trigger] r.replies@[k])@ == FrameModel::Ack(
                            s,
                            y.reader.received(),
                        )) && (r.deliver is Some <==> (p == x.reader.received()
                        && x.reader.received() + encode_utf8(d).len() < NUMBER_LIMIT))
                        && (r.replies@.len() == 1 <==> (p < x.reader.received() || r.deliver is Some))),
                },
                FrameModel::Ack(s, l) => r.deliver is None && match old(self).get(s) {
                    None => r.replies@.len() == 1 && r.replies@[0]@ == FrameModel::Close(s)
                        && final(self).get(s) is None,
                    Some(x) => if l > x.writer.sent().len() {
                        r.replies@.len() == 1 && r.replies@[0]@ == FrameModel::Close(s) && final(self).get(s) is None
                    } else {
                        r.replies@.len() == 0 && (final(self).get(s) matches Some(y) && y.reader
                            == x.reader && y.writer.text() == x.writer.text() && y.writer.acked() == (
                        if l > x.writer.acked() {
                            l
                        } else {
                            x.writer.acked()
                        }))
                    },
                },
            },
    {
        let id = frame.session_id();
        let ghost before = *self;
        match frame {
            Frame::Connect(s) => {
                match self.find(*s) {
                    Some(i) => {
                        let ack = self.open[i].reader.ack();
                        Handled { replies: vec![ack], deliver: None }
                    },
                    None => {
                        self.open.push(Session { reader: Reader::with_id(*s), writer: Writer::with_id(*s) });
                        proof {
                            let n = before.open@.len() as int;
                            assert forall|i: int, j: int|
                                0 <= i < self.open@.len() && 0 <= j < self.open@.len()
                                    && #[trigger] self.open@[i].reader.session()
                                    == #[trigger] self.open@[j].reader.session() implies i == j by {
                                if i < n && j < n {
                                    assert(before.open@[i].reader.session() == before.open@[j].reader.session());
                                } else if i < n {
                                    assert(before.open@[i].reader.session() == *s);
                                } else if j < n {
                                    assert(before.open@[j].reader.session() == *s);
                                }
                            }
                            self.lemma_get_at(n);
                            self.lemma_frame_others(before, *s);
                        }
                        Handled { replies: vec![Frame::Ack { session: *s, length: 0 }], deliver: None }
                    },
                }
            },
            Frame::Close(s) => {
                self.close(*s);
                Handled { replies: vec![Frame::Close(*s)], deliver: None }
            },
            Frame::Data { session, position, data } => {
                match self.find(*session) {
                    None => Handled { replies: vec![Frame::Close(*session)], deliver: None },
                    Some(i) => {
                        let mut x = self.open.remove(i);
                        proof {
                            assert(before.open@[i as int].reader.wf());
                        }
                        let (ack, deliver) = x.reader.handle_data(*position, data.as_str());
                        self.open.insert(i, x);
                        proof {
                            self.lemma_replaced(before, i as int);
                        }
                        let mut replies: Vec<Frame> = Vec::new();
                        match ack {
                            Some(f) => replies.push(f),
                            None => {},
                        }
                        let out = if deliver {
                            Some(data.clone())
                        } else {
                            None
                        };
                        Handled { replies, deliver: out }
                    },
                }
            },
            Frame::Ack { session, length } => {
                match self.find(*session) {
                    None => Handled { replies: vec![Frame::Close(*session)], deliver: None },
                    Some(i) => {
                        let mut x = self.open.remove(i);
                        proof {
                            assert(before.open@[i as int].writer.wf());
                        }
                        let outcome = x.writer.handle_ack(*length);
                        self.open.insert(i, x);
                        proof {
                            self.lemma_replaced(before, i as int);
                        }
                        match outcome {
                            AckOutcome::Close => {
                                self.close(*session);
                                Handled { replies: vec![Frame::Close(*session)], deliver: None }
                            },
                            _ => Handled { replies: Vec::new(), deliver: None },
                        }
                    },
                }
            },
        }
    }

    proof fn lemma_frame_others(self, before: Sessions, s: u32)
        requires
            self.wf(),
            before.wf(),
            before.get(s) is None,
            self.open@.len() == before.open@.len() + 1,
            forall|i: int| 0 <= i < before.open@.len() ==> self.open@[i] == before.open@[i],
            self.open@.last().reader.session() == s,
        ensures
            forall|other: u32| other != s ==> #[trigger] self.get(other) == before.get(other),
    {
        assert forall|other: u32| other != s implies #[trigger] self.get(other) == before.get(other) by {
            if exists|i: int| 0 <= i < before.open@.len() && #[trigger] before.open@[i].reader.session() == other {
                let i = choose|i: int| 0 <= i < before.open@.len() && #[trigger] before.open@[i].reader.session() == other;
                before.lemma_get_at(i);
                self.lemma_get_at(i);
            } else {
                assert forall|i: int| 0 <= i < self.open@.len() implies #[trigger] self.open@[i].reader.session() != other by {
                    if i < before.open@.len() {
                        assert(self.open@[i] == before.open@[i]);
                    }
                }
            }
        }
    }

    proof fn lemma_replaced(self, before: Sessions, k: int)
        requires
            before.wf(),
            0 <= k < before.open@.len(),
            self.open@.len() == before.open@.len(),
            forall|i: int| 0 <= i < before.open@.len() && i != k ==> self.open@[i] == before.open@[i],
            self.open@[k].reader.session() == before.open@[k].reader.session(),
            self.open@[k].writer.session() == before.open@[k].writer.session(),
            self.open@[k].reader.wf(),
            self.open@[k].writer.wf(),
        ensures
            self.wf(),
            self.get(before.open@[k].reader.session()) == Some(self.open@[k]),
            forall|other: u32| other != before.open@[k].reader.session() ==> #[trigger] self.get(other)
                == before.get(other),
    {
        assert forall|i: int, j: int|
            0 <= i < self.open@.len() && 0 <= j < self.open@.len()
                && #[trigger] self.open@[i].reader.session() == #[trigger] self.open@[j].reader.session()
                implies i == j by {
            assert(before.open@[i].reader.session() == before.open@[j].reader.session());
        }
        assert forall|i: int| 0 <= i < self.open@.len() implies (#[trigger] self.open@[i]).reader.wf()
            && self.open@[i].writer.wf() && self.open@[i].writer.session()
            == self.open@[i].reader.session() by {
            if i != k {
                assert(before.open@[i].reader.wf());
            }
        }
        self.lemma_get_at(k);
        let s = before.open@[k].reader.session();
        assert forall|other: u32| other != s implies #[trigger] self.get(other) == before.get(other) by {
            if exists|i: int| 0 <= i < before.open@.len() && #[trigger] before.open@[i].reader.session() == other {
                let i = choose|i: int| 0 <= i < before.open@.len() && #[trigger] before.open@[i].reader.session() == other;
                before.lemma_get_at(i);
                self.lemma_get_at(i);
            } else {
                assert forall|i: int| 0 <= i < self.open@.len() implies #[trigger] self.open@[i].reader.session() != other by {
                    if i != k {
                        assert(self.open@[i] == before.open@[i]);
                    }
                }
            }
        }
    }

    /// Ends session `id`, if it is open.
    pub fn close(&mut self, id: u32)
        requires
            old(self).wf(),
        ensures
            final(self).wf(),
            final(self).get(id) is None,
            forall|other: u32| other != id ==> #[trigger] final(self).get(other) == old(self).get(other),
    {
        match self.find(id) {
            None => {},
            Some(i) => {
                let ghost before = *self;
                self.open.remove(i);
                proof {
                    let k = i as int;
                    assert forall|a: int, b: int|
                        0 <= a < self.open@.len() && 0 <= b < self.open@.len()
                            && #[trigger] self.open@[a].reader.session() == #[trigger] self.open@[b].reader.session()
                            implies a == b by {
                        let a2 = if a < k { a } else { a + 1 };
                        let b2 = if b < k { b } else { b + 1 };
                        assert(before.open@[a2].reader.session() == before.open@[b2].reader.session());
                    }
                    assert forall|a: int| 0 <= a < self.open@.len() implies (#[trigger] self.open@[a]).reader.wf()
                        && self.open@[a].writer.wf() && self.open@[a].writer.session()
                        == self.open@[a].reader.session() by {
                        let a2 = if a < k { a } else { a + 1 };
                        assert(before.open@[a2].reader.wf());
                    }
                    assert forall|a: int| 0 <= a < self.open@.len() implies #[trigger] self.open@[a].reader.session() != id by {
                        let a2 = if a < k { a } else { a + 1 };
                        assert(before.open@[a2].reader.session() == self.open@[a].reader.session());
                    }
                    assert forall|other: u32| other != id implies #[trigger] self.get(other) == before.get(other) by {
                        if exists|a: int| 0 <= a < before.open@.len() && #[trigger] before.open@[a].reader.session() == other {
                            let a = choose|a: int| 0 <= a < before.open@.len() && #[trigger] before.open@[a].reader.session() == other;
                            before.lemma_get_at(a);
                            assert(a != k);
                            let a3 = if a < k { a } else { a - 1 };
                            assert(self.open@[a3] == before.open@[a]);
                            self.lemma_get_at(a3);
                        } else {
                            assert forall|a: int| 0 <= a < self.open@.len() implies #[trigger] self.open@[a].reader.session() != other by {
                                let a2 = if a < k { a } else { a + 1 };
                                assert(before.open@[a2] == self.open@[a]);
                            }
                        }
                    }
                }
            },
        }
    }

    /// The data frames to send again for session `id`: its unacknowledged
    /// text, each frame carrying exactly the bytes sent at its position.
    pub fn pending(&self, id: u32) -> (r: Vec<Frame>)
        requires
            self.wf(),
        ensures
            self.get(id) is None ==> r@.len() == 0,
            self.get(id) matches Some(x) ==> ((forall|i: int|
                0 <= i < r@.len() ==> (#[trigger] r@[i])@ == chunk_frame(
                    id,
                    x.writer.text(),
                    x.writer.acked_text() as int,
                    i,
                )) && (forall|i: int|
                0 <= i < r@.len() ==> match (#[trigger] r@[i])@ {
                    FrameModel::Data(_, p, d) => encode_utf8(d) == x.writer.sent().subrange(
                        p as int,
                        p + encode_utf8(d).len(),
                    ),
                    _ => false,
                }) && (forall|i: int|
                0 <= i < r@.len() ==> encode_utf8(frame_text((#[trigger] r@[i])@)).len() <= 1000)
                && x.writer.acked_text() + r@.len() * CHUNK >= x.writer.text().len() && (r@.len()
                == 0 || x.writer.acked_text() + (r@.len() - 1) * CHUNK < x.writer.text().len())),
    {
        match self.find(id) {
            None => Vec::new(),
            Some(i) => {
                proof {
                    assert(self.open@[i as int].writer.wf());
                }
                self.open[i].writer.pending()
            },
        }
    }

    /// Hands text from the application of session `id` over for sending;
    /// false when the session is not open or the stream would reach the
    /// number limit of bytes.
    pub fn send(&mut self, id: u32, text: &str) -> (accepted: bool)
        requires
            old(self).wf(),
        ensures
            final(self).wf(),
            forall|other: u32| other != id ==> #[trigger] final(self).get(other) == old(self).get(other),
            old(self).get(id) is None ==> !accepted && final(self).get(id) is None,
            old(self).get(id) matches Some(x) ==> (final(self).get(id) matches Some(y) && y.reader
                == x.reader && y.writer.acked() == x.writer.acked() && accepted == (
            x.writer.sent().len() + encode_utf8(text@).len() < NUMBER_LIMIT) && y.writer.text()
                == if accepted {
                x.writer.text() + text@
            } else {
                x.writer.text()
            } && (accepted ==> y.writer.sent() == x.writer.sent() + encode_utf8(text@))),
    {
        match self.find(id) {
            None => false,
            Some(i) => {
                let ghost before = *self;
                let mut x = self.open.remove(i);
                proof {
                    assert(before.open@[i as int].writer.wf());
                }
                let accepted = x.writer.push(text);
                self.open.insert(i, x);
                proof {
                    self.lemma_replaced(before, i as int);
                }
                accepted
            },
        }
    }
}

} // verus!
