//! Messages from the server to clients, and their binary framing.

use vstd::prelude::*;
use vstd::utf8::{decode_utf8, encode_utf8, valid_utf8};
use crate::wire::{
    be16, be16_at, be32, be32_at, fits_string_field, lemma_be16_at, lemma_be16_bytes, lemma_be32_at,
    lemma_be32_bytes, push_string,
    push_u16, push_u32, read_u16, read_u32, string_field, text_of_bytes, DecodeError, Decoding,
};

verus! {

broadcast use vstd::utf8::encode_utf8_valid_utf8, vstd::utf8::encode_utf8_decode_utf8;

pub const TAG_ERROR: u8 = 0x10;
pub const TAG_TICKET: u8 = 0x21;
pub const TAG_HEARTBEAT: u8 = 0x41;

/// A ticket: the plate was seen at `mile1` at `timestamp1` and at `mile2` at
/// `timestamp2` on `road`, at an average `speed` in hundredths of miles per
/// hour.
#[derive(Clone, Debug, PartialEq, Eq)]
pub struct TicketRecord {
    pub plate: String,
    pub road: u16,
    pub mile1: u16,
    pub timestamp1: u32,
    pub mile2: u16,
    pub timestamp2: u32,
    pub speed: u16,
}

/// What a ticket holds.
pub struct TicketModel {
    pub plate: Seq<char>,
    pub road: u16,
    pub mile1: u16,
    pub timestamp1: u32,
    pub mile2: u16,
    pub timestamp2: u32,
    pub speed: u16,
}

impl View for TicketRecord {
    type V = TicketModel;

    open spec fn view(&self) -> TicketModel {
        TicketModel {
            plate: self.plate@,
            road: self.road,
            mile1: self.mile1,
            timestamp1: self.timestamp1,
            mile2: self.mile2,
            timestamp2: self.timestamp2,
            speed: self.speed,
        }
    }
}

/// A message from the server.
#[derive(Clone, Debug, PartialEq, Eq)]
pub enum Message {
    Error(String),
    Ticket(TicketRecord),
    Heartbeat,
}

/// What a server message holds.
pub enum ServerModel {
    Error(Seq<char>),
    Ticket(TicketModel),
    Heartbeat,
}

impl View for Message {
    type V = ServerModel;

    open spec fn view(&self) -> ServerModel {
        match self {
            Message::Error(s) => ServerModel::Error(s@),
            Message::Ticket(t) => ServerModel::Ticket(t@),
            Message::Heartbeat => ServerModel::Heartbeat,
        }
    }
}

/// Whether a message fits its framing: strings of at most 255 bytes.
pub open spec fn server_encodable(m: ServerModel) -> bool {
    match m {
        ServerModel::Error(s) => fits_string_field(s),
        ServerModel::Ticket(t) => fits_string_field(t.plate),
        ServerModel::Heartbeat => true,
    }
}

/// The bytes of the fixed fields of a ticket, after its plate.
pub open spec fn ticket_tail(t: TicketModel) -> Seq<u8> {
    be16(t.road) + be16(t.mile1) + be32(t.timestamp1) + be16(t.mile2) + be32(t.timestamp2)
        + be16(t.speed)
}

/// The bytes of a server message.
pub open spec fn server_bytes(m: ServerModel) -> Seq<u8> {
    match m {
        ServerModel::Error(s) => seq![TAG_ERROR] + string_field(s),
        ServerModel::Ticket(t) => seq![TAG_TICKET] + string_field(t.plate) + ticket_tail(t),
        ServerModel::Heartbeat => seq![TAG_HEARTBEAT],
    }
}

/// The ticket whose plate is `plate` and whose fixed fields start at `b[i]`.
pub open spec fn ticket_at(plate: Seq<char>, b: Seq<u8>, i: int) -> TicketModel {
    TicketModel {
        plate,
        road: be16_at(b, i),
        mile1: be16_at(b, i + 2),
        timestamp1: be32_at(b, i + 4),
        mile2: be16_at(b, i + 8),
        timestamp2: be32_at(b, i + 10),
        speed: be16_at(b, i + 14),
    }
}

/// What the buffered bytes `b` start with.
pub open spec fn server_decoding(b: Seq<u8>) -> Decoding<ServerModel> {
    if b.len() == 0 {
        Decoding::NeedMore
    } else if b[0] == TAG_ERROR {
        if b.len() < 2 || b.len() < 2 + b[1] {
            Decoding::NeedMore
        } else {
            let text = b.subrange(2, 2 + b[1] as int);
            if valid_utf8(text) {
                Decoding::Frame(ServerModel::Error(decode_utf8(text)), (2 + b[1]) as nat)
            } else {
                Decoding::Invalid
            }
        }
    } else if b[0] == TAG_TICKET {
        if b.len() < 2 || b.len() < 18 + b[1] {
            Decoding::NeedMore
        } else {
            let n = b[1] as int;
            let text = b.subrange(2, 2 + n);
            if valid_utf8(text) {
                Decoding::Frame(
                    ServerModel::Ticket(ticket_at(decode_utf8(text), b, 2 + n)),
                    (18 + n) as nat,
                )
            } else {
                Decoding::Invalid
            }
        }
    } else if b[0] == TAG_HEARTBEAT {
        Decoding::Frame(ServerModel::Heartbeat, 1)
    } else {
        Decoding::Invalid
    }
}

/// Decodes server messages from a byte buffer.
#[derive(Clone, Copy, Debug, Default, PartialEq, Eq)]
pub struct MessageDecoder;

/// Encodes server messages into bytes.
#[derive(Clone, Copy, Debug, Default, PartialEq, Eq)]
pub struct MessageEncoder;

impl MessageDecoder {
    /// Reads the first message buffered in `src`: `Ok(None)` until a whole
    /// message is there, else the message and the number of bytes it takes.
    pub fn decode(&mut self, src: &[u8]) -> (r: Result<Option<(Message, usize)>, DecodeError>)
        ensures
            match server_decoding(src@) {
                Decoding::NeedMore => r == Ok::<Option<(Message, usize)>, DecodeError>(None),
                Decoding::Frame(m, n) => r matches Ok(Some((msg, k))) && msg@ == m && k == n,
                Decoding::Invalid => r is Err,
            },
            r matches Err(e) ==> (e == DecodeError::UnknownTag(src@[0]) <==> src@.len() > 0
                && src@[0] != TAG_ERROR && src@[0] != TAG_TICKET),
    {
        if src.len() == 0 {
            return Ok(None);
        }
        let tag = src[0];
        if tag == TAG_ERROR {
            if src.len() < 2 {
                return Ok(None);
            }
            let n = src[1] as usize;
            if src.len() < 2 + n {
                return Ok(None);
            }
            match text_of_bytes(&src[2..2 + n]) {
                Some(text) => Ok(Some((Message::Error(text), 2 + n))),
                None => Err(DecodeError::BadText),
            }
        } else if tag == TAG_TICKET {
            if src.len() < 2 {
                return Ok(None);
            }
            let n = src[1] as usize;
            if src.len() < 18 + n {
                return Ok(None);
            }
            match text_of_bytes(&src[2..2 + n]) {
                Some(plate) => {
                    let i = 2 + n;
                    let ticket = TicketRecord {
                        plate,
                        road: read_u16(src, i),
                        mile1: read_u16(src, i + 2),
                        timestamp1: read_u32(src, i + 4),
                        mile2: read_u16(src, i + 8),
                        timestamp2: read_u32(src, i + 10),
                        speed: read_u16(src, i + 14),
                    };
                    Ok(Some((Message::Ticket(ticket), 18 + n)))
                },
                None => Err(DecodeError::BadText),
            }
        } else if tag == TAG_HEARTBEAT {
            Ok(Some((Message::Heartbeat, 1)))
        } else {
            Err(DecodeError::UnknownTag(tag))
        }
    }
}

impl MessageEncoder {
    /// Appends the bytes of `item` to `dst`.
    pub fn encode(&mut self, item: &Message, dst: &mut Vec<u8>)
        requires
            server_encodable(item@),
        ensures
            final(dst)@ == old(dst)@ + server_bytes(item@),
    {
        match item {
            Message::Error(text) => {
                dst.push(TAG_ERROR);
                push_string(dst, text);
            },
            Message::Ticket(t) => {
                dst.push(TAG_TICKET);
                push_string(dst, &t.plate);
                push_u16(dst, t.road);
                push_u16(dst, t.mile1);
                push_u32(dst, t.timestamp1);
                push_u16(dst, t.mile2);
                push_u32(dst, t.timestamp2);
                push_u16(dst, t.speed);
            },
            Message::Heartbeat => {
                dst.push(TAG_HEARTBEAT);
            },
        }
        assert(final(dst)@ =~= old(dst)@ + server_bytes(item@));
    }
}

proof fn lemma_ticket_tail(t: TicketModel, pre: Seq<u8>, rest: Seq<u8>)
    ensures
        ticket_at(t.plate, pre + ticket_tail(t) + rest, pre.len() as int) == t,
{
    let tail = ticket_tail(t);
    let b = pre + tail + rest;
    let n = pre.len() as int;
    let r1 = be16(t.road);
    let m1 = be16(t.mile1);
    let t1 = be32(t.timestamp1);
    let m2 = be16(t.mile2);
    let t2 = be32(t.timestamp2);
    let sp = be16(t.speed);
    assert(tail =~= seq![
        r1[0], r1[1], m1[0], m1[1], t1[0], t1[1], t1[2], t1[3], m2[0], m2[1], t2[0], t2[1], t2[2],
        t2[3], sp[0], sp[1],
    ]);
    assert forall|k: int| 0 <= k < 16 implies b[n + k] == #[trigger] tail[k] by {}
    lemma_be16_at(t.road, Seq::empty(), Seq::empty());
    lemma_be16_at(t.mile1, Seq::empty(), Seq::empty());
    lemma_be32_at(t.timestamp1, Seq::empty(), Seq::empty());
    lemma_be16_at(t.mile2, Seq::empty(), Seq::empty());
    lemma_be32_at(t.timestamp2, Seq::empty(), Seq::empty());
    lemma_be16_at(t.speed, Seq::empty(), Seq::empty());
    assert(Seq::<u8>::empty() + r1 + Seq::<u8>::empty() =~= r1);
    assert(Seq::<u8>::empty() + m1 + Seq::<u8>::empty() =~= m1);
    assert(Seq::<u8>::empty() + t1 + Seq::<u8>::empty() =~= t1);
    assert(Seq::<u8>::empty() + m2 + Seq::<u8>::empty() =~= m2);
    assert(Seq::<u8>::empty() + t2 + Seq::<u8>::empty() =~= t2);
    assert(Seq::<u8>::empty() + sp + Seq::<u8>::empty() =~= sp);
    assert(b[n + 0] == tail[0] && b[n + 1] == tail[1]);
    assert(b[n + 2] == tail[2] && b[n + 3] == tail[3]);
    assert(b[n + 4] == tail[4] && b[n + 5] == tail[5] && b[n + 6] == tail[6] && b[n + 7] == tail[7]);
    assert(b[n + 8] == tail[8] && b[n + 9] == tail[9]);
    assert(b[n + 10] == tail[10] && b[n + 11] == tail[11] && b[n + 12] == tail[12] && b[n + 13]
        == tail[13]);
    assert(b[n + 14] == tail[14] && b[n + 15] == tail[15]);
}

/// Decoding the bytes of a message, whatever follows them, gives the message
/// back together with its length.
pub proof fn lemma_server_round_trip(m: ServerModel, rest: Seq<u8>)
    requires
        server_encodable(m),
    ensures
        server_decoding(server_bytes(m) + rest) == Decoding::Frame(m, server_bytes(m).len()),
{
    let b = server_bytes(m) + rest;
    match m {
        ServerModel::Error(s) => {
            let e = encode_utf8(s);
            assert(b.subrange(2, 2 + e.len() as int) =~= e);
        },
        ServerModel::Ticket(t) => {
            let e = encode_utf8(t.plate);
            let pre = seq![TAG_TICKET, e.len() as u8] + e;
            assert(b =~= pre + ticket_tail(t) + rest);
            assert(b.subrange(2, 2 + e.len() as int) =~= e);
            lemma_ticket_tail(t, pre, rest);
        },
        ServerModel::Heartbeat => {},
    }
}

/// Every proper prefix of a message's bytes decodes as "need more bytes".
pub proof fn lemma_server_prefix_needs_more(m: ServerModel, k: int)
    requires
        server_encodable(m),
        0 <= k < server_bytes(m).len(),
    ensures
        server_decoding(server_bytes(m).subrange(0, k)) == Decoding::<ServerModel>::NeedMore,
{
    let b = server_bytes(m);
    let s = b.subrange(0, k);
    if k > 0 {
        assert(s[0] == b[0]);
        if k > 1 {
            assert(s[1] == b[1]);
        }
    }
}

/// Encoding a decoded message gives back exactly the bytes it was decoded
/// from.
pub proof fn lemma_server_decode_encode(b: Seq<u8>)
    requires
        server_decoding(b) is Frame,
    ensures
        server_encodable(server_decoding(b)->Frame_0),
        server_bytes(server_decoding(b)->Frame_0) == b.subrange(0, server_decoding(b)->Frame_1 as int),
{
    let n = server_decoding(b)->Frame_1 as int;
    if b[0] == TAG_ERROR {
        let l = b[1] as int;
        let text = b.subrange(2, 2 + l);
        vstd::utf8::decode_utf8_encode_utf8(text);
        assert(b.subrange(0, n) =~= seq![b[0], b[1]] + text);
        assert(server_bytes(server_decoding(b)->Frame_0) =~= seq![b[0], b[1]] + text);
    } else if b[0] == TAG_TICKET {
        let l = b[1] as int;
        let i = 2 + l;
        let text = b.subrange(2, i);
        vstd::utf8::decode_utf8_encode_utf8(text);
        lemma_be16_bytes(b, i);
        lemma_be16_bytes(b, i + 2);
        lemma_be32_bytes(b, i + 4);
        lemma_be16_bytes(b, i + 8);
        lemma_be32_bytes(b, i + 10);
        lemma_be16_bytes(b, i + 14);
        let t = ticket_at(decode_utf8(text), b, i);
        assert(ticket_tail(t) =~= b.subrange(i, i + 2) + b.subrange(i + 2, i + 4) + b.subrange(
            i + 4,
            i + 8,
        ) + b.subrange(i + 8, i + 10) + b.subrange(i + 10, i + 14) + b.subrange(i + 14, i + 16));
        assert(b.subrange(0, n) =~= seq![b[0], b[1]] + text + ticket_tail(t));
        assert(server_bytes(server_decoding(b)->Frame_0) =~= seq![b[0], b[1]] + text + ticket_tail(t));
    } else {
        assert(b.subrange(0, 1) =~= seq![b[0]]);
    }
}

} // verus!
