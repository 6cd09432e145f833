//! Messages from clients to the server, and their binary framing.

use vstd::prelude::*;
use vstd::utf8::{decode_utf8, encode_utf8, valid_utf8};
use crate::camera::{Camera, PlateRecord};
use crate::wire::{
    be16, be16_at, be32, be32_at, fits_string_field, lemma_be16_at, lemma_be16_bytes, lemma_be32_at,
    lemma_be32_bytes, push_string,
    push_u16, push_u32, read_u16, read_u32, string_field, text_of_bytes, DecodeError, Decoding,
};

verus! {

broadcast use vstd::utf8::encode_utf8_valid_utf8, vstd::utf8::encode_utf8_decode_utf8;

pub const TAG_PLATE: u8 = 0x20;
pub const TAG_WANT_HEARTBEAT: u8 = 0x40;
pub const TAG_I_AM_CAMERA: u8 = 0x80;
pub const TAG_I_AM_DISPATCHER: u8 = 0x81;

/// A message from a client.
#[derive(Clone, Debug, PartialEq, Eq, Hash)]
pub enum Message {
    /// A camera saw a plate.
    Plate(PlateRecord),
    /// The client asks for heartbeats at this interval, in deciseconds.
    WantHeartbeat(u32),
    /// The client is this camera.
    IAmCamera(Camera),
    /// The client dispatches tickets for these roads.
    IAmDispatcher(Vec<u16>),
}

/// What a client message holds.
pub enum ClientModel {
    Plate(Seq<char>, u32),
    WantHeartbeat(u32),
    IAmCamera(u16, u16, u16),
    IAmDispatcher(Seq<u16>),
}

impl View for Message {
    type V = ClientModel;

    open spec fn view(&self) -> ClientModel {
        match self {
            Message::Plate(r) => ClientModel::Plate(r.plate@, r.timestamp),
            Message::WantHeartbeat(d) => ClientModel::WantHeartbeat(*d),
            Message::IAmCamera(c) => ClientModel::IAmCamera(c.road, c.mile, c.limit),
            Message::IAmDispatcher(roads) => ClientModel::IAmDispatcher(roads@),
        }
    }
}

/// The bytes of a list of roads, two big-endian bytes each.
pub open spec fn roads_bytes(roads: Seq<u16>) -> Seq<u8>
    decreases roads.len(),
{
    if roads.len() == 0 {
        Seq::empty()
    } else {
        be16(roads[0]) + roads_bytes(roads.drop_first())
    }
}

/// The `n` big-endian roads that start at `b[i]`.
pub open spec fn roads_at(b: Seq<u8>, i: int, n: nat) -> Seq<u16> {
    Seq::new(n, |k: int| be16_at(b, i + 2 * k))
}

/// Whether a message fits its framing: a plate of at most 255 bytes, at most
/// 255 roads.
pub open spec fn client_encodable(m: ClientModel) -> bool {
    match m {
        ClientModel::Plate(p, _) => fits_string_field(p),
        ClientModel::IAmDispatcher(roads) => roads.len() <= 255,
        _ => true,
    }
}

/// The bytes of a client message.
pub open spec fn client_bytes(m: ClientModel) -> Seq<u8> {
    match m {
        ClientModel::Plate(p, t) => seq![TAG_PLATE] + string_field(p) + be32(t),
        ClientModel::WantHeartbeat(d) => seq![TAG_WANT_HEARTBEAT] + be32(d),
        ClientModel::IAmCamera(r, m, l) => seq![TAG_I_AM_CAMERA] + be16(r) + be16(m) + be16(l),
        ClientModel::IAmDispatcher(roads) => seq![TAG_I_AM_DISPATCHER, roads.len() as u8]
            + roads_bytes(roads),
    }
}

/// What the buffered bytes `b` start with.
pub open spec fn client_decoding(b: Seq<u8>) -> Decoding<ClientModel> {
    if b.len() == 0 {
        Decoding::NeedMore
    } else if b[0] == TAG_PLATE {
        if b.len() < 2 || b.len() < 6 + b[1] {
            Decoding::NeedMore
        } else {
            let n = b[1] as int;
            let text = b.subrange(2, 2 + n);
            if valid_utf8(text) {
                Decoding::Frame(
                    ClientModel::Plate(decode_utf8(text), be32_at(b, 2 + n)),
                    (6 + n) as nat,
                )
            } else {
                Decoding::Invalid
            }
        }
    } else if b[0] == TAG_WANT_HEARTBEAT {
        if b.len() < 5 {
            Decoding::NeedMore
        } else {
            Decoding::Frame(ClientModel::WantHeartbeat(be32_at(b, 1)), 5)
        }
    } else if b[0] == TAG_I_AM_CAMERA {
        if b.len() < 7 {
            Decoding::NeedMore
        } else {
            Decoding::Frame(
                ClientModel::IAmCamera(be16_at(b, 1), be16_at(b, 3), be16_at(b, 5)),
                7,
            )
        }
    } else if b[0] == TAG_I_AM_DISPATCHER {
        if b.len() < 2 || b.len() < 2 + 2 * b[1] {
            Decoding::NeedMore
        } else {
            Decoding::Frame(
                ClientModel::IAmDispatcher(roads_at(b, 2, b[1] as nat)),
                (2 + 2 * b[1]) as nat,
            )
        }
    } else {
        Decoding::Invalid
    }
}

/// Decodes client messages from a byte buffer.
#[derive(Clone, Copy, Debug, Default, PartialEq, Eq)]
pub struct MessageDecoder;

/// Encodes client messages into bytes.
#[derive(Clone, Copy, Debug, Default, PartialEq, Eq)]
pub struct MessageEncoder;

impl MessageDecoder {
    /// Reads the first message buffered in `src`: `Ok(None)` until a whole
    /// message is there, else the message and the number of bytes it takes.
    /// Nothing is consumed; the caller drops the bytes it was told of.
    pub fn decode(&mut self, src: &[u8]) -> (r: Result<Option<(Message, usize)>, DecodeError>)
        ensures
            match client_decoding(src@) {
                Decoding::NeedMore => r == Ok::<Option<(Message, usize)>, DecodeError>(None),
                Decoding::Frame(m, n) => r matches Ok(Some((msg, k))) && msg@ == m && k == n,
                Decoding::Invalid => r is Err,
            },
            r matches Err(e) ==> (e == DecodeError::UnknownTag(src@[0]) <==> src@.len() > 0
                && src@[0] != TAG_PLATE),
    {
        if src.len() == 0 {
            return Ok(None);
        }
        let tag = src[0];
        if tag == TAG_PLATE {
            if src.len() < 2 {
                return Ok(None);
            }
            let n = src[1] as usize;
            if src.len() < 6 + n {
                return Ok(None);
            }
            match text_of_bytes(&src[2..2 + n]) {
                Some(plate) => {
                    let timestamp = read_u32(src, 2 + n);
                    Ok(Some((Message::Plate(PlateRecord { plate, timestamp }), 6 + n)))
                },
                None => Err(DecodeError::BadText),
            }
        } else if tag == TAG_WANT_HEARTBEAT {
            if src.len() < 5 {
                return Ok(None);
            }
            Ok(Some((Message::WantHeartbeat(read_u32(src, 1)), 5)))
        } else if tag == TAG_I_AM_CAMERA {
            if src.len() < 7 {
                return Ok(None);
            }
            let road = read_u16(src, 1);
            let mile = read_u16(src, 3);
            let limit = read_u16(src, 5);
            Ok(Some((Message::IAmCamera(Camera { road, mile, limit }), 7)))
        } else if tag == TAG_I_AM_DISPATCHER {
            if src.len() < 2 {
                return Ok(None);
            }
            let n = src[1] as usize;
            if src.len() < 2 + 2 * n {
                return Ok(None);
            }
            let mut roads: Vec<u16> = Vec::new();
            let mut k: usize = 0;
            while k < n
                invariant
                    k <= n <= 255,
                    n == src@[1],
                    2 + 2 * n <= src@.len(),
                    roads@ =~= roads_at(src@, 2, k as nat),
                decreases n - k,
            {
                roads.push(read_u16(src, 2 + 2 * k));
                k = k + 1;
            }
            Ok(Some((Message::IAmDispatcher(roads), 2 + 2 * n)))
        } else {
            Err(DecodeError::UnknownTag(tag))
        }
    }
}

impl MessageEncoder {
    /// Appends the bytes of `item` to `dst`.
    pub fn encode(&mut self, item: &Message, dst: &mut Vec<u8>)
        requires
            client_encodable(item@),
        ensures
            final(dst)@ == old(dst)@ + client_bytes(item@),
    {
        match item {
            Message::Plate(record) => {
                dst.push(TAG_PLATE);
                push_string(dst, &record.plate);
                push_u32(dst, record.timestamp);
            },
            Message::WantHeartbeat(d) => {
                dst.push(TAG_WANT_HEARTBEAT);
                push_u32(dst, *d);
            },
            Message::IAmCamera(c) => {
                dst.push(TAG_I_AM_CAMERA);
                push_u16(dst, c.road);
                push_u16(dst, c.mile);
                push_u16(dst, c.limit);
            },
            Message::IAmDispatcher(roads) => {
                dst.push(TAG_I_AM_DISPATCHER);
                dst.push(roads.len() as u8);
                let ghost start = dst@;
                let mut k: usize = 0;
                while k < roads.len()
                    invariant
                        k <= roads@.len(),
                        dst@ == start + roads_bytes(roads@.subrange(0, k as int)),
                    decreases roads.len() - k,
                {
                    push_u16(dst, roads[k]);
                    proof {
                        lemma_roads_bytes_append(roads@.subrange(0, k as int), roads@[k as int]);
                        assert(roads@.subrange(0, k + 1) =~= roads@.subrange(0, k as int).push(
                            roads@[k as int],
                        ));
                    }
                    k = k + 1;
                }
                assert(roads@.subrange(0, roads@.len() as int) =~= roads@);
            },
        }
        assert(final(dst)@ =~= old(dst)@ + client_bytes(item@));
    }
}

proof fn lemma_roads_bytes_append(roads: Seq<u16>, r: u16)
    ensures
        roads_bytes(roads.push(r)) == roads_bytes(roads) + be16(r),
    decreases roads.len(),
{
    if roads.len() == 0 {
        assert(roads.push(r).drop_first() =~= Seq::<u16>::empty());
        assert(roads_bytes(Seq::<u16>::empty()) == Seq::<u8>::empty());
        assert(roads_bytes(roads.push(r)) =~= roads_bytes(roads) + be16(r));
    } else {
        lemma_roads_bytes_append(roads.drop_first(), r);
        assert(roads.push(r).drop_first() =~= roads.drop_first().push(r));
        assert(roads_bytes(roads.push(r)) =~= roads_bytes(roads) + be16(r));
    }
}

proof fn lemma_roads_bytes_len(roads: Seq<u16>)
    ensures
        roads_bytes(roads).len() == 2 * roads.len(),
    decreases roads.len(),
{
    if roads.len() > 0 {
        lemma_roads_bytes_len(roads.drop_first());
    }
}

proof fn lemma_roads_round_trip(roads: Seq<u16>, pre: Seq<u8>, post: Seq<u8>)
    ensures
        roads_at(pre + roads_bytes(roads) + post, pre.len() as int, roads.len()) =~= roads,
    decreases roads.len(),
{
    if roads.len() > 0 {
        let rest = roads.drop_first();
        let pre2 = pre + be16(roads[0]);
        lemma_roads_round_trip(rest, pre2, post);
        assert(pre + roads_bytes(roads) + post =~= pre2 + roads_bytes(rest) + post);
        lemma_be16_at(roads[0], pre, roads_bytes(rest) + post);
        assert(pre + be16(roads[0]) + (roads_bytes(rest) + post) =~= pre + roads_bytes(roads)
            + post);
        let b = pre + roads_bytes(roads) + post;
        assert forall|k: int| 0 <= k < roads.len() implies #[trigger] roads_at(
            b,
            pre.len() as int,
            roads.len(),
        )[k] == roads[k] by {
            if k > 0 {
                assert(roads_at(b, pre2.len() as int, rest.len())[k - 1] == rest[k - 1]);
            }
        }
    }
}

/// Decoding the bytes of a message, whatever follows them, gives the message
/// back together with its length.
pub proof fn lemma_client_round_trip(m: ClientModel, rest: Seq<u8>)
    requires
        client_encodable(m),
    ensures
        client_decoding(client_bytes(m) + rest) == Decoding::Frame(m, client_bytes(m).len()),
{
    let b = client_bytes(m) + rest;
    match m {
        ClientModel::Plate(p, t) => {
            let e = encode_utf8(p);
            let n = e.len() as int;
            assert(b =~= seq![TAG_PLATE, n as u8] + e + be32(t) + rest);
            assert(b.subrange(2, 2 + n) =~= e);
            lemma_be32_at(t, seq![TAG_PLATE, n as u8] + e, rest);
        },
        ClientModel::WantHeartbeat(d) => {
            assert(b =~= seq![TAG_WANT_HEARTBEAT] + be32(d) + rest);
            lemma_be32_at(d, seq![TAG_WANT_HEARTBEAT], rest);
        },
        ClientModel::IAmCamera(r, mi, l) => {
            lemma_be16_at(r, seq![TAG_I_AM_CAMERA], be16(mi) + be16(l) + rest);
            assert(b =~= seq![TAG_I_AM_CAMERA] + be16(r) + (be16(mi) + be16(l) + rest));
            lemma_be16_at(mi, seq![TAG_I_AM_CAMERA] + be16(r), be16(l) + rest);
            assert(b =~= seq![TAG_I_AM_CAMERA] + be16(r) + be16(mi) + (be16(l) + rest));
            lemma_be16_at(l, seq![TAG_I_AM_CAMERA] + be16(r) + be16(mi), rest);
            assert(b =~= seq![TAG_I_AM_CAMERA] + be16(r) + be16(mi) + be16(l) + rest);
        },
        ClientModel::IAmDispatcher(roads) => {
            lemma_roads_bytes_len(roads);
            let pre = seq![TAG_I_AM_DISPATCHER, roads.len() as u8];
            assert(b =~= pre + roads_bytes(roads) + rest);
            lemma_roads_round_trip(roads, pre, rest);
        },
    }
}

/// Every proper prefix of a message's bytes decodes as "need more bytes".
pub proof fn lemma_client_prefix_needs_more(m: ClientModel, k: int)
    requires
        client_encodable(m),
        0 <= k < client_bytes(m).len(),
    ensures
        client_decoding(client_bytes(m).subrange(0, k)) == Decoding::<ClientModel>::NeedMore,
{
    let b = client_bytes(m);
    let s = b.subrange(0, k);
    if k > 0 {
        assert(s[0] == b[0]);
        if k > 1 {
            assert(s[1] == b[1]);
        }
        match m {
            ClientModel::IAmDispatcher(roads) => {
                lemma_roads_bytes_len(roads);
            },
            _ => {},
        }
    }
}

proof fn lemma_roads_bytes_at(b: Seq<u8>, i: int, n: nat)
    requires
        0 <= i,
        i + 2 * n <= b.len(),
    ensures
        roads_bytes(roads_at(b, i, n)) == b.subrange(i, i + 2 * n),
    decreases n,
{
    if n > 0 {
        let r = roads_at(b, i, n);
        assert(r.drop_first() =~= roads_at(b, i + 2, (n - 1) as nat));
        lemma_roads_bytes_at(b, i + 2, (n - 1) as nat);
        lemma_be16_bytes(b, i);
        assert(b.subrange(i, i + 2 * n) =~= b.subrange(i, i + 2) + b.subrange(i + 2, i + 2 * n));
    } else {
        assert(b.subrange(i, i) =~= Seq::<u8>::empty());
    }
}

/// Encoding a decoded message gives back exactly the bytes it was decoded
/// from.
pub proof fn lemma_client_decode_encode(b: Seq<u8>)
    requires
        client_decoding(b) is Frame,
    ensures
        client_encodable(client_decoding(b)->Frame_0),
        client_bytes(client_decoding(b)->Frame_0) == b.subrange(0, client_decoding(b)->Frame_1 as int),
{
    let n = client_decoding(b)->Frame_1 as int;
    if b[0] == TAG_PLATE {
        let l = b[1] as int;
        let text = b.subrange(2, 2 + l);
        vstd::utf8::decode_utf8_encode_utf8(text);
        lemma_be32_bytes(b, 2 + l);
        assert(b.subrange(0, n) =~= seq![b[0], b[1]] + text + b.subrange(2 + l, 6 + l));
        assert(client_bytes(client_decoding(b)->Frame_0) =~= seq![b[0], b[1]] + text + b.subrange(
            2 + l,
            6 + l,
        ));
    } else if b[0] == TAG_WANT_HEARTBEAT {
        lemma_be32_bytes(b, 1);
        assert(b.subrange(0, 5) =~= seq![b[0]] + b.subrange(1, 5));
    } else if b[0] == TAG_I_AM_CAMERA {
        lemma_be16_bytes(b, 1);
        lemma_be16_bytes(b, 3);
        lemma_be16_bytes(b, 5);
        assert(b.subrange(0, 7) =~= seq![b[0]] + b.subrange(1, 3) + b.subrange(3, 5) + b.subrange(5, 7));
    } else {
        let k = b[1] as nat;
        lemma_roads_bytes_at(b, 2, k);
        assert(b.subrange(0, n) =~= seq![b[0], b[1]] + b.subrange(2, 2 + 2 * k as int));
    }
}

} // verus!
