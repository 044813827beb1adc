//! The wire codec: the fixed handshake frame and the length-prefixed messages
//! that follow it.

use crate::convert::{
    be_u32_bytes, be_u32_value, lemma_be_u32_round_trip, NetworkConvert, UsizeConverts,
};
use crate::network::Packet;
use crate::support::{
    protocol_name, BlockBegin, BlockRequest, Extensions, InfoHash, PeerId, Protocol, NONE,
};
use vstd::prelude::*;
use vstd::slice::{slice_subrange, slice_to_vec};
use vstd::utf8::valid_utf8;

verus! {

/// One message of the peer-wire protocol.
#[derive(Debug)]
pub enum Message {
    Handshake(Protocol, Extensions, InfoHash, PeerId),
    KeepAlive,
    Choke,
    Unchoke,
    Interested,
    NotInterested,
    Have(u32),
    Bitfield(Vec<u8>),
    Request(BlockRequest),
    Piece(BlockBegin, Vec<u8>),
    Cancel(BlockRequest),
    /// Local only: asks the sending side of a connection to stop. Never on
    /// the wire.
    Close,
}

/// A message as a mathematical value: byte vectors and identifiers become
/// sequences of bytes.
pub enum MessageView {
    Handshake(Protocol, Extensions, Seq<u8>, Seq<u8>),
    KeepAlive,
    Choke,
    Unchoke,
    Interested,
    NotInterested,
    Have(u32),
    Bitfield(Seq<u8>),
    Request(BlockRequest),
    Piece(BlockBegin, Seq<u8>),
    Cancel(BlockRequest),
    Close,
}

impl View for Message {
    type V = MessageView;

    open spec fn view(&self) -> MessageView {
        match self {
            Message::Handshake(p, e, h, id) => MessageView::Handshake(*p, *e, h.bytes@, id.bytes@),
            Message::KeepAlive => MessageView::KeepAlive,
            Message::Choke => MessageView::Choke,
            Message::Unchoke => MessageView::Unchoke,
            Message::Interested => MessageView::Interested,
            Message::NotInterested => MessageView::NotInterested,
            Message::Have(i) => MessageView::Have(*i),
            Message::Bitfield(b) => MessageView::Bitfield(b@),
            Message::Request(r) => MessageView::Request(*r),
            Message::Piece(b, d) => MessageView::Piece(*b, d@),
            Message::Cancel(r) => MessageView::Cancel(*r),
            Message::Close => MessageView::Close,
        }
    }
}

/// Why a frame could not be decoded.
#[derive(Clone, Copy, Debug, PartialEq, Eq, Structural)]
pub enum DecodeError {
    /// The message id is none of the known ones.
    UnknownId(u8),
    /// The payload of the message with this id has the wrong size.
    BadLength(u8),
    /// The handshake does not name the expected protocol.
    BadProtocol,
    /// The handshake's peer id is not valid UTF-8.
    BadPeerId,
}

/// Why a message could not be encoded.
#[derive(Clone, Copy, Debug, PartialEq, Eq, Structural)]
pub enum EncodeError {
    /// The message is a local signal that is never sent.
    LocalOnly,
    /// The payload's length does not fit the 32-bit length field.
    TooLarge,
}

/// The twelve bytes of a block request: piece, offset, length.
pub open spec fn request_bytes(r: BlockRequest) -> Seq<u8> {
    be_u32_bytes(r.start.piece) + be_u32_bytes(r.start.offset) + be_u32_bytes(r.length)
}

/// The payload of a length-prefixed message: its id, then its fields.
pub open spec fn payload_of(m: MessageView) -> Seq<u8> {
    match m {
        MessageView::Choke => seq![0u8],
        MessageView::Unchoke => seq![1u8],
        MessageView::Interested => seq![2u8],
        MessageView::NotInterested => seq![3u8],
        MessageView::Have(i) => seq![4u8] + be_u32_bytes(i),
        MessageView::Bitfield(b) => seq![5u8] + b,
        MessageView::Request(r) => seq![6u8] + request_bytes(r),
        MessageView::Piece(b, d) => seq![7u8] + be_u32_bytes(b.piece) + be_u32_bytes(b.offset) + d,
        MessageView::Cancel(r) => seq![8u8] + request_bytes(r),
        _ => Seq::empty(),
    }
}

/// The sixty-eight bytes of a handshake: the name's length, the name, eight
/// zero bytes, the swarm id and the peer id.
pub open spec fn handshake_bytes(info_hash: Seq<u8>, peer_id: Seq<u8>) -> Seq<u8> {
    seq![19u8] + protocol_name() + Seq::new(8, |i: int| 0u8) + info_hash + peer_id
}

/// The bytes that go on the wire for a message.
pub open spec fn frame_of(m: MessageView) -> Seq<u8> {
    match m {
        MessageView::Handshake(_, _, h, id) => handshake_bytes(h, id),
        MessageView::Close => Seq::empty(),
        _ => be_u32_bytes(payload_of(m).len() as u32) + payload_of(m),
    }
}

/// A message can be sent: it is not the local signal, and its payload's
/// length fits the length field.
pub open spec fn sendable(m: MessageView) -> bool {
    m !is Close && payload_of(m).len() <= u32::MAX
}

/// The integer held in the four bytes at `at`, most significant first.
pub open spec fn be_u32_at(b: Seq<u8>, at: int) -> u32 {
    be_u32_value(b.subrange(at, at + 4)) as u32
}

/// The block request held in the twelve bytes at `at`.
pub open spec fn request_at(b: Seq<u8>, at: int) -> BlockRequest {
    BlockRequest {
        start: BlockBegin { piece: be_u32_at(b, at), offset: be_u32_at(b, at + 4) },
        length: be_u32_at(b, at + 8),
    }
}

/// What a payload decodes to.
pub open spec fn parse_payload(b: Seq<u8>) -> Result<MessageView, DecodeError> {
    if b.len() == 0 {
        Ok(MessageView::KeepAlive)
    } else {
        let id = b[0];
        if id == 0 {
            Ok(MessageView::Choke)
        } else if id == 1 {
            Ok(MessageView::Unchoke)
        } else if id == 2 {
            Ok(MessageView::Interested)
        } else if id == 3 {
            Ok(MessageView::NotInterested)
        } else if id == 4 {
            if b.len() == 5 {
                Ok(MessageView::Have(be_u32_at(b, 1)))
            } else {
                Err(DecodeError::BadLength(4))
            }
        } else if id == 5 {
            Ok(MessageView::Bitfield(b.subrange(1, b.len() as int)))
        } else if id == 6 {
            if b.len() == 13 {
                Ok(MessageView::Request(request_at(b, 1)))
            } else {
                Err(DecodeError::BadLength(6))
            }
        } else if id == 7 {
            if b.len() >= 9 {
                Ok(
                    MessageView::Piece(
                        BlockBegin { piece: be_u32_at(b, 1), offset: be_u32_at(b, 5) },
                        b.subrange(9, b.len() as int),
                    ),
                )
            } else {
                Err(DecodeError::BadLength(7))
            }
        } else if id == 8 {
            if b.len() == 13 {
                Ok(MessageView::Cancel(request_at(b, 1)))
            } else {
                Err(DecodeError::BadLength(8))
            }
        } else {
            Err(DecodeError::UnknownId(id))
        }
    }
}

/// What a sixty-eight-byte handshake frame decodes to. The reserved bytes are
/// not read.
pub open spec fn parse_handshake(b: Seq<u8>) -> Result<MessageView, DecodeError> {
    if b.subrange(0, 20) != seq![19u8] + protocol_name() {
        Err(DecodeError::BadProtocol)
    } else if !valid_utf8(b.subrange(48, 68)) {
        Err(DecodeError::BadPeerId)
    } else {
        Ok(MessageView::Handshake(Protocol::BitTorrent, NONE, b.subrange(28, 48), b.subrange(48, 68)))
    }
}

/// The four bytes at `at` as an integer, most significant first.
fn u32_at(bytes: &[u8], at: usize) -> (r: u32)
    requires
        at + 4 <= bytes.len(),
    ensures
        r == be_u32_at(bytes@, at as int),
{
    u32::from_bytes_be(slice_subrange(bytes, at, at + 4))
}

/// The block request in the twelve bytes at `at`.
fn request_from(bytes: &[u8], at: usize) -> (r: BlockRequest)
    requires
        at + 12 <= bytes.len(),
    ensures
        r == request_at(bytes@, at as int),
{
    BlockRequest {
        start: BlockBegin { piece: u32_at(bytes, at), offset: u32_at(bytes, at + 4) },
        length: u32_at(bytes, at + 8),
    }
}

/// Decodes a handshake frame.
pub fn read_handshake(bytes: &[u8; 68]) -> (r: Result<Message, DecodeError>)
    ensures
        match r {
            Ok(m) => parse_handshake(bytes@) == Ok::<MessageView, DecodeError>(m@),
            Err(e) => parse_handshake(bytes@) == Err::<MessageView, DecodeError>(e),
        },
{
    let raw = bytes.as_slice();
    let expected = Protocol::BitTorrent.to_string().as_bytes();
    let mut same = raw[0] == 19;
    let mut i: usize = 0;
    while i < 19
        invariant
            0 <= i <= 19,
            raw@ == bytes@,
            raw@.len() == 68,
            expected@ == protocol_name(),
            same == (raw@[0] == 19 && forall|k: int| 0 <= k < i ==> raw@[1 + k] == expected@[k]),
        decreases 19 - i,
    {
        same = same && raw[1 + i] == expected[i];
        i = i + 1;
    }
    proof {
        let name = seq![19u8] + protocol_name();
        if same {
            assert(raw@.subrange(0, 20) =~= name);
        }
        if raw@.subrange(0, 20) == name {
            assert forall|k: int| 0 <= k < 19 implies raw@[1 + k] == expected@[k] by {
                assert(raw@.subrange(0, 20)[1 + k] == name[1 + k]);
            }
            assert(raw@.subrange(0, 20)[0] == name[0]);
        }
    }
    if !same {
        return Err(DecodeError::BadProtocol);
    }
    // Twenty bytes always make a swarm id.
    let info_hash = match InfoHash::from_bytes(slice_subrange(raw, 28, 48)) {
        Some(hash) => hash,
        None => return Err(DecodeError::BadProtocol),
    };
    let peer_id = match PeerId::from_bytes(slice_subrange(raw, 48, 68)) {
        Some(id) => id,
        None => return Err(DecodeError::BadPeerId),
    };
    Ok(Message::Handshake(Protocol::BitTorrent, NONE, info_hash, peer_id))
}

/// Decodes the payload of a length-prefixed message, the length already read.
pub fn read_message(bytes: Vec<u8>) -> (r: Result<Message, DecodeError>)
    ensures
        match r {
            Ok(m) => parse_payload(bytes@) == Ok::<MessageView, DecodeError>(m@),
            Err(e) => parse_payload(bytes@) == Err::<MessageView, DecodeError>(e),
        },
{
    let raw = bytes.as_slice();
    let len = raw.len();
    if len == 0 {
        return Ok(Message::KeepAlive);
    }
    let id = raw[0];
    match id {
        0 => Ok(Message::Choke),
        1 => Ok(Message::Unchoke),
        2 => Ok(Message::Interested),
        3 => Ok(Message::NotInterested),
        4 => {
            if len != 5 {
                return Err(DecodeError::BadLength(4));
            }
            Ok(Message::Have(u32_at(raw, 1)))
        },
        5 => Ok(Message::Bitfield(slice_to_vec(slice_subrange(raw, 1, len)))),
        6 => {
            if len != 13 {
                return Err(DecodeError::BadLength(6));
            }
            Ok(Message::Request(request_from(raw, 1)))
        },
        7 => {
            if len < 9 {
                return Err(DecodeError::BadLength(7));
            }
            Ok(
                Message::Piece(
                    BlockBegin { piece: u32_at(raw, 1), offset: u32_at(raw, 5) },
                    slice_to_vec(slice_subrange(raw, 9, len)),
                ),
            )
        },
        8 => {
            if len != 13 {
                return Err(DecodeError::BadLength(8));
            }
            Ok(Message::Cancel(request_from(raw, 1)))
        },
        _ => Err(DecodeError::UnknownId(id)),
    }
}

/// The length field for a payload of `fixed + variable` bytes, if it fits.
fn frame_length(fixed: usize, variable: usize) -> (r: Option<u32>)
    ensures
        r is Some <==> fixed + variable <= u32::MAX,
        r matches Some(n) ==> n == fixed + variable,
{
    match fixed.checked_add(variable) {
        Some(total) => total.to_u32(),
        None => None,
    }
}

/// The bytes that go on the wire for a message.
pub fn encode_message(message: &Message) -> (r: Result<Vec<u8>, EncodeError>)
    ensures
        r is Ok <==> sendable(message@),
        match r {
            Ok(v) => v@ == frame_of(message@),
            Err(e) => e == (if message@ is Close {
                EncodeError::LocalOnly
            } else {
                EncodeError::TooLarge
            }),
        },
{
    let packet = match message {
        Message::Handshake(protocol, extensions, info_hash, peer_id) => {
            let p = Packet::new().length_prefixed_string(protocol.to_string()).bytes(
                extensions.to_bytes().as_slice(),
            ).bytes(info_hash.bytes.as_slice()).bytes(peer_id.bytes.as_slice());
            assert(p@ =~= frame_of(message@));
            p
        },
        Message::KeepAlive => {
            let p = Packet::new().u32(0);
            assert(p@ =~= frame_of(message@));
            p
        },
        Message::Choke => {
            let p = Packet::new().u32(1).byte(0);
            assert(p@ =~= frame_of(message@));
            p
        },
        Message::Unchoke => {
            let p = Packet::new().u32(1).byte(1);
            assert(p@ =~= frame_of(message@));
            p
        },
        Message::Interested => {
            let p = Packet::new().u32(1).byte(2);
            assert(p@ =~= frame_of(message@));
            p
        },
        Message::NotInterested => {
            let p = Packet::new().u32(1).byte(3);
            assert(p@ =~= frame_of(message@));
            p
        },
        Message::Have(piece) => {
            let p = Packet::new().u32(5).byte(4).u32(*piece);
            assert(p@ =~= frame_of(message@));
            p
        },
        Message::Bitfield(bits) => {
            let length = match frame_length(1, bits.len()) {
                Some(size) => size,
                None => return Err(EncodeError::TooLarge),
            };
            let p = Packet::new().u32(length).byte(5).bytes_vec(bits);
            assert(p@ =~= frame_of(message@));
            p
        },
        Message::Request(request) => {
            let p = Packet::new().u32(13).byte(6).u32(request.start.piece).u32(
                request.start.offset,
            ).u32(request.length);
            assert(p@ =~= frame_of(message@));
            p
        },
        Message::Piece(start, bytes) => {
            let length = match frame_length(9, bytes.len()) {
                Some(size) => size,
                None => return Err(EncodeError::TooLarge),
            };
            let p = Packet::new().u32(length).byte(7).u32(start.piece).u32(start.offset).bytes_vec(
                bytes,
            );
            assert(p@ =~= frame_of(message@));
            p
        },
        Message::Cancel(request) => {
            let p = Packet::new().u32(13).byte(8).u32(request.start.piece).u32(
                request.start.offset,
            ).u32(request.length);
            assert(p@ =~= frame_of(message@));
            p
        },
        Message::Close => {
            return Err(EncodeError::LocalOnly);
        },
    };
    Ok(packet.into_bytes())
}

/// The four bytes at `at` hold `v` when they are `v`'s big-endian bytes.
proof fn lemma_be_u32_at(b: Seq<u8>, at: int, v: u32)
    requires
        0 <= at,
        at + 4 <= b.len(),
        b.subrange(at, at + 4) == be_u32_bytes(v),
    ensures
        be_u32_at(b, at) == v,
{
    lemma_be_u32_round_trip(v);
}

/// A handshake that can be sent: twenty-byte ids, and a peer id that is valid
/// UTF-8.
pub open spec fn well_formed_handshake(m: MessageView) -> bool {
    m matches MessageView::Handshake(_, _, h, id) ==> h.len() == 20 && id.len() == 20 && valid_utf8(
        id,
    )
}

/// Decoding what encoding produced gives back the message: a handshake from
/// its sixty-eight bytes, any other message from the payload that its length
/// field announces.
pub proof fn lemma_frame_round_trip(m: MessageView)
    requires
        sendable(m),
        well_formed_handshake(m),
    ensures
        m is Handshake ==> frame_of(m).len() == 68 && parse_handshake(frame_of(m)) == Ok::<
            MessageView,
            DecodeError,
        >(m),
        m !is Handshake ==> {
            &&& frame_of(m).len() >= 4
            &&& be_u32_value(frame_of(m).subrange(0, 4)) == frame_of(m).len() - 4
            &&& parse_payload(frame_of(m).subrange(4, frame_of(m).len() as int)) == Ok::<
                MessageView,
                DecodeError,
            >(m)
        },
{
    let f = frame_of(m);
    if let MessageView::Handshake(p, e, h, id) = m {
        assert(f.subrange(0, 20) =~= seq![19u8] + protocol_name());
        assert(f.subrange(28, 48) =~= h);
        assert(f.subrange(48, 68) =~= id);
    } else {
        let p = payload_of(m);
        lemma_be_u32_round_trip(p.len() as u32);
        assert(f.subrange(0, 4) =~= be_u32_bytes(p.len() as u32));
        assert(f.subrange(4, f.len() as int) =~= p);
        match m {
            MessageView::Have(i) => {
                assert(p.subrange(1, 5) =~= be_u32_bytes(i));
                lemma_be_u32_at(p, 1, i);
            },
            MessageView::Bitfield(b) => {
                assert(p.subrange(1, p.len() as int) =~= b);
            },
            MessageView::Request(r) => {
                assert(p.subrange(1, 5) =~= be_u32_bytes(r.start.piece));
                assert(p.subrange(5, 9) =~= be_u32_bytes(r.start.offset));
                assert(p.subrange(9, 13) =~= be_u32_bytes(r.length));
                lemma_be_u32_at(p, 1, r.start.piece);
                lemma_be_u32_at(p, 5, r.start.offset);
                lemma_be_u32_at(p, 9, r.length);
            },
            MessageView::Piece(b, d) => {
                assert(p.subrange(1, 5) =~= be_u32_bytes(b.piece));
                assert(p.subrange(5, 9) =~= be_u32_bytes(b.offset));
                assert(p.subrange(9, p.len() as int) =~= d);
                lemma_be_u32_at(p, 1, b.piece);
                lemma_be_u32_at(p, 5, b.offset);
            },
            MessageView::Cancel(r) => {
                assert(p.subrange(1, 5) =~= be_u32_bytes(r.start.piece));
                assert(p.subrange(5, 9) =~= be_u32_bytes(r.start.offset));
                assert(p.subrange(9, 13) =~= be_u32_bytes(r.length));
                lemma_be_u32_at(p, 1, r.start.piece);
                lemma_be_u32_at(p, 5, r.start.offset);
                lemma_be_u32_at(p, 9, r.length);
            },
            _ => {},
        }
    }
}

/// A handshake frame whose protocol-name bytes are not exactly the expected
/// name is rejected, whatever the other bytes hold.
pub proof fn lemma_handshake_rejects_other_name(b: Seq<u8>)
    requires
        b.len() == 68,
        b.subrange(1, 20) != protocol_name(),
    ensures
        parse_handshake(b) == Err::<MessageView, DecodeError>(DecodeError::BadProtocol),
{
    if b.subrange(0, 20) == seq![19u8] + protocol_name() {
        assert(b.subrange(1, 20) =~= b.subrange(0, 20).subrange(1, 20));
        assert((seq![19u8] + protocol_name()).subrange(1, 20) =~= protocol_name());
    }
}

/// The reserved bytes of a handshake are not read: a frame that differs from
/// an encoded handshake in those bytes alone decodes to the same handshake.
pub proof fn lemma_handshake_ignores_reserved(m: MessageView, b: Seq<u8>)
    requires
        m is Handshake,
        well_formed_handshake(m),
        b.len() == 68,
        forall|k: int| 0 <= k < 68 && !(20 <= k < 28) ==> b[k] == #[trigger] frame_of(m)[k],
    ensures
        parse_handshake(b) == Ok::<MessageView, DecodeError>(m),
{
    lemma_frame_round_trip(m);
    let f = frame_of(m);
    assert(b.subrange(0, 20) =~= f.subrange(0, 20));
    assert(b.subrange(28, 48) =~= f.subrange(28, 48));
    assert(b.subrange(48, 68) =~= f.subrange(48, 68));
}

} // verus!
