use rusttorrent::convert::{NetworkConvert, U32Converts, UsizeConverts};
use rusttorrent::messages::{encode_message, read_handshake, read_message, DecodeError, EncodeError, Message};
use rusttorrent::network::Packet;
use rusttorrent::support::{BlockBegin, BlockRequest, InfoHash, PeerId, Protocol, NONE};

fn info_hash() -> InfoHash {
    InfoHash::from_str("ca669b6679f03a329f25787c761651a8c36a26a4").ok().unwrap()
}

fn peer_id() -> PeerId {
    PeerId::from_str("-RU0001-965t0j7HrmHh").ok().unwrap()
}

fn handshake_frame() -> [u8; 68] {
    let bytes = encode_message(&Message::Handshake(Protocol::BitTorrent, NONE, info_hash(), peer_id())).ok().unwrap();
    let mut frame = [0u8; 68];
    frame.copy_from_slice(&bytes);
    frame
}

/// Encodes, checks the length field, and decodes the payload.
fn round_trip(m: &Message) -> Message {
    let bytes = encode_message(m).ok().unwrap();
    assert!(bytes.len() >= 4);
    let announced = u32::from_bytes_be(&bytes[0..4]);
    assert_eq!(announced as usize, bytes.len() - 4);
    read_message(bytes[4..].to_vec()).ok().unwrap()
}

#[test]
fn round_trip_simple_messages() {
    assert!(matches!(round_trip(&Message::KeepAlive), Message::KeepAlive));
    assert!(matches!(round_trip(&Message::Choke), Message::Choke));
    assert!(matches!(round_trip(&Message::Unchoke), Message::Unchoke));
    assert!(matches!(round_trip(&Message::Interested), Message::Interested));
    assert!(matches!(round_trip(&Message::NotInterested), Message::NotInterested));
    assert!(matches!(round_trip(&Message::Have(258)), Message::Have(258)));
}

#[test]
fn round_trip_messages_with_fields() {
    let r = BlockRequest { start: BlockBegin { piece: 7, offset: 16384 }, length: 16384 };
    assert!(matches!(round_trip(&Message::Request(r)), Message::Request(x) if x == r));
    assert!(matches!(round_trip(&Message::Cancel(r)), Message::Cancel(x) if x == r));
    let bits = vec![0xA5u8, 0x00, 0xFF];
    assert!(matches!(round_trip(&Message::Bitfield(bits.clone())), Message::Bitfield(b) if b == bits));
    let begin = BlockBegin { piece: 3, offset: 32768 };
    let data = vec![1u8, 2, 3, 4, 5];
    assert!(matches!(round_trip(&Message::Piece(begin, data.clone())), Message::Piece(b, d) if b == begin && d == data));
    assert!(matches!(round_trip(&Message::Bitfield(vec![])), Message::Bitfield(b) if b.is_empty()));
}

#[test]
fn round_trip_handshake() {
    let frame = handshake_frame();
    match read_handshake(&frame) {
        Ok(Message::Handshake(p, e, h, id)) => {
            assert_eq!(p, Protocol::BitTorrent);
            assert_eq!(e, NONE);
            assert_eq!(h.bytes, info_hash().bytes);
            assert_eq!(id.bytes, peer_id().bytes);
        }
        _ => panic!("handshake did not decode"),
    }
}

#[test]
fn handshake_layout() {
    let frame = handshake_frame();
    assert_eq!(frame[0], 19);
    assert_eq!(&frame[1..20], b"BitTorrent protocol");
    assert_eq!(&frame[20..28], &[0u8; 8]);
    assert_eq!(&frame[28..48], &info_hash().bytes);
    assert_eq!(&frame[48..68], &peer_id().bytes);
}

#[test]
fn handshake_rejects_any_altered_name_byte() {
    for k in 0..20 {
        let mut frame = handshake_frame();
        frame[k] ^= 0x01;
        assert!(matches!(read_handshake(&frame), Err(DecodeError::BadProtocol)), "byte {}", k);
    }
}

#[test]
fn handshake_ignores_reserved_bytes() {
    let mut frame = handshake_frame();
    for k in 20..28 {
        frame[k] = 0xFF;
    }
    match read_handshake(&frame) {
        Ok(Message::Handshake(_, _, h, id)) => {
            assert_eq!(h.bytes, info_hash().bytes);
            assert_eq!(id.bytes, peer_id().bytes);
        }
        _ => panic!("reserved bytes must not matter"),
    }
}

#[test]
fn handshake_rejects_peer_id_that_is_not_utf8() {
    let mut frame = handshake_frame();
    frame[48] = 0xFF;
    assert!(matches!(read_handshake(&frame), Err(DecodeError::BadPeerId)));
}

#[test]
fn decode_errors() {
    assert!(matches!(read_message(vec![9]), Err(DecodeError::UnknownId(9))));
    assert!(matches!(read_message(vec![4, 0, 0, 1]), Err(DecodeError::BadLength(4))));
    assert!(matches!(read_message(vec![4, 0, 0, 0, 1, 0]), Err(DecodeError::BadLength(4))));
    assert!(matches!(read_message(vec![6; 12]), Err(DecodeError::BadLength(6))));
    assert!(matches!(read_message(vec![8; 14]), Err(DecodeError::BadLength(8))));
    assert!(matches!(read_message(vec![7, 0, 0, 0, 1, 0, 0, 0]), Err(DecodeError::BadLength(7))));
}

#[test]
fn decode_values() {
    assert!(matches!(read_message(vec![]), Ok(Message::KeepAlive)));
    assert!(matches!(read_message(vec![4, 0, 0, 1, 2]), Ok(Message::Have(258))));
    match read_message(vec![6, 0, 0, 0, 1, 0, 0, 0x40, 0, 0, 0, 0x40, 0]) {
        Ok(Message::Request(r)) => {
            assert_eq!(r.start.piece, 1);
            assert_eq!(r.start.offset, 16384);
            assert_eq!(r.length, 16384);
        }
        _ => panic!("request did not decode"),
    }
    match read_message(vec![7, 0, 0, 0, 2, 0, 0, 0, 3, 9, 8]) {
        Ok(Message::Piece(b, d)) => {
            assert_eq!(b, BlockBegin { piece: 2, offset: 3 });
            assert_eq!(d, vec![9, 8]);
        }
        _ => panic!("piece did not decode"),
    }
}

#[test]
fn encode_exact_bytes() {
    assert_eq!(encode_message(&Message::KeepAlive).ok().unwrap(), vec![0, 0, 0, 0]);
    assert_eq!(encode_message(&Message::Choke).ok().unwrap(), vec![0, 0, 0, 1, 0]);
    assert_eq!(encode_message(&Message::Have(258)).ok().unwrap(), vec![0, 0, 0, 5, 4, 0, 0, 1, 2]);
    assert_eq!(encode_message(&Message::Bitfield(vec![0xF0])).ok().unwrap(), vec![0, 0, 0, 2, 5, 0xF0]);
    assert_eq!(
        encode_message(&Message::Piece(BlockBegin { piece: 1, offset: 2 }, vec![7, 7, 7])).ok().unwrap(),
        vec![0, 0, 0, 12, 7, 0, 0, 0, 1, 0, 0, 0, 2, 7, 7, 7]
    );
    assert_eq!(
        encode_message(&Message::Cancel(BlockRequest { start: BlockBegin { piece: 1, offset: 2 }, length: 3 })).ok().unwrap(),
        vec![0, 0, 0, 13, 8, 0, 0, 0, 1, 0, 0, 0, 2, 0, 0, 0, 3]
    );
}

#[test]
fn close_is_never_encoded() {
    assert!(matches!(encode_message(&Message::Close), Err(EncodeError::LocalOnly)));
}

#[test]
fn network_byte_order() {
    assert_eq!(0x01020304u32.to_bytes_be(), [1, 2, 3, 4]);
    assert_eq!(0x01020304u32.to_bytes_le(), [4, 3, 2, 1]);
    assert_eq!(u32::from_bytes_be(&[1, 2, 3, 4, 5]), 0x01020304);
    assert_eq!(u32::from_bytes_le(&[1, 2, 3, 4]), 0x04030201);
}

#[test]
fn checked_narrowing() {
    assert_eq!(255u32.to_u8(), Some(255));
    assert_eq!(256u32.to_u8(), None);
    assert_eq!(7u32.to_usize(), Some(7));
    assert_eq!(255usize.to_u8(), Some(255));
    assert_eq!(300usize.to_u8(), None);
    assert_eq!((u32::MAX as usize).to_u32(), Some(u32::MAX));
    assert_eq!((u32::MAX as usize + 1).to_u32(), None);
}

#[test]
fn packet_builder() {
    let p = Packet::new().length_prefixed_string("ab").byte(9).u32(0x0A0B0C0D).bytes(&[1, 2]).bytes_vec(&vec![3]).string("z");
    assert_eq!(p.into_bytes(), vec![2, b'a', b'b', 9, 0x0A, 0x0B, 0x0C, 0x0D, 1, 2, 3, b'z']);
}
