use rusttorrent::support::{Extensions, InfoHash, PeerId, Protocol, Timeout, NONE};

#[test]
fn info_hash_text_round_trip() {
    let text = "ca669b6679f03a329f25787c761651a8c36a26a4";
    let h = InfoHash::from_str(text).ok().unwrap();
    assert_eq!(h.bytes[0], 0xca);
    assert_eq!(h.bytes[19], 0xa4);
    assert_eq!(h.to_string(), text);
}

#[test]
fn info_hash_accepts_upper_case_and_prints_lower_case() {
    let h = InfoHash::from_str("CA669B6679F03A329F25787C761651A8C36A26A4").ok().unwrap();
    assert_eq!(h.to_string(), "ca669b6679f03a329f25787c761651a8c36a26a4");
}

#[test]
fn info_hash_rejects_bad_text() {
    assert!(InfoHash::from_str("ca669b6679f03a329f25787c761651a8c36a26a").is_err());
    assert!(InfoHash::from_str("ca669b6679f03a329f25787c761651a8c36a26a40").is_err());
    assert!(InfoHash::from_str("xa669b6679f03a329f25787c761651a8c36a26a4").is_err());
    assert!(InfoHash::from_str("ca669b6679f03a329f25787c761651a8c36a2 a4").is_err());
}

#[test]
fn info_hash_from_bytes() {
    assert!(InfoHash::from_bytes(&[1u8; 20]).is_some());
    assert!(InfoHash::from_bytes(&[1u8; 19]).is_none());
    assert_eq!(InfoHash::from_bytes(&[0xABu8; 20]).unwrap().to_string(), "ab".repeat(20));
}

#[test]
fn peer_id_text_round_trip() {
    let p = PeerId::from_str("-RU0001-965t0j7HrmHh").ok().unwrap();
    assert_eq!(&p.bytes, b"-RU0001-965t0j7HrmHh");
    assert_eq!(p.to_string(), "-RU0001-965t0j7HrmHh");
    assert!(PeerId::from_str("-RU0001-965t0j7HrmH").is_err());
}

#[test]
fn peer_id_from_bytes_checks_utf8() {
    assert!(PeerId::from_bytes(b"abcdefghijklmnopqrst").is_some());
    let mut bad = *b"abcdefghijklmnopqrst";
    bad[3] = 0xC3;
    assert!(PeerId::from_bytes(&bad).is_none());
    assert!(PeerId::from_bytes(b"short").is_none());
    let two_byte = "ééééééééé-"; // nine two-byte characters and one ASCII one
    assert_eq!(two_byte.len(), 19);
    let mut with_e = two_byte.as_bytes().to_vec();
    with_e.push(b'!');
    let id = PeerId::from_bytes(&with_e).unwrap();
    assert_eq!(id.to_string(), "ééééééééé-!");
}

#[test]
fn protocol_and_extensions() {
    assert_eq!(Protocol::BitTorrent.to_string(), "BitTorrent protocol");
    assert_eq!(NONE.to_bytes(), [0u8; 8]);
    assert_eq!(Extensions.to_bytes(), [0u8; 8]);
}

#[test]
fn timeout_holds_a_value_or_not() {
    let ready: Timeout<u8> = Timeout::Ready(3);
    assert!(matches!(ready, Timeout::Ready(3)));
    let late: Timeout<u8> = Timeout::Timeout;
    assert!(matches!(late, Timeout::Timeout));
}
