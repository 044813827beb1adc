use rusttorrent::download::{self, Downloader, Reaction, PIPELINE_DEPTH};
use rusttorrent::messages::Message;
use rusttorrent::peer::{handshake_accepted, Peer};
use rusttorrent::support::{BlockBegin, InfoHash, PeerId, Protocol, NONE};

fn info_hash() -> InfoHash {
    InfoHash::from_str("ca669b6679f03a329f25787c761651a8c36a26a4").ok().unwrap()
}

fn peer_id(n: u8) -> PeerId {
    let mut bytes = *b"-RU0001-965t0j7HrmH0";
    bytes[19] = b'0' + n;
    PeerId { bytes }
}

/// A coordinator with `peers` peers, for a swarm of `piece_count` pieces.
fn downloader(piece_count: u32, piece_size: u32, peers: u8) -> Downloader {
    let mut d = download::new(info_hash(), piece_count, piece_size, peer_id(9));
    for n in 0..peers {
        let id = d.next_connection_id().unwrap();
        d.register_peer(peer_id(n), id);
    }
    d
}

fn sends(r: &Reaction) -> &Vec<Message> {
    match r {
        Reaction::Send(v) => v,
        Reaction::Disconnect => panic!("peer was dropped"),
    }
}

#[test]
fn new_peer_defaults() {
    let p = Peer::new(peer_id(1), 7, 12);
    assert!(p.am_choking && p.is_choking && !p.am_interested && !p.is_interested);
    assert_eq!(p.pieces, vec![false; 12]);
    assert_eq!(p.inflight_requests, 0);
    assert_eq!(p.internal_connection_id, 7);
}

#[test]
fn connection_ids_are_fresh() {
    let mut d = downloader(4, 32768, 0);
    assert_eq!(d.next_connection_id(), Some(0));
    assert_eq!(d.next_connection_id(), Some(1));
    d.internal_connection_counter = u32::MAX;
    assert_eq!(d.next_connection_id(), None);
}

#[test]
fn peers_are_found_by_connection_id() {
    let mut d = downloader(4, 32768, 3);
    assert_eq!(d.peer_index_for_connection_id(2), Some(2));
    assert_eq!(d.peer_index_for_connection_id(5), None);
    d.remove_peer(0);
    assert_eq!(d.peer_index_for_connection_id(2), Some(1));
    assert_eq!(d.peer_index_for_connection_id(0), None);
}

#[test]
fn handshake_must_name_our_swarm() {
    let ours = Message::Handshake(Protocol::BitTorrent, NONE, info_hash(), peer_id(1));
    assert!(handshake_accepted(&ours, &info_hash()));
    let other = Message::Handshake(Protocol::BitTorrent, NONE, InfoHash { bytes: [0; 20] }, peer_id(1));
    assert!(!handshake_accepted(&other, &info_hash()));
    assert!(!handshake_accepted(&Message::KeepAlive, &info_hash()));
}

#[test]
fn bitfield_with_padding_is_truncated() {
    let mut d = downloader(20, 32768, 1);
    let r = d.process_peer_message_for_index(0, Message::Bitfield(vec![0xFF, 0xFF, 0xFF]));
    assert!(sends(&r).is_empty());
    assert_eq!(d.peers[0].pieces, vec![true; 20]);
}

#[test]
fn bitfield_bits_are_read_high_bit_first() {
    let mut d = downloader(12, 32768, 1);
    let r = d.process_peer_message_for_index(0, Message::Bitfield(vec![0x81, 0x40]));
    assert!(sends(&r).is_empty());
    let mut expected = vec![false; 12];
    expected[0] = true;
    expected[7] = true;
    expected[9] = true;
    assert_eq!(d.peers[0].pieces, expected);
}

#[test]
fn bitfield_of_the_padded_length_is_accepted_whatever_its_padding() {
    let mut d = downloader(20, 32768, 1);
    let r = d.process_peer_message_for_index(0, Message::Bitfield(vec![0xFF, 0xFF, 0xF0]));
    assert!(sends(&r).is_empty());
    assert_eq!(d.peers[0].pieces, vec![true; 20]);
}

#[test]
fn bitfield_of_another_length_drops_the_peer() {
    let mut d = downloader(20, 32768, 2);
    let r = d.process_peer_message_for_index(0, Message::Bitfield(vec![0xFF, 0xFF]));
    assert!(matches!(r, Reaction::Disconnect));
    assert_eq!(d.peers.len(), 1);
    let r = d.process_peer_message_for_index(0, Message::Bitfield(vec![0xFF; 4]));
    assert!(matches!(r, Reaction::Disconnect));
    assert!(d.peers.is_empty());
}

#[test]
fn bitfield_for_whole_bytes() {
    let mut d = downloader(16, 32768, 1);
    let r = d.process_peer_message_for_index(0, Message::Bitfield(vec![0x00, 0x01]));
    assert!(sends(&r).is_empty());
    assert_eq!(d.peers[0].pieces.iter().filter(|b| **b).count(), 1);
    assert!(d.peers[0].pieces[15]);
}

#[test]
fn have_at_or_past_the_piece_count_drops_the_peer() {
    let mut d = downloader(20, 32768, 3);
    assert!(matches!(d.process_peer_message_for_index(0, Message::Have(20)), Reaction::Disconnect));
    assert!(matches!(d.process_peer_message_for_index(0, Message::Have(21)), Reaction::Disconnect));
    assert_eq!(d.peers.len(), 1);
    let r = d.process_peer_message_for_index(0, Message::Have(19));
    assert!(sends(&r).is_empty());
    assert!(d.peers[0].pieces[19]);
    assert_eq!(d.peers[0].pieces.iter().filter(|b| **b).count(), 1);
}

#[test]
fn piece_with_nothing_in_flight_keeps_zero() {
    let mut d = downloader(4, 32768, 1);
    assert_eq!(d.peers[0].inflight_requests, 0);
    let r = d.process_peer_message_for_index(0, Message::Piece(BlockBegin { piece: 0, offset: 0 }, vec![1, 2]));
    assert!(sends(&r).is_empty());
    assert_eq!(d.peers[0].inflight_requests, 0);
}

#[test]
fn piece_frees_a_pipeline_slot() {
    let mut d = downloader(404, 33792, 1);
    d.process_peer_message_for_index(0, Message::Unchoke);
    assert_eq!(d.peers[0].inflight_requests, PIPELINE_DEPTH);
    let r = d.process_peer_message_for_index(0, Message::Piece(BlockBegin { piece: 0, offset: 0 }, vec![]));
    let sent = sends(&r);
    assert_eq!(sent.len(), 1);
    assert!(matches!(sent[0], Message::Request(_)));
    assert_eq!(d.peers[0].inflight_requests, PIPELINE_DEPTH);
}

#[test]
fn unchoke_twice_fills_the_pipeline_once() {
    let mut d = downloader(404, 33792, 1);
    let first = d.process_peer_message_for_index(0, Message::Unchoke);
    let sent = sends(&first);
    assert_eq!(sent.len(), 101);
    assert!(matches!(sent[0], Message::Interested));
    assert!(sent[1..].iter().all(|m| matches!(m, Message::Request(_))));
    assert!(matches!(sent[1], Message::Request(r) if r.start.piece == 0 && r.start.offset == 0 && r.length == 16384));
    assert!(matches!(sent[2], Message::Request(r) if r.start.piece == 0 && r.start.offset == 16384));
    assert!(matches!(sent[4], Message::Request(r) if r.start.piece == 1 && r.start.offset == 0));
    assert!(!d.peers[0].is_choking);
    assert!(d.peers[0].am_interested);
    assert_eq!(d.peers[0].inflight_requests, PIPELINE_DEPTH);
    let second = d.process_peer_message_for_index(0, Message::Unchoke);
    assert!(sends(&second).is_empty());
    assert!(!d.peers[0].is_choking);
    assert_eq!(d.peers[0].inflight_requests, PIPELINE_DEPTH);
}

#[test]
fn refill_stops_when_the_scheduler_is_empty() {
    let mut d = downloader(2, 32768, 1);
    let r = d.process_peer_message_for_index(0, Message::Unchoke);
    assert_eq!(sends(&r).len(), 5);
    assert_eq!(d.peers[0].inflight_requests, 4);
}

#[test]
fn choke_and_interest_flags() {
    let mut d = downloader(4, 32768, 1);
    d.process_peer_message_for_index(0, Message::Interested);
    assert!(d.peers[0].is_interested);
    d.process_peer_message_for_index(0, Message::NotInterested);
    assert!(!d.peers[0].is_interested);
    d.process_peer_message_for_index(0, Message::Unchoke);
    assert!(!d.peers[0].is_choking);
    let r = d.process_peer_message_for_index(0, Message::Choke);
    assert!(sends(&r).is_empty());
    assert!(d.peers[0].is_choking);
}

#[test]
fn messages_without_effect() {
    let mut d = downloader(4, 32768, 1);
    for m in vec![
        Message::KeepAlive,
        Message::Handshake(Protocol::BitTorrent, NONE, info_hash(), peer_id(1)),
        Message::Request(rusttorrent::support::BlockRequest { start: BlockBegin { piece: 0, offset: 0 }, length: 16384 }),
        Message::Cancel(rusttorrent::support::BlockRequest { start: BlockBegin { piece: 0, offset: 0 }, length: 16384 }),
    ] {
        let r = d.process_peer_message_for_index(0, m);
        assert!(sends(&r).is_empty());
    }
    let p = &d.peers[0];
    assert!(p.is_choking && p.am_choking && !p.is_interested && !p.am_interested && p.inflight_requests == 0);
}

#[test]
fn close_drops_the_peer() {
    let mut d = downloader(4, 32768, 2);
    assert!(matches!(d.process_peer_message_for_index(1, Message::Close), Reaction::Disconnect));
    assert_eq!(d.peers.len(), 1);
    assert_eq!(d.peers[0].internal_connection_id, 0);
}

/// Six peers with distinct rates, five of them interested; the peer with the
/// best rate is currently served.
fn choke_scene() -> Downloader {
    let mut d = downloader(4, 32768, 6);
    let rates = [60u32, 10, 50, 20, 40, 30];
    for i in 0..6 {
        d.peers[i].upload_rate_to_us = rates[i];
        d.peers[i].is_interested = i != 5;
    }
    d.peers[0].am_choking = false;
    d
}

fn ids(d: &Downloader) -> Vec<u32> {
    d.peers.iter().map(|p| p.internal_connection_id).collect()
}

#[test]
fn choke_pass_follows_the_ascending_scan() {
    let mut d = choke_scene();
    let sent = d.run_choke_algorithm();
    assert_eq!(ids(&d), vec![1, 3, 5, 4, 2, 0]);
    let summary: Vec<(u32, bool)> = sent.iter().map(|(id, m)| (*id, matches!(m, Message::Unchoke))).collect();
    assert_eq!(summary, vec![(1, true), (3, true), (4, true), (2, true), (0, false)]);
    assert!(sent.iter().all(|(_, m)| matches!(m, Message::Unchoke | Message::Choke)));
    let choking: Vec<bool> = d.peers.iter().map(|p| p.am_choking).collect();
    assert_eq!(choking, vec![false, false, true, false, false, true]);
    assert_eq!(d.choke_algorithm_counter, 1);
}

#[test]
fn choke_decision_on_sorted_peers() {
    let mut d = choke_scene();
    d.run_choke_algorithm();
    let mut fresh = choke_scene();
    fresh.peers.sort_by_key(|p| p.upload_rate_to_us);
    let decision = download::choke_decision(&fresh.peers, None);
    assert_eq!(decision.to_unchoke, vec![0, 1, 3, 4]);
    assert_eq!(decision.to_choke, vec![5]);
}

#[test]
fn optimistic_pass_spares_the_interested_pick() {
    let mut d = choke_scene();
    d.choke_algorithm_counter = 2;
    let sent = d.run_choke_algorithm();
    // The only peer past the last unchoke slot is the best one, which is
    // interested and served: it stays served.
    let summary: Vec<(u32, bool)> = sent.iter().map(|(id, m)| (*id, matches!(m, Message::Unchoke))).collect();
    assert_eq!(summary, vec![(1, true), (3, true), (4, true), (2, true)]);
    assert!(!d.peers[5].am_choking);
    assert_eq!(d.choke_algorithm_counter, 0);
}

#[test]
fn optimistic_pick_is_unchoked() {
    let mut d = choke_scene();
    d.peers[0].am_choking = true;
    d.choke_algorithm_counter = 2;
    let sent = d.run_choke_algorithm();
    assert!(sent.iter().all(|(_, m)| matches!(m, Message::Unchoke)));
    assert_eq!(sent.len(), 5);
    assert_eq!(sent[4].0, 0);
    assert!(d.peers.iter().filter(|p| p.is_interested).all(|p| !p.am_choking));
}

#[test]
fn equal_rates_keep_their_order() {
    let mut d = downloader(4, 32768, 4);
    let rates = [5u32, 1, 5, 1];
    for i in 0..4 {
        d.peers[i].upload_rate_to_us = rates[i];
    }
    d.run_choke_algorithm();
    assert_eq!(ids(&d), vec![1, 3, 0, 2]);
}

#[test]
fn optimistic_pick_ranges_over_the_peers_past_the_slots() {
    let mut seen = [false; 2];
    for _ in 0..64 {
        // Four interested peers fill the slots; two more interested peers,
        // both choked, come after them.
        let mut d = downloader(4, 32768, 6);
        for i in 0..6 {
            d.peers[i].upload_rate_to_us = i as u32;
            d.peers[i].is_interested = true;
        }
        d.choke_algorithm_counter = 2;
        let sent = d.run_choke_algorithm();
        assert_eq!(sent.len(), 5);
        assert!(sent.iter().all(|(_, m)| matches!(m, Message::Unchoke)));
        let ids: Vec<u32> = sent.iter().map(|(id, _)| *id).collect();
        assert_eq!(&ids[..4], &[0, 1, 2, 3]);
        assert!(ids[4] == 4 || ids[4] == 5);
        seen[(ids[4] - 4) as usize] = true;
    }
    assert!(seen[0] && seen[1]);
}
