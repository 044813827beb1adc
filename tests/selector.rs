use rusttorrent::piece_selection::{new_sequential_selector, PieceSelector};
use rusttorrent::support::{BlockBegin, BlockRequest};

fn req(piece: u32, offset: u32, length: u32) -> BlockRequest {
    BlockRequest { start: BlockBegin { piece, offset }, length }
}

#[test]
fn two_pieces_of_two_blocks_are_exhausted_after_four_requests() {
    let mut s = new_sequential_selector(2, 32768, 16384);
    let mut got = Vec::new();
    for _ in 0..4 {
        got.push(s.next_request().expect("a block is left"));
    }
    assert_eq!(got, vec![req(0, 0, 16384), req(0, 16384, 16384), req(1, 0, 16384), req(1, 16384, 16384)]);
    for i in 0..got.len() {
        for j in (i + 1)..got.len() {
            assert_ne!(got[i], got[j]);
        }
    }
    assert_eq!(s.next_request(), None);
    assert_eq!(s.next_request(), None);
}

#[test]
fn last_block_may_overhang_the_piece() {
    let mut s = new_sequential_selector(1, 40000, 16384);
    assert_eq!(s.next_request(), Some(req(0, 0, 16384)));
    assert_eq!(s.next_request(), Some(req(0, 16384, 16384)));
    assert_eq!(s.next_request(), Some(req(0, 32768, 16384)));
    assert_eq!(s.next_request(), None);
}

#[test]
fn identical_selectors_agree() {
    let mut a = new_sequential_selector(3, 50000, 16384);
    let mut b = new_sequential_selector(3, 50000, 16384);
    let mut n = 0;
    loop {
        let x = a.next_request();
        assert_eq!(x, b.next_request());
        if x.is_none() {
            break;
        }
        n += 1;
    }
    assert_eq!(n, 12);
}

#[test]
fn nothing_to_request() {
    assert_eq!(new_sequential_selector(0, 32768, 16384).next_request(), None);
    assert_eq!(new_sequential_selector(5, 0, 16384).next_request(), None);
}
