//! Choosing the next block to request from the swarm.

use crate::support::{BlockBegin, BlockRequest};
use vstd::arithmetic::div_mod::{
    lemma_div_plus_one, lemma_fundamental_div_mod_converse, lemma_mod_add_multiples_vanish,
    lemma_multiply_divide_lt,
};
use vstd::prelude::*;

verus! {

/// The number of blocks of `block_size` bytes that cover a piece of
/// `piece_size` bytes, the last one possibly overhanging.
pub open spec fn blocks_per_piece(piece_size: u32, block_size: u32) -> nat {
    (piece_size / block_size + if piece_size % block_size == 0 {
        0int
    } else {
        1int
    }) as nat
}

/// The request for block number `block` of a piece: it starts `block` blocks
/// into the piece, in bytes, and is one block long.
pub open spec fn block_request(piece: u32, block: int, block_size: u32) -> BlockRequest {
    BlockRequest {
        start: BlockBegin { piece, offset: (block * block_size) as u32 },
        length: block_size,
    }
}

/// Every block of the pieces of a stack, the piece on top first, each piece's
/// blocks in ascending order.
pub open spec fn queued_requests(pieces: Seq<u32>, count: nat, block_size: u32) -> Seq<
    BlockRequest,
> {
    Seq::new(
        pieces.len() * count,
        |k: int| block_request(pieces[pieces.len() - 1 - k / (count as int)], k % (count as int), block_size),
    )
}

/// The pieces `0..piece_count` as a stack with piece 0 on top.
pub open spec fn descending(piece_count: u32) -> Seq<u32> {
    Seq::new(piece_count as nat, |i: int| (piece_count - 1 - i) as u32)
}

/// A policy that hands out the blocks to request, one at a time.
pub trait PieceSelector {
    spec fn wf(&self) -> bool;

    /// The requests still to be handed out, in the order they will come.
    spec fn pending(&self) -> Seq<BlockRequest>;

    /// The next request, or `None` once every block has been handed out.
    fn next_request(&mut self) -> (r: Option<BlockRequest>)
        requires
            old(self).wf(),
        ensures
            final(self).wf(),
            old(self).pending().len() == 0 ==> {
                &&& r is None
                &&& final(self).pending() == old(self).pending()
            },
            old(self).pending().len() > 0 ==> {
                &&& r == Some(old(self).pending()[0])
                &&& final(self).pending() == old(self).pending().drop_first()
            },
    ;
}

/// A piece whose first block has been requested, with the block numbers that
/// are left, the next one last.
struct InflightPiece {
    index: u32,
    blocks_to_request: Vec<u32>,
}

/// Hands out the pieces in a fixed order, one piece at a time, and the blocks
/// of a piece in ascending order. Block numbers count blocks from the start of
/// the piece; a request's offset is that number times the block size, in bytes.
pub struct SequentialPieceSelector {
    piece_size: u32,
    block_size: u32,
    pieces_to_download: Vec<u32>,
    inflight_pieces: Vec<InflightPiece>,
}

impl SequentialPieceSelector {
    /// The requests left for the most recently started piece.
    closed spec fn top_requests(&self) -> Seq<BlockRequest> {
        if self.inflight_pieces@.len() == 0 {
            Seq::empty()
        } else {
            let top = self.inflight_pieces@.last();
            let blocks = top.blocks_to_request@;
            Seq::new(
                blocks.len(),
                |i: int| block_request(top.index, blocks[blocks.len() - 1 - i] as int, self.block_size),
            )
        }
    }

    closed spec fn count(&self) -> nat {
        blocks_per_piece(self.piece_size, self.block_size)
    }
}

/// Any block number below the block count starts inside the piece.
proof fn lemma_block_offset_fits(piece_size: u32, block_size: u32, block: int)
    requires
        block_size > 0,
        0 <= block < blocks_per_piece(piece_size, block_size),
    ensures
        block * block_size < piece_size,
{
    let q = piece_size / block_size;
    let r = piece_size % block_size;
    assert(piece_size == q * block_size + r && 0 <= r < block_size) by (nonlinear_arith)
        requires
            block_size > 0,
            q == piece_size / block_size,
            r == piece_size % block_size,
    ;
    if r == 0 {
        assert(block * block_size < piece_size) by (nonlinear_arith)
            requires
                0 <= block < q,
                piece_size == q * block_size,
                block_size > 0,
        ;
    } else {
        assert(block * block_size < piece_size) by (nonlinear_arith)
            requires
                0 <= block <= q,
                piece_size == q * block_size + r,
                0 < r,
                block_size > 0,
        ;
    }
}

/// The block count of a piece, computed.
fn block_count(piece_size: u32, block_size: u32) -> (r: u32)
    requires
        block_size > 0,
    ensures
        r == blocks_per_piece(piece_size, block_size),
{
    let whole = piece_size / block_size;
    if piece_size % block_size == 0 {
        whole
    } else {
        assert(whole < u32::MAX) by (nonlinear_arith)
            requires
                block_size > 0,
                piece_size % block_size != 0,
                whole == piece_size / block_size,
        ;
        whole + 1
    }
}

/// The block numbers `1..count`, the smallest last.
fn later_blocks(count: u32) -> (v: Vec<u32>)
    requires
        count >= 1,
    ensures
        v@.len() == count - 1,
        forall|j: int| 0 <= j < v@.len() ==> v@[j] == count - 1 - j,
{
    let mut v: Vec<u32> = Vec::new();
    let mut b: u32 = count - 1;
    while b > 0
        invariant
            b < count,
            v@.len() == count - 1 - b,
            forall|j: int| 0 <= j < v@.len() ==> v@[j] == count - 1 - j,
        decreases b,
    {
        v.push(b);
        b = b - 1;
    }
    v
}

impl PieceSelector for SequentialPieceSelector {
    closed spec fn wf(&self) -> bool {
        &&& self.block_size > 0
        &&& self.count() == 0 ==> self.pieces_to_download@.len() == 0
        &&& self.inflight_pieces@.len() > 0 ==> forall|j: int|
            0 <= j < self.inflight_pieces@.last().blocks_to_request@.len() ==> 0
                <= #[trigger] self.inflight_pieces@.last().blocks_to_request@[j] < self.count()
    }

    closed spec fn pending(&self) -> Seq<BlockRequest> {
        self.top_requests() + queued_requests(
            self.pieces_to_download@,
            self.count(),
            self.block_size,
        )
    }

    fn next_request(&mut self) -> (r: Option<BlockRequest>) {
        let ghost before = *self;
        let block_size = self.block_size;
        if let Some(mut top) = self.inflight_pieces.pop() {
            let index = top.index;
            let ghost blocks = top.blocks_to_request@;
            let next = top.blocks_to_request.pop();
            self.inflight_pieces.push(top);
            if let Some(block) = next {
                proof {
                    assert(blocks == before.inflight_pieces@.last().blocks_to_request@);
                    assert(block == blocks[blocks.len() - 1]);
                    assert(0 <= blocks[blocks.len() - 1] < before.count());
                    lemma_block_offset_fits(self.piece_size, block_size, block as int);
                    assert(self.top_requests() =~= before.top_requests().drop_first());
                    assert(self.pending() =~= before.pending().drop_first());
                }
                return Some(
                    BlockRequest { start: BlockBegin { piece: index, offset: block * block_size }, length: block_size },
                );
            }
            assert(self.inflight_pieces@ =~= before.inflight_pieces@.drop_last().push(top));
            assert(self.top_requests() =~= Seq::<BlockRequest>::empty());
        }
        assert(before.top_requests() =~= Seq::<BlockRequest>::empty());
        let ghost mid = *self;
        match self.pieces_to_download.pop() {
            Some(piece_index) => {
                let count = block_count(self.piece_size, block_size);
                let ghost pieces = mid.pieces_to_download@;
                let ghost c = count as int;
                self.inflight_pieces.push(
                    InflightPiece { index: piece_index, blocks_to_request: later_blocks(count) },
                );
                proof {
                    let old_q = queued_requests(pieces, c as nat, block_size);
                    let new_q = queued_requests(pieces.drop_last(), c as nat, block_size);
                    let len = pieces.len() as int;
                    assert(len * c == (c - 1) + 1 + (len - 1) * c) by (nonlinear_arith);
                    assert(0 * c == 0) by (nonlinear_arith);
                    assert(self.top_requests() =~= Seq::new(
                        (c - 1) as nat,
                        |i: int| block_request(piece_index, i + 1, block_size),
                    ));
                    assert forall|k: int| 0 <= k < old_q.len() - 1 implies old_q[k + 1] == (
                    self.top_requests() + new_q)[k] by {
                        if k < c - 1 {
                            assert((k + 1) / c == 0 && (k + 1) % c == k + 1) by (nonlinear_arith)
                                requires
                                    0 <= k + 1 < c,
                            ;
                        } else {
                            let j = k - (c - 1);
                            lemma_div_plus_one(j, c);
                            lemma_mod_add_multiples_vanish(j, c);
                            assert(k + 1 == c + j);
                            assert(j < c * (len - 1)) by (nonlinear_arith)
                                requires
                                    j == k - (c - 1),
                                    k < len * c - 1,
                            ;
                            lemma_multiply_divide_lt(j, c, len - 1);
                            assert(0 <= j / c) by (nonlinear_arith)
                                requires
                                    0 <= j,
                                    0 < c,
                            ;
                            assert(new_q[j] == block_request(
                                pieces[len - 2 - j / c],
                                j % c,
                                block_size,
                            ));
                        }
                    }
                    assert(old_q[0] == block_request(piece_index, 0, block_size)) by {
                        assert(0int / c == 0 && 0int % c == 0) by (nonlinear_arith)
                            requires
                                0 < c,
                        ;
                        assert(0 < len * c) by (nonlinear_arith)
                            requires
                                0 < c,
                                0 < len,
                        ;
                    }
                    assert(self.pending() =~= mid.pending().drop_first());
                }
                Some(BlockRequest { start: BlockBegin { piece: piece_index, offset: 0 }, length: block_size })
            },
            None => {
                assert(self.pending() =~= mid.pending());
                None
            },
        }
    }
}

/// A selector for the pieces `0..piece_count`, piece 0 first, each cut into
/// blocks of `block_size` bytes.
pub fn new_sequential_selector(piece_count: u32, piece_size: u32, block_size: u32) -> (r:
    SequentialPieceSelector)
    requires
        block_size > 0,
    ensures
        r.wf(),
        r.pending() == queued_requests(
            descending(piece_count),
            blocks_per_piece(piece_size, block_size),
            block_size,
        ),
{
    let mut pieces_to_download: Vec<u32> = Vec::new();
    if block_count(piece_size, block_size) > 0 {
        let mut i: u32 = piece_count;
        while i > 0
            invariant
                i <= piece_count,
                pieces_to_download@ =~= descending(piece_count).subrange(0, (piece_count - i) as int),
            decreases i,
        {
            i = i - 1;
            pieces_to_download.push(i);
        }
    }
    let r = SequentialPieceSelector {
        piece_size,
        block_size,
        pieces_to_download,
        inflight_pieces: Vec::new(),
    };
    assert(r.top_requests() =~= Seq::<BlockRequest>::empty());
    assert(r.pending() =~= queued_requests(pieces_to_download@, r.count(), block_size));
    proof {
        if r.count() > 0 {
            assert(descending(piece_count).subrange(0, piece_count as int) =~= descending(
                piece_count,
            ));
        } else {
            assert(piece_count * 0 == 0) by (nonlinear_arith);
            assert(queued_requests(pieces_to_download@, 0, block_size) =~= queued_requests(
                descending(piece_count),
                0,
                block_size,
            ));
        }
    }
    r
}

/// A fresh selector hands out block `b` of piece `p` at place `p * c + b`,
/// `c` the block count of a piece: every block of every piece exactly once,
/// and nothing else.
pub proof fn lemma_fresh_requests_cover_every_block(
    piece_count: u32,
    piece_size: u32,
    block_size: u32,
)
    requires
        block_size > 0,
    ensures
        ({
            let c = blocks_per_piece(piece_size, block_size) as int;
            let q = queued_requests(descending(piece_count), c as nat, block_size);
            &&& q.len() == piece_count * c
            &&& forall|p: int, b: int|
                0 <= p < piece_count && 0 <= b < c ==> #[trigger] q[p * c + b] == block_request(
                    p as u32,
                    b,
                    block_size,
                )
            &&& forall|k: int, l: int| 0 <= k < l < q.len() ==> #[trigger] q[k] != #[trigger] q[l]
        }),
{
    let c = blocks_per_piece(piece_size, block_size) as int;
    let n = piece_count as int;
    let q = queued_requests(descending(piece_count), c as nat, block_size);
    assert forall|p: int, b: int| 0 <= p < n && 0 <= b < c implies #[trigger] q[p * c + b]
        == block_request(p as u32, b, block_size) by {
        lemma_fundamental_div_mod_converse(p * c + b, c, p, b);
        assert(p * c + b < n * c) by (nonlinear_arith)
            requires
                0 <= p < n,
                0 <= b < c,
        ;
    }
    assert forall|k: int, l: int| 0 <= k < l < q.len() implies #[trigger] q[k] != #[trigger] q[l] by {
        assert(0 <= k / c < n && 0 <= l / c < n && 0 <= k % c < c && 0 <= l % c < c) by {
            lemma_multiply_divide_lt(k, c, n);
            lemma_multiply_divide_lt(l, c, n);
            assert(0 <= k / c && 0 <= k % c < c && 0 <= l / c && 0 <= l % c < c) by (nonlinear_arith)
                requires
                    0 <= k,
                    0 <= l,
                    0 < c,
            ;
        }
        let pk = k / c;
        let pl = l / c;
        let bk = k % c;
        let bl = l % c;
        if q[k] == q[l] {
            assert(pk == pl);
            lemma_block_offset_fits(piece_size, block_size, bk);
            lemma_block_offset_fits(piece_size, block_size, bl);
            assert(bk * block_size == bl * block_size);
            assert(bk == bl) by (nonlinear_arith)
                requires
                    bk * block_size == bl * block_size,
                    block_size > 0,
            ;
            assert(k == pk * c + bk && l == pl * c + bl) by (nonlinear_arith)
                requires
                    pk == k / c,
                    bk == k % c,
                    pl == l / c,
                    bl == l % c,
                    c > 0,
            ;
        }
    }
}

} // verus!
