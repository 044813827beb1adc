//! The coordinator's decisions: what each message from a peer changes, which
//! blocks to request next, and whom to choke.

use crate::messages::{Message, MessageView};
use crate::peer::{Peer, PeerView};
use crate::piece_selection::{
    blocks_per_piece, descending, new_sequential_selector, queued_requests, PieceSelector,
    SequentialPieceSelector,
};
use crate::support::{BlockBegin, BlockRequest, InfoHash, PeerId};
use rand::Rng;
use vstd::prelude::*;

verus! {

/// The size of every requested block, in bytes.
pub const BLOCK_SIZE: u32 = 16384;

/// How many requests may be in flight to one peer.
pub const PIPELINE_DEPTH: u32 = 100;

/// How many interested peers a choke pass keeps unchoked.
pub const UNCHOKE_SLOTS: usize = 4;

/// Every this many choke passes, one also unchokes a peer at random.
pub const OPTIMISTIC_EVERY: u8 = 3;

/// The coordinator's state: the swarm, the live peers and the scheduler.
pub struct Downloader {
    pub info_hash: InfoHash,
    pub piece_count: u32,
    pub peer_id: PeerId,
    pub peers: Vec<Peer>,
    pub internal_connection_counter: u32,
    pub choke_algorithm_counter: u8,
    // Blocks of a peer that disconnects with requests in flight are not handed
    // out again.
    pub piece_selector: SequentialPieceSelector,
}

/// What the event loop does after a peer's message: send these messages to
/// that peer, or drop the connection (the peer is already forgotten).
pub enum Reaction {
    Send(Vec<Message>),
    Disconnect,
}

/// The effect of one step on the coordinator, as values: the peers, the
/// scheduler's pending requests, and the messages to send to the peer, or
/// `None` when the peer is dropped.
pub struct Step {
    pub peers: Seq<PeerView>,
    pub pending: Seq<BlockRequest>,
    pub sent: Option<Seq<MessageView>>,
}

pub open spec fn message_views(ms: Seq<Message>) -> Seq<MessageView> {
    ms.map_values(|m: Message| m@)
}

pub open spec fn peer_views(ps: Seq<Peer>) -> Seq<PeerView> {
    ps.map_values(|p: Peer| p@)
}

pub open spec fn reaction_view(r: Reaction) -> Option<Seq<MessageView>> {
    match r {
        Reaction::Send(v) => Some(message_views(v@)),
        Reaction::Disconnect => None,
    }
}

/// How many requests a refill sends: enough to fill the pipeline, if the
/// scheduler has that many.
pub open spec fn refill_count(inflight: u32, available: nat) -> nat {
    if inflight >= PIPELINE_DEPTH {
        0
    } else if PIPELINE_DEPTH - inflight <= available {
        (PIPELINE_DEPTH - inflight) as nat
    } else {
        available
    }
}

/// The messages of a refill: `Interested` first if we were not yet
/// interested and there is something to request, then one `Request` each.
pub open spec fn request_messages(am_interested: bool, requests: Seq<BlockRequest>) -> Seq<
    MessageView,
> {
    (if !am_interested && requests.len() > 0 {
        seq![MessageView::Interested]
    } else {
        Seq::empty()
    }) + requests.map_values(|r: BlockRequest| MessageView::Request(r))
}

/// Refilling the request pipeline of peer `i`: nothing while the peer chokes
/// us, else requests until the pipeline is full or the scheduler is empty.
pub open spec fn refill(peers: Seq<PeerView>, pending: Seq<BlockRequest>, i: int) -> Step {
    let p = peers[i];
    let k = if p.is_choking {
        0
    } else {
        refill_count(p.inflight_requests, pending.len())
    };
    Step {
        peers: peers.update(
            i,
            PeerView {
                am_interested: p.am_interested || k > 0,
                inflight_requests: (p.inflight_requests + k) as u32,
                ..p
            },
        ),
        pending: pending.skip(k as int),
        sent: Some(request_messages(p.am_interested, pending.take(k as int))),
    }
}

/// `n` rounded up to a multiple of eight.
pub open spec fn round_up_to_byte(n: int) -> int {
    if n % 8 == 0 {
        n
    } else {
        (n / 8) * 8 + 8
    }
}

/// The bits of a bitfield, most significant bit of each byte first.
pub open spec fn bitfield_bits(b: Seq<u8>) -> Seq<bool> {
    Seq::new(8 * b.len(), |i: int| (b[i / 8] >> ((7 - i % 8) as u8)) & 1u8 == 1u8)
}

/// A bitfield's bits with the padding of its last byte cut off: only when
/// there are more bits than pieces and exactly the next multiple of eight.
pub open spec fn normalized(bits: Seq<bool>, piece_count: nat) -> Seq<bool> {
    if bits.len() > piece_count && bits.len() == round_up_to_byte(piece_count as int) {
        bits.take(piece_count as int)
    } else {
        bits
    }
}

/// What a message from peer `i` does.
pub open spec fn dispatch(
    peers: Seq<PeerView>,
    pending: Seq<BlockRequest>,
    piece_count: u32,
    i: int,
    m: MessageView,
) -> Step {
    let p = peers[i];
    let quiet = Step { peers, pending, sent: Some(Seq::empty()) };
    let dropped = Step { peers: peers.remove(i), pending, sent: None };
    match m {
        MessageView::Choke => Step {
            peers: peers.update(i, PeerView { is_choking: true, ..p }),
            ..quiet
        },
        MessageView::Unchoke => refill(peers.update(i, PeerView { is_choking: false, ..p }), pending, i),
        MessageView::Interested => Step {
            peers: peers.update(i, PeerView { is_interested: true, ..p }),
            ..quiet
        },
        MessageView::NotInterested => Step {
            peers: peers.update(i, PeerView { is_interested: false, ..p }),
            ..quiet
        },
        MessageView::Have(index) => if index < piece_count {
            Step {
                peers: peers.update(i, PeerView { pieces: p.pieces.update(index as int, true), ..p }),
                ..quiet
            }
        } else {
            dropped
        },
        MessageView::Bitfield(b) => {
            let bits = normalized(bitfield_bits(b), piece_count as nat);
            if bits.len() == piece_count {
                Step { peers: peers.update(i, PeerView { pieces: bits, ..p }), ..quiet }
            } else {
                dropped
            }
        },
        MessageView::Piece(_, _) => refill(
            peers.update(
                i,
                PeerView {
                    inflight_requests: if p.inflight_requests > 0 {
                        (p.inflight_requests - 1) as u32
                    } else {
                        0
                    },
                    ..p
                },
            ),
            pending,
            i,
        ),
        MessageView::Close => dropped,
        _ => quiet,
    }
}

impl Downloader {
    pub open spec fn wf(&self) -> bool {
        &&& self.piece_selector.wf()
        &&& self.choke_algorithm_counter < 3
        &&& forall|i: int|
            0 <= i < self.peers@.len() ==> (#[trigger] self.peers@[i]).pieces@.len()
                == self.piece_count
    }

    /// The settings and counters that a step leaves alone.
    pub open spec fn same_settings(&self, other: &Downloader) -> bool {
        &&& self.info_hash == other.info_hash
        &&& self.piece_count == other.piece_count
        &&& self.peer_id == other.peer_id
        &&& self.internal_connection_counter == other.internal_connection_counter
        &&& self.choke_algorithm_counter == other.choke_algorithm_counter
    }

    /// Forgets peer `peer_index`.
    pub fn remove_peer(&mut self, peer_index: usize)
        requires
            old(self).wf(),
            peer_index < old(self).peers@.len(),
        ensures
            final(self).wf(),
            final(self).same_settings(old(self)),
            final(self).peers@ == old(self).peers@.remove(peer_index as int),
            final(self).piece_selector == old(self).piece_selector,
    {
        let _ = self.peers.remove(peer_index);
        assert(forall|i: int|
            0 <= i < self.peers@.len() ==> #[trigger] self.peers@[i] == old(self).peers@[if i
                < peer_index {
                i
            } else {
                i + 1
            }]);
    }

    /// Sends requests to peer `peer_index` until its pipeline is full or the
    /// scheduler has nothing left; nothing while the peer chokes us.
    pub fn update_requests(&mut self, peer_index: usize) -> (sent: Vec<Message>)
        requires
            old(self).wf(),
            peer_index < old(self).peers@.len(),
        ensures
            final(self).wf(),
            final(self).same_settings(old(self)),
            ({
                let s = refill(
                    peer_views(old(self).peers@),
                    old(self).piece_selector.pending(),
                    peer_index as int,
                );
                &&& peer_views(final(self).peers@) == s.peers
                &&& final(self).piece_selector.pending() == s.pending
                &&& s.sent == Some(message_views(sent@))
            }),
    {
        let ghost a = *self;
        let ghost p = self.peers@[peer_index as int]@;
        let ghost pending0 = self.piece_selector.pending();
        let mut sent: Vec<Message> = Vec::new();
        if self.peers[peer_index].is_choking {
            proof {
                assert(peer_views(a.peers@).update(peer_index as int, p) =~= peer_views(a.peers@));
                assert(pending0.skip(0) =~= pending0);
                assert(request_messages(p.am_interested, pending0.take(0)) =~= Seq::empty());
                assert(message_views(sent@) =~= Seq::empty());
            }
            return sent;
        }
        let mut done = false;
        while !done && self.peers[peer_index].inflight_requests < PIPELINE_DEPTH
            invariant
                a.wf(),
                self.wf(),
                self.same_settings(&a),
                peer_index < self.peers@.len() == a.peers@.len(),
                p == a.peers@[peer_index as int]@,
                pending0 == a.piece_selector.pending(),
                !p.is_choking,
                forall|j: int|
                    0 <= j < self.peers@.len() && j != peer_index ==> #[trigger] self.peers@[j]
                        == a.peers@[j],
                ({
                    let q = self.peers@[peer_index as int];
                    let k = q.inflight_requests - p.inflight_requests;
                    &&& p.inflight_requests <= q.inflight_requests
                    &&& q.inflight_requests <= PIPELINE_DEPTH || k == 0
                    &&& k <= pending0.len()
                    &&& q@ == PeerView {
                        am_interested: p.am_interested || k > 0,
                        inflight_requests: q.inflight_requests,
                        ..p
                    }
                    &&& self.piece_selector.pending() == pending0.skip(k)
                    &&& message_views(sent@) == request_messages(
                        p.am_interested,
                        pending0.take(k),
                    )
                    &&& done ==> k == pending0.len()
                }),
            decreases 2 * (PIPELINE_DEPTH - self.peers@[peer_index as int].inflight_requests) + (
            if done {
                0int
            } else {
                1int
            }),
        {
            let ghost k = self.peers@[peer_index as int].inflight_requests - p.inflight_requests;
            let ghost before_sent = message_views(sent@);
            match self.piece_selector.next_request() {
                Some(request) => {
                    if !self.peers[peer_index].am_interested {
                        self.peers[peer_index].am_interested = true;
                        sent.push(Message::Interested);
                    }
                    sent.push(Message::Request(request));
                    self.peers[peer_index].inflight_requests = self.peers[peer_index].inflight_requests
                        + 1;
                    proof {
                        assert(pending0.skip(k).drop_first() =~= pending0.skip(k + 1));
                        assert(pending0.take(k + 1) =~= pending0.take(k).push(request));
                        assert(request_messages(p.am_interested, pending0.take(k + 1)) =~= (
                        if !p.am_interested && k == 0 {
                            seq![MessageView::Interested]
                        } else {
                            request_messages(p.am_interested, pending0.take(k))
                        }).push(MessageView::Request(request)));
                        assert(message_views(sent@) =~= request_messages(
                            p.am_interested,
                            pending0.take(k + 1),
                        ));
                    }
                },
                None => {
                    done = true;
                },
            }
        }
        proof {
            let q = self.peers@[peer_index as int];
            let k = q.inflight_requests - p.inflight_requests;
            assert(k == refill_count(p.inflight_requests, pending0.len()));
            assert(peer_views(self.peers@) =~= peer_views(a.peers@).update(peer_index as int, q@));
        }
        sent
    }
}

/// The pieces that a bitfield announces, if its length fits the swarm once
/// its padding is cut off.
fn bitfield_to_pieces(bits: &Vec<u8>, piece_count: u32) -> (r: Option<Vec<bool>>)
    ensures
        r is Some <==> normalized(bitfield_bits(bits@), piece_count as nat).len() == piece_count,
        r matches Some(v) ==> v@ == normalized(bitfield_bits(bits@), piece_count as nat),
{
    let whole_bytes = piece_count / 8;
    let needed: u32 = if piece_count % 8 == 0 {
        whole_bytes
    } else {
        whole_bytes + 1
    };
    let ghost all = bitfield_bits(bits@);
    if bits.len() != needed as usize {
        return None;
    }
    let mut pieces: Vec<bool> = Vec::new();
    let mut i: u32 = 0;
    while i < piece_count
        invariant
            i <= piece_count,
            bits@.len() == needed,
            needed * 8 >= piece_count,
            all == bitfield_bits(bits@),
            pieces@ == all.take(i as int),
        decreases piece_count - i,
    {
        let byte = bits[(i / 8) as usize];
        let shift = (7 - i % 8) as u8;
        pieces.push((byte >> shift) & 1u8 == 1u8);
        proof {
            assert(all[i as int] == ((byte >> shift) & 1u8 == 1u8));
            assert(all.take(i + 1) =~= all.take(i as int).push(all[i as int]));
        }
        i = i + 1;
    }
    assert(pieces@ =~= normalized(all, piece_count as nat));
    Some(pieces)
}

/// A coordinator for a swarm of `piece_count` pieces of `piece_size` bytes,
/// with no peer yet; the scheduler will hand out every block of every piece.
pub fn new(info_hash: InfoHash, piece_count: u32, piece_size: u32, peer_id: PeerId) -> (r:
    Downloader)
    ensures
        r.wf(),
        r.info_hash == info_hash,
        r.piece_count == piece_count,
        r.peer_id == peer_id,
        r.peers@.len() == 0,
        r.internal_connection_counter == 0,
        r.choke_algorithm_counter == 0,
        r.piece_selector.pending() == queued_requests(
            descending(piece_count),
            blocks_per_piece(piece_size, BLOCK_SIZE),
            BLOCK_SIZE,
        ),
{
    Downloader {
        info_hash,
        piece_count,
        peer_id,
        peers: Vec::new(),
        internal_connection_counter: 0,
        choke_algorithm_counter: 0,
        piece_selector: new_sequential_selector(piece_count, piece_size, BLOCK_SIZE),
    }
}

impl Downloader {
    /// A fresh connection id, or `None` once every id has been used.
    pub fn next_connection_id(&mut self) -> (r: Option<u32>)
        requires
            old(self).wf(),
        ensures
            final(self).wf(),
            final(self).peers == old(self).peers,
            final(self).piece_selector == old(self).piece_selector,
            final(self).info_hash == old(self).info_hash,
            final(self).piece_count == old(self).piece_count,
            final(self).peer_id == old(self).peer_id,
            final(self).choke_algorithm_counter == old(self).choke_algorithm_counter,
            old(self).internal_connection_counter < u32::MAX ==> {
                &&& r == Some(old(self).internal_connection_counter)
                &&& final(self).internal_connection_counter == old(self).internal_connection_counter
                    + 1
            },
            old(self).internal_connection_counter == u32::MAX ==> {
                &&& r is None
                &&& final(self).internal_connection_counter == u32::MAX
            },
    {
        let id = self.internal_connection_counter;
        if id == u32::MAX {
            return None;
        }
        self.internal_connection_counter = id + 1;
        Some(id)
    }

    /// Starts tracking a peer whose handshake succeeded.
    pub fn register_peer(&mut self, peer_id: PeerId, internal_connection_id: u32)
        requires
            old(self).wf(),
        ensures
            final(self).wf(),
            final(self).same_settings(old(self)),
            final(self).piece_selector == old(self).piece_selector,
            final(self).peers@.len() == old(self).peers@.len() + 1,
            forall|j: int|
                0 <= j < old(self).peers@.len() ==> #[trigger] final(self).peers@[j] == old(
                    self,
                ).peers@[j],
            final(self).peers@.last()@ == (PeerView {
                peer_id,
                internal_connection_id,
                upload_rate_to_us: 0,
                download_rate_from_us: 0,
                is_interested: false,
                is_choking: true,
                am_interested: false,
                am_choking: true,
                pieces: Seq::new(old(self).piece_count as nat, |i: int| false),
                inflight_requests: 0,
            }),
    {
        let peer = Peer::new(peer_id, internal_connection_id, self.piece_count);
        self.peers.push(peer);
    }

    /// The position of the peer with this connection id.
    pub fn peer_index_for_connection_id(&self, id: u32) -> (r: Option<usize>)
        ensures
            match r {
                Some(i) => {
                    &&& i < self.peers@.len()
                    &&& self.peers@[i as int].internal_connection_id == id
                    &&& forall|j: int|
                        0 <= j < i ==> #[trigger] self.peers@[j].internal_connection_id != id
                },
                None => forall|j: int|
                    0 <= j < self.peers@.len() ==> #[trigger] self.peers@[j].internal_connection_id
                        != id,
            },
    {
        let mut index: usize = 0;
        while index < self.peers.len()
            invariant
                index <= self.peers@.len(),
                forall|j: int| 0 <= j < index ==> #[trigger] self.peers@[j].internal_connection_id != id,
            decreases self.peers@.len() - index,
        {
            if self.peers[index].internal_connection_id == id {
                return Some(index);
            }
            index = index + 1;
        }
        None
    }

    /// Applies one message from peer `peer_index`.
    pub fn process_peer_message_for_index(&mut self, peer_index: usize, message: Message) -> (r:
        Reaction)
        requires
            old(self).wf(),
            peer_index < old(self).peers@.len(),
        ensures
            final(self).wf(),
            final(self).same_settings(old(self)),
            ({
                let s = dispatch(
                    peer_views(old(self).peers@),
                    old(self).piece_selector.pending(),
                    old(self).piece_count,
                    peer_index as int,
                    message@,
                );
                &&& peer_views(final(self).peers@) == s.peers
                &&& final(self).piece_selector.pending() == s.pending
                &&& reaction_view(r) == s.sent
            }),
    {
        let ghost a = *self;
        let ghost views = peer_views(a.peers@);
        let ghost i = peer_index as int;
        let ghost m = message@;
        let no_messages: Vec<Message> = Vec::new();
        assert(message_views(no_messages@) =~= Seq::empty());
        match message {
            Message::Choke => {
                self.peers[peer_index].is_choking = true;
                assert(peer_views(self.peers@) =~= views.update(i, self.peers@[i]@));
                Reaction::Send(no_messages)
            },
            Message::Unchoke => {
                self.peers[peer_index].is_choking = false;
                assert(peer_views(self.peers@) =~= views.update(i, self.peers@[i]@));
                Reaction::Send(self.update_requests(peer_index))
            },
            Message::Interested => {
                self.peers[peer_index].is_interested = true;
                assert(peer_views(self.peers@) =~= views.update(i, self.peers@[i]@));
                Reaction::Send(no_messages)
            },
            Message::NotInterested => {
                self.peers[peer_index].is_interested = false;
                assert(peer_views(self.peers@) =~= views.update(i, self.peers@[i]@));
                Reaction::Send(no_messages)
            },
            Message::Have(piece) => {
                if piece < self.piece_count {
                    assert(self.peers@[i].pieces@.len() == self.piece_count);
                    self.peers[peer_index].pieces[piece as usize] = true;
                    assert(peer_views(self.peers@) =~= views.update(i, self.peers@[i]@));
                    Reaction::Send(no_messages)
                } else {
                    self.remove_peer(peer_index);
                    assert(peer_views(self.peers@) =~= views.remove(i));
                    Reaction::Disconnect
                }
            },
            Message::Bitfield(bits) => {
                match bitfield_to_pieces(&bits, self.piece_count) {
                    Some(pieces) => {
                        self.peers[peer_index].pieces = pieces;
                        assert(peer_views(self.peers@) =~= views.update(i, self.peers@[i]@));
                        Reaction::Send(no_messages)
                    },
                    None => {
                        self.remove_peer(peer_index);
                        assert(peer_views(self.peers@) =~= views.remove(i));
                        Reaction::Disconnect
                    },
                }
            },
            Message::Piece(_, _) => {
                if self.peers[peer_index].inflight_requests > 0 {
                    self.peers[peer_index].inflight_requests = self.peers[peer_index].inflight_requests
                        - 1;
                }
                assert(peer_views(self.peers@) =~= views.update(i, self.peers@[i]@));
                Reaction::Send(self.update_requests(peer_index))
            },
            Message::Close => {
                self.remove_peer(peer_index);
                assert(peer_views(self.peers@) =~= views.remove(i));
                Reaction::Disconnect
            },
            _ => Reaction::Send(no_messages),
        }
    }
}

/// `a` comes before `b` in a stable sort by upload rate: a lower rate, or the
/// same rate and an earlier place before the sort.
pub open spec fn rate_order(a: PeerView, a_place: int, b: PeerView, b_place: int) -> bool {
    a.upload_rate_to_us < b.upload_rate_to_us || (a.upload_rate_to_us == b.upload_rate_to_us
        && a_place < b_place)
}

/// `place[k]` is where `after[k]` stood in `before`, and `after` is in the
/// order of a stable sort by upload rate.
pub open spec fn stable_sort_places(
    before: Seq<PeerView>,
    after: Seq<PeerView>,
    place: Seq<int>,
) -> bool {
    &&& place.len() == before.len() == after.len()
    &&& forall|k: int| 0 <= k < after.len() ==> 0 <= #[trigger] place[k] < before.len()
    &&& forall|k: int, l: int| 0 <= k < l < after.len() ==> #[trigger] place[k] != #[trigger] place[l]
    &&& forall|k: int| 0 <= k < after.len() ==> #[trigger] after[k] == before[place[k]]
    &&& forall|k: int, l: int|
        0 <= k < l < after.len() ==> rate_order(
            #[trigger] after[k],
            place[k],
            #[trigger] after[l],
            place[l],
        )
}

/// `after` is `before` sorted by ascending upload rate, peers with equal rates
/// keeping their order.
pub open spec fn sorted_stably(before: Seq<PeerView>, after: Seq<PeerView>) -> bool {
    exists|place: Seq<int>| #[trigger] stable_sort_places(before, after, place)
}

/// Sorts the peers by ascending upload rate, keeping the order of peers with
/// equal rates.
fn sort_peers_by_upload_rate(peers: &mut Vec<Peer>) -> (place: Ghost<Seq<int>>)
    ensures
        stable_sort_places(peer_views(old(peers)@), peer_views(final(peers)@), place@),
        forall|k: int|
            0 <= k < final(peers)@.len() ==> #[trigger] final(peers)@[k] == old(peers)@[place@[k]],
{
    let ghost orig = old(peers)@;
    let ghost views0 = peer_views(orig);
    let n = peers.len();
    let ghost mut place: Seq<int> = Seq::new(n as nat, |k: int| k);
    let mut i: usize = 1;
    while i < n
        invariant
            1 <= i || n == 0,
            peers@.len() == n == orig.len(),
            place.len() == n,
            forall|k: int| 0 <= k < n ==> 0 <= #[trigger] place[k] < n,
            forall|k: int, l: int| 0 <= k < l < n ==> #[trigger] place[k] != #[trigger] place[l],
            forall|k: int| 0 <= k < n ==> #[trigger] peers@[k] == orig[place[k]],
            forall|k: int| i <= k < n ==> #[trigger] place[k] == k,
            forall|k: int| 0 <= k < i && k < n ==> #[trigger] place[k] < i,
            forall|k: int, l: int|
                0 <= k < l < i && l < n ==> rate_order(
                    #[trigger] peers@[k]@,
                    place[k],
                    #[trigger] peers@[l]@,
                    place[l],
                ),
        decreases n - i,
    {
        let ghost before = peers@;
        let x = peers.remove(i);
        let rate = x.upload_rate_to_us;
        let mut pos: usize = 0;
        while pos < i && peers[pos].upload_rate_to_us <= rate
            invariant
                pos <= i < n,
                before.len() == n,
                peers@ == before.remove(i as int),
                forall|j: int| 0 <= j < pos ==> (#[trigger] peers@[j]).upload_rate_to_us <= rate,
            decreases i - pos,
        {
            pos = pos + 1;
        }
        peers.insert(pos, x);
        proof {
            let old_place = place;
            place = old_place.remove(i as int).insert(pos as int, i as int);
            assert forall|k: int| 0 <= k < n implies #[trigger] peers@[k] == orig[place[k]] by {
                if k < pos {
                } else if k == pos {
                } else if k <= i {
                    assert(peers@[k] == before[k - 1]);
                } else {
                }
            }
            assert forall|k: int, l: int|
                0 <= k < l < i + 1 && l < n implies rate_order(
                #[trigger] peers@[k]@,
                place[k],
                #[trigger] peers@[l]@,
                place[l],
            ) by {
                if l < pos {
                } else if l == pos {
                    assert(peers@[k] == before[k]);
                    assert(peers@[k].upload_rate_to_us <= rate);
                } else if k == pos {
                    assert(peers@[l] == before[l - 1]);
                    if pos < i {
                        assert(before[pos as int].upload_rate_to_us > rate);
                        if pos < l - 1 {
                            assert(rate_order(before[pos as int]@, old_place[pos as int], before[l - 1]@, old_place[l - 1]));
                        }
                    }
                } else if k < pos {
                    assert(peers@[k] == before[k]);
                    assert(peers@[l] == before[l - 1]);
                } else {
                    assert(peers@[k] == before[k - 1]);
                    assert(peers@[l] == before[l - 1]);
                }
            }
            assert forall|k: int, l: int| 0 <= k < l < n implies #[trigger] place[k] != #[trigger] place[l] by {
                if k < pos && l > pos && l <= i {
                    assert(place[l] == old_place[l - 1]);
                }
            }
        }
        i = i + 1;
    }
    proof {
        let after = peer_views(peers@);
        assert forall|k: int| 0 <= k < after.len() implies #[trigger] after[k] == views0[place[k]] by {
        }
        assert forall|k: int, l: int|
            0 <= k < l < after.len() implies rate_order(
            #[trigger] after[k],
            place[k],
            #[trigger] after[l],
            place[l],
        ) by {
            assert(after[k] == peers@[k]@);
            assert(after[l] == peers@[l]@);
        }
    }
    Ghost(place)
}

/// How many of the first `i` peers are interested in us.
pub open spec fn interested_before(peers: Seq<PeerView>, i: int) -> nat
    decreases i,
{
    if i <= 0 {
        0
    } else {
        interested_before(peers, i - 1) + if peers[i - 1].is_interested {
            1nat
        } else {
            0nat
        }
    }
}

/// Peer `i` comes before the unchoke slots are all taken by interested peers.
pub open spec fn in_unchoke_slots(peers: Seq<PeerView>, i: int) -> bool {
    interested_before(peers, i) < UNCHOKE_SLOTS
}

/// The place of the last interested peer that took an unchoke slot among the
/// first `n` peers, or 0 if none did.
pub open spec fn last_slot(peers: Seq<PeerView>, n: int) -> int
    decreases n,
{
    if n <= 0 {
        0
    } else if peers[n - 1].is_interested && in_unchoke_slots(peers, n - 1) {
        n - 1
    } else {
        last_slot(peers, n - 1)
    }
}

/// A choke pass unchokes peer `i`: an interested peer that we choke, either in
/// an unchoke slot or the optimistic pick.
pub open spec fn unchokes(peers: Seq<PeerView>, pick: Option<usize>, i: int) -> bool {
    &&& peers[i].is_interested
    &&& peers[i].am_choking
    &&& in_unchoke_slots(peers, i) || pick == Some(i as usize)
}

/// A choke pass chokes peer `i`: a peer that we serve, past the unchoke
/// slots, and not the interested optimistic pick.
pub open spec fn chokes(peers: Seq<PeerView>, pick: Option<usize>, i: int) -> bool {
    &&& !peers[i].am_choking
    &&& !in_unchoke_slots(peers, i)
    &&& !(pick == Some(i as usize) && peers[i].is_interested)
}

/// The optimistic pick that a pass may make: on an optimistic pass, any peer
/// past the last unchoke slot, if there is one; else none.
pub open spec fn valid_pick(peers: Seq<PeerView>, optimistic: bool, pick: Option<usize>) -> bool {
    let last = last_slot(peers, peers.len() as int);
    if optimistic && last + 1 < peers.len() {
        pick matches Some(r) && last < r < peers.len()
    } else {
        pick is None
    }
}

pub open spec fn strictly_increasing(s: Seq<usize>) -> bool {
    forall|k: int, l: int| 0 <= k < l < s.len() ==> s[k] < s[l]
}

/// `to_unchoke` and `to_choke` list, in ascending order, the peers that a pass
/// unchokes and chokes.
pub open spec fn decides(
    peers: Seq<PeerView>,
    pick: Option<usize>,
    to_unchoke: Seq<usize>,
    to_choke: Seq<usize>,
) -> bool {
    &&& strictly_increasing(to_unchoke)
    &&& strictly_increasing(to_choke)
    &&& forall|k: int| 0 <= k < to_unchoke.len() ==> #[trigger] to_unchoke[k] < peers.len()
    &&& forall|k: int| 0 <= k < to_choke.len() ==> #[trigger] to_choke[k] < peers.len()
    &&& forall|i: int|
        0 <= i < peers.len() ==> (to_unchoke.contains(i as usize) <==> #[trigger] unchokes(
            peers,
            pick,
            i,
        ))
    &&& forall|i: int|
        0 <= i < peers.len() ==> (to_choke.contains(i as usize) <==> #[trigger] chokes(
            peers,
            pick,
            i,
        ))
}

/// The peers after a pass: those unchoked are served, those choked are not.
pub open spec fn applied(peers: Seq<PeerView>, pick: Option<usize>) -> Seq<PeerView> {
    Seq::new(
        peers.len(),
        |i: int|
            if unchokes(peers, pick, i) {
                PeerView { am_choking: false, ..peers[i] }
            } else if chokes(peers, pick, i) {
                PeerView { am_choking: true, ..peers[i] }
            } else {
                peers[i]
            },
    )
}

/// The messages of a pass, by connection id: `Unchoke` to each unchoked peer,
/// then `Choke` to each choked one.
pub open spec fn choke_messages(
    peers: Seq<PeerView>,
    to_unchoke: Seq<usize>,
    to_choke: Seq<usize>,
) -> Seq<(u32, MessageView)> {
    to_unchoke.map_values(
        |i: usize| (peers[i as int].internal_connection_id, MessageView::Unchoke),
    ) + to_choke.map_values(|i: usize| (peers[i as int].internal_connection_id, MessageView::Choke))
}

pub open spec fn addressed_views(s: Seq<(u32, Message)>) -> Seq<(u32, MessageView)> {
    s.map_values(|p: (u32, Message)| (p.0, p.1@))
}

/// One choke pass, from the peers `before` to the peers `after` and the
/// messages `sent`: a stable sort by upload rate, a pick, and the decisions.
/// `counter` counts the passes since the last optimistic one.
pub open spec fn choke_pass(
    before: Seq<PeerView>,
    counter: u8,
    sorted: Seq<PeerView>,
    pick: Option<usize>,
    to_unchoke: Seq<usize>,
    to_choke: Seq<usize>,
    after: Seq<PeerView>,
    sent: Seq<(u32, MessageView)>,
) -> bool {
    &&& sorted_stably(before, sorted)
    &&& valid_pick(sorted, counter + 1 == OPTIMISTIC_EVERY, pick)
    &&& decides(sorted, pick, to_unchoke, to_choke)
    &&& after == applied(sorted, pick)
    &&& sent == choke_messages(sorted, to_unchoke, to_choke)
}

/// Every interested peer in an unchoke slot stands at or before the last slot.
proof fn lemma_last_slot_bound(peers: Seq<PeerView>, n: int)
    requires
        0 <= n <= peers.len(),
    ensures
        0 <= last_slot(peers, n),
        n > 0 ==> last_slot(peers, n) < n,
        forall|i: int|
            0 <= i < n && peers[i].is_interested && #[trigger] in_unchoke_slots(peers, i) ==> i
                <= last_slot(peers, n),
    decreases n,
{
    if n > 0 {
        lemma_last_slot_bound(peers, n - 1);
    }
}

/// The places of the peers that a choke pass unchokes and chokes, each list in
/// ascending order.
pub struct ChokeDecision {
    pub to_unchoke: Vec<usize>,
    pub to_choke: Vec<usize>,
}

/// The place of the last interested peer that takes an unchoke slot.
fn last_unchoke_slot(peers: &Vec<Peer>) -> (r: usize)
    ensures
        r == last_slot(peer_views(peers@), peers@.len() as int),
{
    let ghost views = peer_views(peers@);
    let mut last: usize = 0;
    let mut interested: usize = 0;
    let mut i: usize = 0;
    while i < peers.len()
        invariant
            i <= peers@.len(),
            views == peer_views(peers@),
            interested == interested_before(views, i as int),
            interested <= i,
            last == last_slot(views, i as int),
        decreases peers@.len() - i,
    {
        if peers[i].is_interested {
            if interested < UNCHOKE_SLOTS {
                last = i;
            }
            interested = interested + 1;
        }
        i = i + 1;
    }
    last
}

/// The decisions of a choke pass over peers already sorted by upload rate:
/// while fewer than four interested peers have been seen, interested peers
/// that we choke are unchoked; past that, peers that we serve are choked. The
/// optimistic pick, if interested, is unchoked if we choke it and never choked.
pub fn choke_decision(peers: &Vec<Peer>, pick: Option<usize>) -> (d: ChokeDecision)
    requires
        pick matches Some(r) ==> last_slot(peer_views(peers@), peers@.len() as int) < r
            < peers@.len(),
    ensures
        decides(peer_views(peers@), pick, d.to_unchoke@, d.to_choke@),
{
    let ghost views = peer_views(peers@);
    let ghost n = peers@.len() as int;
    proof {
        lemma_last_slot_bound(views, n);
    }
    let mut to_unchoke: Vec<usize> = Vec::new();
    let mut to_choke: Vec<usize> = Vec::new();
    let mut interested: usize = 0;
    let mut i: usize = 0;
    while i < peers.len()
        invariant
            i <= n == peers@.len(),
            views == peer_views(peers@),
            interested == interested_before(views, i as int),
            interested <= i,
            pick matches Some(r) ==> last_slot(views, n) < r < n,
            forall|j: int|
                0 <= j < n && views[j].is_interested && #[trigger] in_unchoke_slots(views, j) ==> j
                    <= last_slot(views, n),
            strictly_increasing(to_unchoke@),
            strictly_increasing(to_choke@),
            forall|k: int| 0 <= k < to_unchoke@.len() ==> #[trigger] to_unchoke@[k] < i,
            forall|k: int| 0 <= k < to_choke@.len() ==> #[trigger] to_choke@[k] < i,
            forall|j: int|
                0 <= j < i ==> (to_unchoke@.contains(j as usize) <==> #[trigger] unchokes(
                    views,
                    pick,
                    j,
                )),
            forall|j: int|
                0 <= j < i ==> (to_choke@.contains(j as usize) <==> #[trigger] chokes(
                    views,
                    pick,
                    j,
                )),
        decreases n - i,
    {
        let ghost u0 = to_unchoke@;
        let ghost c0 = to_choke@;
        let is_interested = peers[i].is_interested;
        let am_choking = peers[i].am_choking;
        let is_pick = match pick {
            Some(r) => r == i,
            None => false,
        };
        if interested < UNCHOKE_SLOTS {
            if is_interested && am_choking {
                to_unchoke.push(i);
            }
        } else if !am_choking && !(is_pick && is_interested) {
            to_choke.push(i);
        } else if is_pick && is_interested && am_choking {
            to_unchoke.push(i);
        }
        if is_interested {
            interested = interested + 1;
        }
        proof {
            assert(views[i as int] == peers@[i as int]@);
            assert forall|j: int| 0 <= j < i + 1 implies (to_unchoke@.contains(j as usize)
                <==> #[trigger] unchokes(views, pick, j)) by {
                if j < i {
                    if u0.contains(j as usize) {
                        let k = choose|k: int| 0 <= k < u0.len() && u0[k] == j as usize;
                        assert(to_unchoke@[k] == j as usize);
                    }
                    if to_unchoke@.contains(j as usize) {
                        let k = choose|k: int|
                            0 <= k < to_unchoke@.len() && to_unchoke@[k] == j as usize;
                        if k < u0.len() {
                            assert(u0[k] == j as usize);
                        }
                    }
                } else {
                    if unchokes(views, pick, j) {
                        assert(to_unchoke@[to_unchoke@.len() - 1] == j as usize);
                    }
                    if to_unchoke@.contains(j as usize) {
                        let k = choose|k: int|
                            0 <= k < to_unchoke@.len() && to_unchoke@[k] == j as usize;
                        if k < u0.len() {
                            assert(u0[k] < i);
                        }
                    }
                }
            }
            assert forall|j: int| 0 <= j < i + 1 implies (to_choke@.contains(j as usize)
                <==> #[trigger] chokes(views, pick, j)) by {
                if j < i {
                    if c0.contains(j as usize) {
                        let k = choose|k: int| 0 <= k < c0.len() && c0[k] == j as usize;
                        assert(to_choke@[k] == j as usize);
                    }
                    if to_choke@.contains(j as usize) {
                        let k = choose|k: int| 0 <= k < to_choke@.len() && to_choke@[k] == j as usize;
                        if k < c0.len() {
                            assert(c0[k] == j as usize);
                        }
                    }
                } else {
                    if chokes(views, pick, j) {
                        assert(to_choke@[to_choke@.len() - 1] == j as usize);
                    }
                    if to_choke@.contains(j as usize) {
                        let k = choose|k: int| 0 <= k < to_choke@.len() && to_choke@[k] == j as usize;
                        if k < c0.len() {
                            assert(c0[k] < i);
                        }
                    }
                }
            }
        }
        i = i + 1;
    }
    ChokeDecision { to_unchoke, to_choke }
}

/// Relies on rand's `thread_rng().gen_range(low..high)`: a value of the
/// range, which must not be empty.
#[verifier::external_body]
fn random_index(low: usize, high: usize) -> (r: usize)
    requires
        low < high,
    ensures
        low <= r < high,
{
    rand::thread_rng().gen_range(low..high)
}

impl Downloader {
    /// One choke pass: sorts the peers by ascending upload rate, decides whom
    /// to unchoke and choke (every third pass with one optimistic pick at
    /// random), records that, and returns the messages to send, by connection id.
    pub fn run_choke_algorithm(&mut self) -> (sent: Vec<(u32, Message)>)
        requires
            old(self).wf(),
        ensures
            final(self).wf(),
            final(self).info_hash == old(self).info_hash,
            final(self).piece_count == old(self).piece_count,
            final(self).peer_id == old(self).peer_id,
            final(self).internal_connection_counter == old(self).internal_connection_counter,
            final(self).piece_selector == old(self).piece_selector,
            final(self).choke_algorithm_counter == (old(self).choke_algorithm_counter + 1)
                % OPTIMISTIC_EVERY as int,
            exists|sorted: Seq<PeerView>, pick: Option<usize>, u: Seq<usize>, c: Seq<usize>|
                #[trigger] choke_pass(
                    peer_views(old(self).peers@),
                    old(self).choke_algorithm_counter,
                    sorted,
                    pick,
                    u,
                    c,
                    peer_views(final(self).peers@),
                    addressed_views(sent@),
                ),
    {
        let ghost before = peer_views(self.peers@);
        let ghost raw_before = self.peers@;
        let ghost counter = self.choke_algorithm_counter;
        self.choke_algorithm_counter = self.choke_algorithm_counter + 1;
        let optimistic = if self.choke_algorithm_counter == OPTIMISTIC_EVERY {
            self.choke_algorithm_counter = 0;
            true
        } else {
            false
        };
        let place = sort_peers_by_upload_rate(&mut self.peers);
        let ghost sorted = peer_views(self.peers@);
        assert(sorted_stably(before, sorted));
        assert forall|j: int| 0 <= j < self.peers@.len() implies (#[trigger] self.peers@[j]).pieces@.len()
            == self.piece_count by {
            assert(self.peers@[j] == raw_before[place@[j]]);
        }
        let n = self.peers.len();
        let last = last_unchoke_slot(&self.peers);
        proof {
            lemma_last_slot_bound(sorted, n as int);
        }
        let pick = if optimistic && last + 1 < n {
            Some(random_index(last + 1, n))
        } else {
            None
        };
        let d = choke_decision(&self.peers, pick);
        let ghost u = d.to_unchoke@;
        let ghost c = d.to_choke@;
        let ghost sel = self.piece_selector;
        let ghost settings = *self;
        let mut sent: Vec<(u32, Message)> = Vec::new();
        let mut k: usize = 0;
        while k < d.to_unchoke.len()
            invariant
                k <= u.len() == d.to_unchoke@.len(),
                self.peers@.len() == n == sorted.len(),
                u == d.to_unchoke@,
                decides(sorted, pick, u, c),
                self.piece_selector == sel,
                self.same_settings(&settings),
                forall|j: int| 0 <= j < n ==> (#[trigger] self.peers@[j]).pieces@.len() == self.piece_count,
                forall|j: int|
                    0 <= j < n ==> (#[trigger] self.peers@[j])@ == (if u.take(k as int).contains(
                        j as usize,
                    ) {
                        PeerView { am_choking: false, ..sorted[j] }
                    } else {
                        sorted[j]
                    }),
                addressed_views(sent@) == u.take(k as int).map_values(
                    |i: usize| (sorted[i as int].internal_connection_id, MessageView::Unchoke),
                ),
            decreases u.len() - k,
        {
            let i = d.to_unchoke[k];
            let ghost sent0 = addressed_views(sent@);
            self.peers[i].am_choking = false;
            let id = self.peers[i].internal_connection_id;
            sent.push((id, Message::Unchoke));
            proof {
                assert(id == sorted[i as int].internal_connection_id);
                assert(addressed_views(sent@) =~= sent0.push((id, MessageView::Unchoke)));
                assert(u.take(k + 1) =~= u.take(k as int).push(i));
                assert forall|j: int| 0 <= j < n implies (#[trigger] self.peers@[j])@ == (if u.take(
                    k + 1,
                ).contains(j as usize) {
                    PeerView { am_choking: false, ..sorted[j] }
                } else {
                    sorted[j]
                }) by {
                    if j != i {
                        assert(u.take(k + 1).contains(j as usize) == u.take(k as int).contains(
                            j as usize,
                        ));
                    } else {
                        assert(u.take(k + 1)[k as int] == i);
                    }
                }
                assert(addressed_views(sent@) =~= u.take(k + 1).map_values(
                    |i: usize| (sorted[i as int].internal_connection_id, MessageView::Unchoke),
                ));
            }
            k = k + 1;
        }
        let ghost unchoked = self.peers@;
        let ghost sent_u = addressed_views(sent@);
        assert(u.take(u.len() as int) =~= u);
        let mut k: usize = 0;
        while k < d.to_choke.len()
            invariant
                k <= c.len() == d.to_choke@.len(),
                self.peers@.len() == n == sorted.len() == unchoked.len(),
                c == d.to_choke@,
                decides(sorted, pick, u, c),
                self.piece_selector == sel,
                self.same_settings(&settings),
                sent_u == u.map_values(
                    |i: usize| (sorted[i as int].internal_connection_id, MessageView::Unchoke),
                ),
                forall|j: int|
                    0 <= j < n ==> (#[trigger] unchoked[j])@ == (if u.contains(j as usize) {
                        PeerView { am_choking: false, ..sorted[j] }
                    } else {
                        sorted[j]
                    }),
                forall|j: int| 0 <= j < n ==> (#[trigger] self.peers@[j]).pieces@.len() == self.piece_count,
                forall|j: int|
                    0 <= j < n ==> (#[trigger] self.peers@[j])@ == (if c.take(k as int).contains(
                        j as usize,
                    ) {
                        PeerView { am_choking: true, ..unchoked[j]@ }
                    } else {
                        unchoked[j]@
                    }),
                addressed_views(sent@) == sent_u + c.take(k as int).map_values(
                    |i: usize| (sorted[i as int].internal_connection_id, MessageView::Choke),
                ),
            decreases c.len() - k,
        {
            let i = d.to_choke[k];
            let ghost sent0 = addressed_views(sent@);
            self.peers[i].am_choking = true;
            let id = self.peers[i].internal_connection_id;
            sent.push((id, Message::Choke));
            proof {
                assert(id == sorted[i as int].internal_connection_id);
                assert(addressed_views(sent@) =~= sent0.push((id, MessageView::Choke)));
                assert(u.contains(i) ==> false) by {
                    if u.contains(i) {
                        assert(unchokes(sorted, pick, i as int));
                        assert(chokes(sorted, pick, i as int));
                    }
                }
                assert(c.take(k + 1) =~= c.take(k as int).push(i));
                assert forall|j: int| 0 <= j < n implies (#[trigger] self.peers@[j])@ == (if c.take(
                    k + 1,
                ).contains(j as usize) {
                    PeerView { am_choking: true, ..unchoked[j]@ }
                } else {
                    unchoked[j]@
                }) by {
                    if j != i {
                        assert(c.take(k + 1).contains(j as usize) == c.take(k as int).contains(
                            j as usize,
                        ));
                    } else {
                        assert(c.take(k + 1)[k as int] == i);
                    }
                }
                assert(addressed_views(sent@) =~= sent_u + c.take(k + 1).map_values(
                    |i: usize| (sorted[i as int].internal_connection_id, MessageView::Choke),
                ));
            }
            k = k + 1;
        }
        proof {
            assert(c.take(c.len() as int) =~= c);
            let after = peer_views(self.peers@);
            assert forall|j: int| 0 <= j < n implies #[trigger] after[j] == applied(sorted, pick)[j] by {
                assert(after[j] == self.peers@[j]@);
                if unchokes(sorted, pick, j) {
                    assert(!chokes(sorted, pick, j));
                } else if chokes(sorted, pick, j) {
                }
            }
            assert(after =~= applied(sorted, pick));
            assert(addressed_views(sent@) =~= choke_messages(sorted, u, c));
            assert(choke_pass(
                before,
                counter,
                sorted,
                pick,
                u,
                c,
                after,
                addressed_views(sent@),
            ));
        }
        sent
    }
}

/// A bitfield is accepted exactly when its bits, a multiple of eight, are the
/// piece count rounded up to a multiple of eight; the peer then has the pieces
/// of its first `piece_count` bits, and the padding is dropped.
pub proof fn lemma_bitfield_normalization(
    peers: Seq<PeerView>,
    pending: Seq<BlockRequest>,
    piece_count: u32,
    i: int,
    b: Seq<u8>,
)
    requires
        0 <= i < peers.len(),
    ensures
        ({
            let s = dispatch(peers, pending, piece_count, i, MessageView::Bitfield(b));
            &&& s.sent is Some <==> 8 * b.len() == round_up_to_byte(piece_count as int)
            &&& s.sent is Some ==> s.peers[i].pieces == bitfield_bits(b).take(piece_count as int)
            &&& s.sent is None ==> s.peers == peers.remove(i)
        }),
{
    let bits = bitfield_bits(b);
    if bits.len() == piece_count {
        assert(bits.take(piece_count as int) =~= bits);
    }
}

/// A `Have` is accepted exactly for a piece index below the piece count; any
/// other index drops the peer.
pub proof fn lemma_have_in_range(
    peers: Seq<PeerView>,
    pending: Seq<BlockRequest>,
    piece_count: u32,
    i: int,
    index: u32,
)
    requires
        0 <= i < peers.len(),
    ensures
        ({
            let s = dispatch(peers, pending, piece_count, i, MessageView::Have(index));
            &&& s.sent is None <==> index >= piece_count
            &&& index < piece_count ==> s.peers[i].pieces == peers[i].pieces.update(
                index as int,
                true,
            )
        }),
{
}

/// A `Piece` when no request is in flight does not wrap the counter around:
/// afterwards the counter is the number of requests that the refill sent,
/// which is none while the peer chokes us.
pub proof fn lemma_piece_with_nothing_in_flight(
    peers: Seq<PeerView>,
    pending: Seq<BlockRequest>,
    piece_count: u32,
    i: int,
    begin: BlockBegin,
    data: Seq<u8>,
)
    requires
        0 <= i < peers.len(),
        peers[i].inflight_requests == 0,
    ensures
        ({
            let s = dispatch(peers, pending, piece_count, i, MessageView::Piece(begin, data));
            &&& s.peers[i].inflight_requests == pending.len() - s.pending.len()
            &&& s.peers[i].inflight_requests <= PIPELINE_DEPTH
            &&& peers[i].is_choking ==> s.peers[i].inflight_requests == 0
        }),
{
}

/// Delivering `Unchoke` twice leaves the peer unchoking us, with each block
/// requested once and no more than the pipeline depth in flight.
pub proof fn lemma_unchoke_twice(
    peers: Seq<PeerView>,
    pending: Seq<BlockRequest>,
    piece_count: u32,
    i: int,
)
    requires
        0 <= i < peers.len(),
        peers[i].inflight_requests <= PIPELINE_DEPTH,
    ensures
        ({
            let s1 = dispatch(peers, pending, piece_count, i, MessageView::Unchoke);
            let s2 = dispatch(s1.peers, s1.pending, piece_count, i, MessageView::Unchoke);
            &&& !s2.peers[i].is_choking
            &&& s2.peers[i].inflight_requests <= PIPELINE_DEPTH
            &&& s2.peers[i].inflight_requests == peers[i].inflight_requests + pending.len()
                - s2.pending.len()
            &&& s2.pending == pending.skip(pending.len() - s2.pending.len())
        }),
{
    let s1 = dispatch(peers, pending, piece_count, i, MessageView::Unchoke);
    let s2 = dispatch(s1.peers, s1.pending, piece_count, i, MessageView::Unchoke);
    let k1 = pending.len() - s1.pending.len();
    assert(s2.pending =~= pending.skip(pending.len() - s2.pending.len()));
}

} // verus!
