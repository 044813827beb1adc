//! What the coordinator knows of one connected peer.

use crate::messages::{Message, MessageView};
use crate::support::{InfoHash, PeerId};
use vstd::prelude::*;

verus! {

/// The state of one live connection, as the coordinator sees it.
pub struct Peer {
    pub peer_id: PeerId,
    /// Assigned by the coordinator when it tried to connect; never reused.
    pub internal_connection_id: u32,
    /// Bytes per second that the peer sends us, measured elsewhere.
    pub upload_rate_to_us: u32,
    /// Bytes per second that we send the peer, measured elsewhere.
    pub download_rate_from_us: u32,
    /// The peer wants pieces from us.
    pub is_interested: bool,
    /// The peer refuses to serve us.
    pub is_choking: bool,
    /// We want pieces from the peer.
    pub am_interested: bool,
    /// We refuse to serve the peer.
    pub am_choking: bool,
    /// One flag per piece of the swarm: the peer has that piece.
    pub pieces: Vec<bool>,
    /// Requests sent to the peer and not yet answered.
    pub inflight_requests: u32,
}

/// A peer's state as a mathematical value.
pub struct PeerView {
    pub peer_id: PeerId,
    pub internal_connection_id: u32,
    pub upload_rate_to_us: u32,
    pub download_rate_from_us: u32,
    pub is_interested: bool,
    pub is_choking: bool,
    pub am_interested: bool,
    pub am_choking: bool,
    pub pieces: Seq<bool>,
    pub inflight_requests: u32,
}

impl View for Peer {
    type V = PeerView;

    open spec fn view(&self) -> PeerView {
        PeerView {
            peer_id: self.peer_id,
            internal_connection_id: self.internal_connection_id,
            upload_rate_to_us: self.upload_rate_to_us,
            download_rate_from_us: self.download_rate_from_us,
            is_interested: self.is_interested,
            is_choking: self.is_choking,
            am_interested: self.am_interested,
            am_choking: self.am_choking,
            pieces: self.pieces@,
            inflight_requests: self.inflight_requests,
        }
    }
}

/// All `false`, `n` times.
fn no_pieces(n: u32) -> (v: Vec<bool>)
    ensures
        v@ == Seq::new(n as nat, |i: int| false),
{
    let mut v: Vec<bool> = Vec::new();
    let mut i: u32 = 0;
    while i < n
        invariant
            i <= n,
            v@ == Seq::new(i as nat, |j: int| false),
        decreases n - i,
    {
        v.push(false);
        i = i + 1;
        assert(v@ =~= Seq::new(i as nat, |j: int| false));
    }
    v
}

impl Peer {
    /// A peer that has just completed the handshake: both sides choking, neither
    /// interested, no piece known, no request in flight, rates not yet measured.
    pub fn new(peer_id: PeerId, internal_connection_id: u32, piece_count: u32) -> (r: Peer)
        ensures
            r@ == (PeerView {
                peer_id,
                internal_connection_id,
                upload_rate_to_us: 0,
                download_rate_from_us: 0,
                is_interested: false,
                is_choking: true,
                am_interested: false,
                am_choking: true,
                pieces: Seq::new(piece_count as nat, |i: int| false),
                inflight_requests: 0,
            }),
    {
        Peer {
            peer_id,
            internal_connection_id,
            upload_rate_to_us: 0,
            download_rate_from_us: 0,
            is_interested: false,
            is_choking: true,
            am_interested: false,
            am_choking: true,
            pieces: no_pieces(piece_count),
            inflight_requests: 0,
        }
    }
}

/// Whether the first message that a connection received completes the
/// handshake: it must be a handshake for our swarm.
pub fn handshake_accepted(response: &Message, info_hash: &InfoHash) -> (r: bool)
    ensures
        r == (response@ matches MessageView::Handshake(_, _, h, _) && h == info_hash.bytes@),
{
    match response {
        Message::Handshake(_, _, theirs, _) => {
            let mut same = true;
            let mut i: usize = 0;
            while i < 20
                invariant
                    0 <= i <= 20,
                    theirs.bytes@.len() == 20,
                    info_hash.bytes@.len() == 20,
                    same == forall|k: int| 0 <= k < i ==> theirs.bytes@[k] == info_hash.bytes@[k],
                decreases 20 - i,
            {
                same = same && theirs.bytes[i] == info_hash.bytes[i];
                i = i + 1;
            }
            assert(same ==> theirs.bytes@ =~= info_hash.bytes@);
            same
        },
        _ => false,
    }
}

} // verus!
