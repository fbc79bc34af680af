//! What each thing that a peer does or says changes, and what is done about it.

use vstd::prelude::*;

use crate::digest::sha1_digest;
use crate::peer::connection::{Command, PeerMsg};
use crate::piece::PieceState;
use crate::pieces::{Fate, Pieces};
use crate::swarm::{requests, Ask, Deed, Event, Peer, Swarm};
use crate::swarm_valid::{reaction_of, sole_holder};

verus! {

/// What a peer did or said is told as it was: the same thing, of the same peer, with the same
/// contents.
pub proof fn news_is_told_as_it_came(m: PeerMsg)
    ensures
        match m {
            PeerMsg::Connected { id, .. } => m.event() == (Event::Connected { id }),
            PeerMsg::Disconnected { id } => m.event() == (Event::Disconnected { id }),
            PeerMsg::Bitfield { id, bits } => m.event() matches Event::Bitfield { id: x, bits: b }
                && x == id && b == bits@,
            PeerMsg::Have { id, index } => m.event() == (Event::Have { id, index }),
            PeerMsg::BlockReceived { id, index, begin, data } => m.event() matches Event::BlockReceived {
                id: x,
                index: i,
                begin: b,
                data: d,
            } && x == id && i == index && b == begin && d == data@,
            PeerMsg::RequestFromPeer { id, index, begin, length } => m.event() == (
            Event::RequestFromPeer { id, index, begin, length }),
            PeerMsg::Choked { id } => m.event() == (Event::Choked { id }),
            PeerMsg::Unchoked { id } => m.event() == (Event::Unchoked { id }),
            PeerMsg::Interested { id } => m.event() == (Event::Interested { id }),
            PeerMsg::NotInterested { id } => m.event() == (Event::NotInterested { id }),
        },
{
}

/// A peer is there after an event exactly if it was there before and the event is not that it
/// left. Nothing else of the swarm is counted anew.
pub proof fn only_leaving_removes_peers(s: Swarm, e: Event, x: u64)
    ensures
        s.after(e).peers.contains_key(x) <==> s.peers.contains_key(x) && e != (Event::Disconnected {
            id: x,
        }),
        s.after(e).next_id == s.next_id,
        s.after(e).ticks == s.ticks,
        s.after(e).optimistic == s.optimistic,
        s.after(e).uploaded == s.uploaded,
{
    match e {
        Event::Disconnected { id } => {
            assert(s.after(e) == s.after_leaving(id));
        },
        Event::BlockReceived { id, index, begin, data } => {
            block_changes(s, id, index, begin, data, x);
        },
        _ => {},
    }
}

/// After an event it is known of every peer what the peer said last: which pieces it has, whether
/// it chokes us, whether it is interested. Whether we choke it does not change, and what it gave
/// grows by the bytes of its blocks.
pub proof fn peers_are_known_by_what_they_said(s: Swarm, e: Event, x: u64)
    requires
        s.after(e).peers.contains_key(x),
    ensures
        ({
            let p = s.peers[x];
            let q = s.after(e).peers[x];
            &&& match e {
                Event::Bitfield { id, bits } => q.has == if id == x {
                    bits
                } else {
                    p.has
                },
                Event::Have { id, index } => q.has.len() == p.has.len() && forall|i: int|
                    0 <= i < q.has.len() ==> #[trigger] q.has[i] == (p.has[i] || (id == x && i
                        == index)),
                _ => q.has == p.has,
            }
            &&& q.choking == match e {
                Event::Choked { id } => id == x || p.choking,
                Event::Unchoked { id } => id != x && p.choking,
                _ => p.choking,
            }
            &&& q.interested == match e {
                Event::Interested { id } => id == x || p.interested,
                Event::NotInterested { id } => id != x && p.interested,
                _ => p.interested,
            }
            &&& q.am_choking == p.am_choking
            &&& q.window == match e {
                Event::BlockReceived { id, data, .. } => if id == x {
                    p.window + data.len()
                } else {
                    p.window
                },
                _ => p.window,
            }
        }),
{
    only_leaving_removes_peers(s, e, x);
    match e {
        Event::Disconnected { id } => {
            assert(s.after(e) == s.after_leaving(id));
        },
        Event::BlockReceived { id, index, begin, data } => {
            block_changes(s, id, index, begin, data, x);
        },
        Event::Choked { id } => {
            assert(s.after(e) == s.after_choking(id));
        },
        _ => {},
    }
}

/// What is under way from a peer, and the piece that it has assigned, change only if it chokes
/// us, which ends both, or if a block comes: then that block is no longer under way from the peer
/// that sent it, and if the block completes its piece, the piece is no longer assigned to anyone
/// and none of its blocks is under way from those who had it.
pub proof fn requests_end_when_answered(s: Swarm, e: Event, x: u64)
    requires
        s.valid(),
        s.after(e).peers.contains_key(x),
    ensures
        ({
            let p = s.peers[x];
            let q = s.after(e).peers[x];
            match e {
                Event::Choked { id } => if id == x {
                    q.assigned is None && q.inflight == Set::<(u32, u32)>::empty()
                } else {
                    q.assigned == p.assigned && q.inflight == p.inflight
                },
                Event::BlockReceived { id, index, begin, data } => {
                    &&& forall|n: (u32, u32)| #[trigger]
                        q.inflight.contains(n) ==> p.inflight.contains(n)
                    &&& id == x ==> !q.inflight.contains((index, begin))
                    &&& if s.pieces.fate(index, begin, data) is Complete && p.assigned == Some(
                        index,
                    ) {
                        q.assigned is None && forall|b: u32| !q.inflight.contains((index, b))
                    } else {
                        &&& q.assigned == p.assigned
                        &&& forall|n: (u32, u32)|
                            p.inflight.contains(n) && !(id == x && n == (index, begin))
                                ==> #[trigger] q.inflight.contains(n)
                    }
                },
                _ => q.assigned == p.assigned && q.inflight == p.inflight,
            }
        }),
{
    only_leaving_removes_peers(s, e, x);
    match e {
        Event::Disconnected { id } => {
            assert(s.after(e) == s.after_leaving(id));
        },
        Event::BlockReceived { id, index, begin, data } => {
            block_changes(s, id, index, begin, data, x);
        },
        Event::Choked { id } => {
            assert(s.after(e) == s.after_choking(id));
        },
        _ => {},
    }
}

/// What a block changes of peer `x`.
proof fn block_changes(s: Swarm, id: u64, index: u32, begin: u32, data: Seq<u8>, x: u64)
    ensures
        ({
            let t = s.after_block(id, index, begin, data);
            let p = s.peers[x];
            let known = if id == x {
                Peer {
                    inflight: p.inflight.remove((index, begin)),
                    window: p.window + data.len(),
                    ..p
                }
            } else {
                p
            };
            &&& t.peers.contains_key(x) == s.peers.contains_key(x)
            &&& t.next_id == s.next_id
            &&& t.ticks == s.ticks
            &&& t.optimistic == s.optimistic
            &&& t.uploaded == s.uploaded
            &&& s.peers.contains_key(x) ==> t.peers[x] == (match s.pieces.fate(index, begin, data) {
                Fate::Complete(buf) => if p.assigned == Some(index) {
                    Peer {
                        assigned: None,
                        inflight: if sha1_digest(buf) == s.pieces.hashes[index as int] {
                            known.inflight.filter(|n: (u32, u32)| n.0 != index)
                        } else {
                            Set::empty()
                        },
                        ..known
                    }
                } else {
                    known
                },
                _ => known,
            })
        }),
{
    let m = s.credited(id, index, begin, data.len() as int);
    assert(m.peers.contains_key(x) == s.peers.contains_key(x));
    let t = s.after_block(id, index, begin, data);
    assert(t.peers.contains_key(x) == s.peers.contains_key(x));
}

/// Only blocks change what is put together of pieces and which pieces are there. Apart from that
/// a piece is only given back: if the peer that has it assigned leaves or chokes us, it is
/// missing again.
pub proof fn pieces_change_by_blocks(s: Swarm, e: Event, k: u32)
    requires
        s.valid(),
        k < s.pieces.state.len(),
        !(e is BlockReceived),
    ensures
        ({
            let t = s.after(e);
            &&& t.pieces.partial == s.pieces.partial
            &&& t.pieces.have == s.pieces.have
            &&& t.pieces.completed == s.pieces.completed
            &&& t.pieces.hashes == s.pieces.hashes
            &&& t.pieces.state[k as int] == if (e matches Event::Disconnected { id }
                && s.peers.contains_key(id) && s.peers[id].assigned == Some(k)) || (
            e matches Event::Choked { id } && s.peers.contains_key(id) && s.peers[id].assigned
                == Some(k)) {
                PieceState::Missing
            } else {
                s.pieces.state[k as int]
            }
        }),
{
    match e {
        Event::Disconnected { id } => {
            if s.peers.contains_key(id) {
                giving_back(s, id);
            }
        },
        Event::Choked { id } => {
            if s.peers.contains_key(id) {
                giving_back(s, id);
            }
        },
        _ => {},
    }
}

/// Nobody else has the piece of a peer.
proof fn giving_back(s: Swarm, id: u64)
    requires
        s.valid(),
        s.peers.contains_key(id),
    ensures
        s.peers[id].assigned matches Some(piece) ==> {
            &&& s.pieces.state_of(piece as int) is InFlight
            &&& !(Swarm {
                pieces: Pieces {
                    availability: s.pieces.departed(s.peers[id].has),
                    ..s.pieces
                },
                peers: s.peers.remove(id),
                ..s
            }).held(piece)
            &&& !s.with_peer(
                id,
                Peer { choking: true, inflight: Set::empty(), assigned: None, ..s.peers[id] },
            ).held(piece)
        },
{
    assert(s.fits(id, s.peers[id]));
    if let Some(piece) = s.peers[id].assigned {
        let a = Swarm {
            pieces: Pieces {
                availability: s.pieces.departed(s.peers[id].has),
                ..s.pieces
            },
            peers: s.peers.remove(id),
            ..s
        };
        let b = s.with_peer(
            id,
            Peer { choking: true, inflight: Set::empty(), assigned: None, ..s.peers[id] },
        );
        if a.held(piece) {
            let x = choose|x: u64| #[trigger]
                a.peers.contains_key(x) && a.peers[x].assigned == Some(piece);
            sole_holder(s, id, x);
        }
        if b.held(piece) {
            let x = choose|x: u64| #[trigger]
                b.peers.contains_key(x) && b.peers[x].assigned == Some(piece);
            assert(x != id);
            sole_holder(s, id, x);
        }
    }
}

/// What is done about an event: a peer that came or told what it has is told that we are
/// interested, a block is read for a peer that asks for it if the piece is there and we do not
/// choke the peer, and nothing is done about the rest but blocks.
pub proof fn peers_are_answered(s: Swarm, e: Event, order: Seq<u64>)
    requires
        !(e is BlockReceived),
    ensures
        ({
            let deeds = s.deeds(e, order);
            match e {
                Event::Connected { id } | Event::Bitfield { id, .. } | Event::Have { id, .. } => if s.peers.contains_key(id) {
                    deeds.len() == 1 && deeds[0] == Deed::Send(id, Command::Interested)
                } else {
                    deeds.len() == 0
                },
                Event::RequestFromPeer { id, index, begin, length } => if s.peers.contains_key(id)
                    && !s.peers[id].am_choking && index < s.pieces.state.len()
                    && s.pieces.state[index as int] is Have {
                    deeds.len() == 1 && deeds[0] == (Deed::Read { id, index, begin, length })
                } else {
                    deeds.len() == 0
                },
                _ => deeds.len() == 0,
            }
        }),
{
}

/// What is done about a block: if it completes its piece and the digest of the bytes is the one
/// of the torrent, the bytes are written and every peer is told of the piece, in turn. If the
/// digest is another one, the piece is reported as corrupt. A block that does not lie in its piece
/// is reported with the peer that sent it. Nothing is done about any other block.
pub proof fn complete_pieces_are_written(
    s: Swarm,
    id: u64,
    index: u32,
    begin: u32,
    data: Seq<u8>,
    order: Seq<u64>,
)
    ensures
        ({
            let deeds = s.deeds(Event::BlockReceived { id, index, begin, data }, order);
            match s.pieces.fate(index, begin, data) {
                Fate::Complete(buf) => if sha1_digest(buf) == s.pieces.hashes[index as int] {
                    &&& deeds.len() == 1 + order.len()
                    &&& deeds[0] == (Deed::Write { index, data: buf })
                    &&& forall|k: int|
                        0 <= k < order.len() ==> deeds[1 + k] == Deed::Send(
                            #[trigger] order[k],
                            Command::Have(index),
                        )
                } else {
                    deeds.len() == 1 && deeds[0] == Deed::Mismatch(index)
                },
                Fate::Bad => deeds.len() == 1 && deeds[0] == Deed::Bad(id),
                _ => deeds.len() == 0,
            }
        }),
{
}

/// Requests are sent as they were decided on, in order: to the peer, for the block.
pub proof fn requests_are_sent_as_decided(asks: Seq<Ask>, k: int)
    requires
        0 <= k < asks.len(),
    ensures
        requests(asks).len() == asks.len(),
        requests(asks)[k] == Deed::Send(
            asks[k].id,
            Command::RequestBlock {
                index: asks[k].block.index,
                begin: asks[k].block.begin,
                length: asks[k].block.length,
            },
        ),
{
}

/// What is done about an event comes before the requests that follow it.
pub proof fn answers_come_before_requests(s: Swarm, e: Event, t: Swarm, deeds: Seq<Deed>)
    requires
        s.reacts(e, t, deeds),
    ensures
        exists|order: Seq<u64>, asks: Seq<Ask>|
            s.peer_order(order) && deeds == #[trigger] s.deeds(e, order) + #[trigger] requests(asks)
                && (!e.refills() ==> asks.len() == 0 && t == s.after(e)),
{
    let (order, asks, _, _) = reaction_of(s, e, t, deeds);
    assert(deeds == s.deeds(e, order) + requests(asks));
}

/// New requests are sent out after everything that can change what is to be asked of whom: a peer
/// left, told what it has, sent a block, choked or unchoked us.
pub proof fn requests_follow_news(e: Event)
    ensures
        e.refills() <==> e is Disconnected || e is Bitfield || e is Have || e is BlockReceived
            || e is Choked || e is Unchoked,
{
}

/// A peer that just came has a number that nobody has, is not known to have a piece, is taken to
/// choke us and not to be interested, is choked, and nothing is asked of it. Nobody else changes.
pub proof fn newcomers_start_from_nothing(s: Swarm, num_pieces: nat, x: u64)
    requires
        s.valid(),
        0 <= s.next_id < u64::MAX,
    ensures
        ({
            let t = s.with_newcomer(num_pieces);
            let id = s.next_id as u64;
            let p = t.peers[id];
            &&& t.peers.contains_key(id) && !s.peers.contains_key(id)
            &&& p.has.len() == num_pieces && forall|i: int| 0 <= i < num_pieces ==> !p.has[i]
            &&& p.choking && !p.interested && p.am_choking
            &&& p.window == 0 && p.assigned is None && p.inflight == Set::<(u32, u32)>::empty()
            &&& x != id ==> t.peers.contains_key(x) == s.peers.contains_key(x) && (
            s.peers.contains_key(x) ==> t.peers[x] == s.peers[x])
            &&& t.next_id == s.next_id + 1
            &&& t.pieces == s.pieces
        }),
{
    let id = s.next_id as u64;
    if s.peers.contains_key(id) {
        assert(s.fits(id, s.peers[id]));
    }
}

} // verus!
