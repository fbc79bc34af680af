//! Which pieces are measured when requests are sent out, and that they lie inside the torrent.

use vstd::prelude::*;

use crate::piece::{choices_are_candidates, holds};
use crate::swarm::{Event, Swarm};
use crate::swarm_laws::first_step_valid;

verus! {

impl Swarm {
    /// Whether a peer keeps the piece that it has assigned over an event.
    pub open spec fn keeps_piece(self, e: Event, id: u64) -> bool {
        match e {
            Event::Disconnected { id: x } => x != id,
            Event::Choked { id: x } => x != id,
            _ => true,
        }
    }

    /// Whether a peer is there after an event and does not choke us.
    pub open spec fn open_after(self, e: Event, id: u64) -> bool {
        &&& self.peers.contains_key(id)
        &&& self.keeps_piece(e, id)
        &&& !self.peers[id].choking || e == (Event::Unchoked { id })
    }

    /// The pieces that a peer has after an event.
    pub open spec fn has_after(self, e: Event, id: u64) -> Seq<bool> {
        match e {
            Event::Bitfield { id: x, bits } => if x == id {
                bits
            } else {
                self.peers[id].has
            },
            Event::Have { id: x, index } => if x == id && index < self.peers[id].has.len() {
                self.peers[id].has.update(index as int, true)
            } else {
                self.peers[id].has
            },
            _ => self.peers[id].has,
        }
    }

    /// Whether all that may be fetched from a peer after an event lies inside the torrent.
    pub open spec fn fetches_inside(self, e: Event, id: u64) -> bool {
        &&& self.keeps_piece(e, id) ==> (self.peers[id].assigned matches Some(a)
            ==> self.pieces.covers(a as int))
        &&& self.open_after(e, id) ==> forall|i: u32|
            i < self.pieces.hashes.len() && holds(self.has_after(e, id), i as int)
                ==> #[trigger] self.pieces.covers(i as int)
    }
}

/// A piece that is not missing lies inside the torrent, if those that are assigned do.
proof fn inside_unless_missing(s: Swarm, i: u32)
    requires
        s.valid(),
        s.askable(),
        i < s.pieces.hashes.len(),
        s.pieces.state_of(i as int) !is Missing,
    ensures
        s.pieces.covers(i as int),
{
    if s.pieces.state_of(i as int) is InFlight {
        assert(s.held(i));
        let a = choose|a: u64| #[trigger]
            s.peers.contains_key(a) && s.peers[a].assigned == Some(i);
        assert(s.peers.contains_key(a));
    } else {
        assert(s.pieces.state[i as int] is Have);
    }
}

/// If all pieces lie inside the torrent, so do those that may be fetched.
pub proof fn all_inside(s: Swarm)
    requires
        s.valid(),
        s.pieces.all_covered(),
    ensures
        s.askable(),
{
    assert forall|id: u64| #[trigger] s.peers.contains_key(id) implies (
    s.peers[id].assigned matches Some(i) ==> s.pieces.covers(i as int)) by {
        assert(s.fits(id, s.peers[id]));
    }
}

/// A turn brings no piece into reach.
pub proof fn turn_askable(s: Swarm, id: u64, pick: Option<u32>)
    requires
        s.valid(),
        s.askable(),
        s.eligible(id) ==> s.may_pick(id, pick),
    ensures
        s.turn(id, pick).0.askable(),
        s.turn(id, pick).0.pieces.same_torrent(s.pieces),
{
    let t = s.turn(id, pick).0;
    assert(t.pieces.same_torrent(s.pieces));
    assert forall|a: u64| #[trigger] t.peers.contains_key(a) implies (
    t.peers[a].assigned matches Some(k) ==> t.pieces.covers(k as int)) by {
        assert(s.peers.contains_key(a));
        if let Some(k) = t.peers[a].assigned {
            if s.peers[a].assigned == Some(k) {
                assert(s.pieces.covers(k as int));
            } else {
                assert(a == id && pick == Some(k));
                choices_are_candidates(s.pieces, s.peers[id].has);
                assert(s.pieces.candidates(s.peers[id].has).contains(k));
                assert(s.may_fetch(id, k));
            }
        }
    }
    assert forall|a: u64, k: u32| #[trigger] t.may_fetch(a, k) implies t.pieces.covers(k as int) by {
        if s.pieces.state_of(k as int) is Missing {
            assert(s.may_fetch(a, k));
        } else {
            inside_unless_missing(s, k);
        }
    }
}

/// Who is there after an event, and what is known of them.
proof fn peers_after(s: Swarm, e: Event, id: u64)
    requires
        s.valid(),
    ensures
        s.after(e).pieces.same_torrent(s.pieces),
        s.after(e).peers.contains_key(id) && !s.after(e).peers[id].choking <==> s.open_after(e, id),
        s.open_after(e, id) ==> s.after(e).peers[id].has == s.has_after(e, id),
        s.after(e).peers.contains_key(id) && s.after(e).peers[id].assigned is Some
            ==> s.peers.contains_key(id) && s.keeps_piece(e, id) && s.after(e).peers[id].assigned
            == s.peers[id].assigned,
        s.peers.contains_key(id) && s.keeps_piece(e, id) && s.peers[id].assigned is Some ==> (
        s.after(e).peers.contains_key(id) && s.after(e).peers[id].assigned == s.peers[id].assigned)
            || (e matches Event::BlockReceived { index, .. } && s.peers[id].assigned == Some(index)),
{
    match e {
        Event::Disconnected { id: x } => {
            assert(s.after(e).peers == s.peers.remove(x) || s.after(e) == s);
        },
        Event::Bitfield { id: x, bits } => {
            assert(s.after(e) == s.after_bitfield(x, bits));
        },
        Event::Have { id: x, index } => {
            assert(s.after(e) == s.after_have(x, index));
        },
        Event::BlockReceived { id: x, index, begin, data } => {
            block_peers(s, x, index, begin, data, id);
        },
        Event::Choked { id: x } => {
            assert(s.after(e) == s.after_choking(x));
        },
        _ => {},
    }
}

/// A block changes no more of a peer than what is under way from it, what it gave, and the piece
/// that it has assigned if the block is part of it.
proof fn block_peers(s: Swarm, x: u64, index: u32, begin: u32, data: Seq<u8>, id: u64)
    ensures
        s.after_block(x, index, begin, data).pieces.same_torrent(s.pieces),
        s.after_block(x, index, begin, data).peers.contains_key(id) == s.peers.contains_key(id),
        s.peers.contains_key(id) ==> {
            let p = s.peers[id];
            let q = s.after_block(x, index, begin, data).peers[id];
            &&& q.choking == p.choking
            &&& q.has == p.has
            &&& q.assigned == p.assigned || (q.assigned is None && p.assigned == Some(index))
        },
{
    let m = s.credited(x, index, begin, data.len() as int);
    assert(m.peers.contains_key(id) == s.peers.contains_key(id));
    assert(s.peers.contains_key(id) ==> m.peers[id].choking == s.peers[id].choking
        && m.peers[id].has == s.peers[id].has && m.peers[id].assigned == s.peers[id].assigned);
}

/// What may be fetched after an event lies inside the torrent exactly if that holds of every
/// peer.
pub proof fn askable_after(s: Swarm, e: Event)
    requires
        s.valid(),
        e matches Event::BlockReceived { index, begin, data, .. } ==> s.pieces.takes(
            index,
            begin,
            data,
        ),
    ensures
        s.after(e).askable() <==> forall|id: u64| #[trigger]
            s.peers.contains_key(id) ==> s.fetches_inside(e, id),
{
    let t = s.after(e);
    first_step_valid(s, e);
    if t.askable() {
        assert forall|id: u64| #[trigger] s.peers.contains_key(id) implies s.fetches_inside(e, id) by {
            peers_after(s, e, id);
            if s.keeps_piece(e, id) && s.peers[id].assigned is Some {
                if t.peers.contains_key(id) && t.peers[id].assigned == s.peers[id].assigned {
                    let a = t.peers[id].assigned->0;
                    assert(t.pieces.covers(a as int));
                }
            }
            if s.open_after(e, id) {
                assert forall|i: u32|
                    i < s.pieces.hashes.len() && holds(s.has_after(e, id), i as int) implies #[trigger] s.pieces.covers(
                    i as int,
                ) by {
                    if t.pieces.state_of(i as int) is Missing {
                        assert(t.may_fetch(id, i));
                    } else {
                        inside_unless_missing(t, i);
                    }
                    assert(t.pieces.covers(i as int));
                }
            }
        }
    }
    if forall|id: u64| #[trigger] s.peers.contains_key(id) ==> s.fetches_inside(e, id) {
        assert forall|id: u64| #[trigger] t.peers.contains_key(id) implies (
        t.peers[id].assigned matches Some(a) ==> t.pieces.covers(a as int)) by {
            peers_after(s, e, id);
            if t.peers[id].assigned is Some {
                assert(s.fetches_inside(e, id));
            }
        }
        assert forall|id: u64, i: u32| #[trigger] t.may_fetch(id, i) implies t.pieces.covers(i as int) by {
            peers_after(s, e, id);
            assert(s.fetches_inside(e, id));
            assert(s.pieces.covers(i as int));
        }
    }
}

} // verus!
