//! Why everything in a swarm keeps fitting together.

use vstd::prelude::*;

use crate::coordinator::MAX_DOWNLOADING_PEERS;
use crate::piece::{
    choices_are_candidates, with_state_valid, BlockRequest, PieceState, BLOCK_SIZE,
};
use crate::pieces::Pieces;
use crate::swarm::{blocks_to_ask, name_of, names_of, requests, Ask, Deed, Event, Peer, Swarm};

verus! {

/// How a round of requests came about: the order of the turns and the pieces that were picked.
pub proof fn turns_of(s: Swarm, t: Swarm, asks: Seq<Ask>) -> (res: (Seq<u64>, Seq<Option<u32>>))
    requires
        s.filled(t, asks),
    ensures
        s.may_pick_all(res.0, res.1),
        s.turn_order(res.0),
        s.round(res.0, res.1) == (t, asks),
{
    choose|order: Seq<u64>, picks: Seq<Option<u32>>| #[trigger]
        s.may_pick_all(order, picks) && s.turn_order(order) && s.round(order, picks) == (t, asks)
}

/// How a reaction to an event came about: the order in which peers were told, the requests, and
/// if there was a round of them, the order of the turns and the pieces that were picked.
pub proof fn reaction_of(s: Swarm, e: Event, t: Swarm, deeds: Seq<Deed>) -> (res: (
    Seq<u64>,
    Seq<Ask>,
    Seq<u64>,
    Seq<Option<u32>>,
))
    requires
        s.reacts(e, t, deeds),
    ensures
        s.peer_order(res.0),
        deeds == s.deeds(e, res.0) + requests(res.1),
        e.refills() ==> {
            &&& s.after(e).may_pick_all(res.2, res.3)
            &&& s.after(e).turn_order(res.2)
            &&& s.after(e).round(res.2, res.3) == (t, res.1)
        },
        !e.refills() ==> t == s.after(e) && res.1.len() == 0,
{
    let (order, asks) = choose|order: Seq<u64>, asks: Seq<Ask>|
        s.peer_order(order) && deeds == #[trigger] s.deeds(e, order) + #[trigger] requests(asks)
            && if e.refills() {
            s.after(e).filled(t, asks)
        } else {
            t == s.after(e) && asks.len() == 0
        };
    let (turns, picks) = if e.refills() {
        turns_of(s.after(e), t, asks)
    } else {
        (Seq::empty(), Seq::empty())
    };
    (order, asks, turns, picks)
}

/// A piece that is assigned to one peer is assigned to no other.
pub proof fn sole_holder(s: Swarm, a: u64, b: u64)
    requires
        s.valid(),
        s.peers.contains_key(a),
        s.peers.contains_key(b),
        s.peers[a].assigned is Some,
        s.peers[b].assigned == s.peers[a].assigned,
    ensures
        a == b,
{
}

/// A peer without a piece has nothing under way.
pub proof fn idle_has_nothing(s: Swarm, id: u64)
    requires
        s.valid(),
        s.peers.contains_key(id),
        s.peers[id].assigned is None,
    ensures
        s.peers[id].inflight == Set::<(u32, u32)>::empty(),
        !s.peers[id].active(),
{
    let p = s.peers[id];
    assert forall|n: (u32, u32)| !p.inflight.contains(n) by {
        if p.inflight.contains((n.0, n.1)) {
            assert(p.assigned == Some(n.0));
        }
    }
    assert(p.inflight =~= Set::<(u32, u32)>::empty());
}

/// Everything still fits together when a missing piece is assigned to a peer.
pub proof fn assigned_valid(s: Swarm, id: u64, i: u32)
    requires
        s.valid(),
        s.peers.contains_key(id),
        !s.peers[id].choking,
        s.peers[id].assigned is None,
        i < s.pieces.hashes.len(),
        s.pieces.state[i as int] is Missing,
        s.downloading().len() < MAX_DOWNLOADING_PEERS,
    ensures
        s.assigned_to(id, i).valid(),
{
    let t = s.assigned_to(id, i);
    idle_has_nothing(s, id);
    with_state_valid(s.pieces, i as int, PieceState::InFlight);
    assert(t.peers.dom() =~= s.peers.dom());
    assert forall|a: u64| #[trigger] t.peers.contains_key(a) implies t.fits(a, t.peers[a]) by {
        assert(s.fits(a, s.peers[a]));
        if a != id {
            if let Some(k) = s.peers[a].assigned {
                assert(s.pieces.state_of(k as int) is InFlight);
                assert(k != i);
                assert(t.pieces.state_of(k as int) == s.pieces.state_of(k as int));
            }
        }
    }
    assert forall|a: u64, b: u64|
        t.peers.contains_key(a) && t.peers.contains_key(b) && a != b
            && #[trigger] t.peers[a].assigned is Some implies #[trigger] t.peers[b].assigned
        != t.peers[a].assigned by {
        assert(s.fits(a, s.peers[a]) && s.fits(b, s.peers[b]));
        if a == id {
            if s.peers[b].assigned == Some(i) {
                assert(s.pieces.state_of(i as int) is InFlight);
            }
        } else if b == id {
            if s.peers[a].assigned == Some(i) {
                assert(s.pieces.state_of(i as int) is InFlight);
            }
        } else {
            assert(s.peers[a].assigned is Some);
            assert(s.peers[b].assigned != s.peers[a].assigned);
        }
    }
    assert forall|k: u32| #[trigger] t.pieces.state_of(k as int) is InFlight implies t.held(k) by {
        if k == i {
            assert(t.peers.contains_key(id) && t.peers[id].assigned == Some(k));
        } else {
            assert(s.pieces.state_of(k as int) is InFlight);
            let a = choose|a: u64| #[trigger]
                s.peers.contains_key(a) && s.peers[a].assigned == Some(k);
            assert(t.peers.contains_key(a) && t.peers[a].assigned == Some(k));
        }
    }
    assert(t.downloading() =~= s.downloading().insert(id));
}

/// Everything still fits together when a peer gives up its piece and has nothing under way.
pub proof fn dropped_valid(s: Swarm, id: u64, index: u32, p: Peer)
    requires
        s.valid(),
        s.peers.contains_key(id),
        s.peers[id].assigned == Some(index),
        p.assigned is None,
        p.inflight == Set::<(u32, u32)>::empty(),
        0 <= p.window,
    ensures
        s.with_peer(id, p).released(index).valid(),
        s.with_peer(id, p).released(index) == s.with_peer(id, p).with_pieces(
            s.pieces.with_state(index as int, PieceState::Missing),
        ),
{
    let u = s.with_peer(id, p);
    let t = u.released(index);
    assert(s.fits(id, s.peers[id]));
    assert(s.pieces.state_of(index as int) is InFlight);
    assert(!u.held(index)) by {
        if u.held(index) {
            let a = choose|a: u64| #[trigger]
                u.peers.contains_key(a) && u.peers[a].assigned == Some(index);
            assert(a != id);
            sole_holder(s, id, a);
        }
    }
    with_state_valid(s.pieces, index as int, PieceState::Missing);
    assert(t.peers.dom() =~= s.peers.dom());
    assert forall|a: u64| #[trigger] t.peers.contains_key(a) implies t.fits(a, t.peers[a]) by {
        assert(s.fits(a, s.peers[a]));
        if a != id {
            if let Some(k) = s.peers[a].assigned {
                if k == index {
                    sole_holder(s, id, a);
                }
                assert(s.pieces.state_of(k as int) is InFlight);
                assert(t.pieces.state_of(k as int) == s.pieces.state_of(k as int));
            }
        }
    }
    assert forall|a: u64, b: u64|
        t.peers.contains_key(a) && t.peers.contains_key(b) && a != b
            && #[trigger] t.peers[a].assigned is Some implies #[trigger] t.peers[b].assigned
        != t.peers[a].assigned by {
        assert(a != id);
        assert(s.peers[a].assigned is Some);
        if b != id {
            assert(s.peers[b].assigned != s.peers[a].assigned);
        }
    }
    assert forall|k: u32| #[trigger] t.pieces.state_of(k as int) is InFlight implies t.held(k) by {
        assert(k != index);
        assert(s.pieces.state_of(k as int) is InFlight);
        let a = choose|a: u64| #[trigger]
            s.peers.contains_key(a) && s.peers[a].assigned == Some(k);
        assert(a != id);
        assert(t.peers.contains_key(a) && t.peers[a].assigned == Some(k));
    }
    assert(t.downloading().subset_of(s.downloading()));
    vstd::set_lib::lemma_len_subset(t.downloading(), s.downloading());
}

/// Everything still fits together when it is planned for a peer with a piece.
pub proof fn continued_valid(s: Swarm, id: u64, index: u32)
    requires
        s.valid(),
        s.peers.contains_key(id),
        s.peers[id].assigned == Some(index),
    ensures
        s.continued(id, index).0.valid(),
        s.continued(id, index).1.len() > 0 ==> s.continued(id, index).0 == s,
        s.continued(id, index).1.len() == 0 ==> s.continued(id, index).1 =~= Seq::<
            BlockRequest,
        >::empty(),
{
    let p = s.peers[id];
    assert(s.fits(id, p));
    assert(s.pieces.state_of(index as int) is InFlight);
    assert(s.with_pieces(s.pieces.reclaimed(index as int)) =~= s);
    let blocks = blocks_to_ask(s.pieces.needed(index), p.inflight, p.room());
    if blocks.len() == 0 && !p.fetching(index) {
        assert forall|n: (u32, u32)| !p.inflight.contains(n) by {
            if p.inflight.contains((n.0, n.1)) {
                assert(p.assigned == Some(n.0));
                assert(p.fetching(index));
            }
        }
        assert(p.inflight =~= Set::<(u32, u32)>::empty());
        dropped_valid(s, id, index, Peer { assigned: None, ..p });
    }
}

/// Needed blocks belong to their piece and differ in where they begin.
pub proof fn needed_named(p: Pieces, i: u32, k: int)
    requires
        0 <= k <= p.blocks(i as int),
    ensures
        forall|r: int|
            0 <= r < p.outstanding(i, k).len() ==> (#[trigger] p.outstanding(i, k)[r]).index == i
                && p.outstanding(i, k)[r].begin < k * BLOCK_SIZE,
        forall|r: int, q: int|
            0 <= r < q < p.outstanding(i, k).len() ==> (#[trigger] p.outstanding(i, k)[r]).begin
                < (#[trigger] p.outstanding(i, k)[q]).begin,
    decreases k,
{
    if k > 0 {
        needed_named(p, i, k - 1);
        let before = p.outstanding(i, k - 1);
        let now = p.outstanding(i, k);
        assert forall|r: int| 0 <= r < now.len() implies (#[trigger] now[r]).index == i && now[r].begin
            < k * BLOCK_SIZE by {
            if r < before.len() {
                assert(now[r] == before[r]);
            }
        }
        assert forall|r: int, q: int| 0 <= r < q < now.len() implies (#[trigger] now[r]).begin < (
        #[trigger] now[q]).begin by {
            assert(now[r] == before[r]);
            if q < before.len() {
                assert(now[q] == before[q]);
            }
        }
    }
}

/// What is asked for belongs to the piece, is not under way, and fits.
pub proof fn asked_named(p: Pieces, i: u32, inflight: Set<(u32, u32)>, room: int)
    requires
        0 <= room,
    ensures
        ({
            let blocks = blocks_to_ask(p.needed(i), inflight, room);
            &&& blocks.len() <= room
            &&& forall|r: int|
                0 <= r < blocks.len() ==> (#[trigger] blocks[r]).index == i && !inflight.contains(
                    name_of(blocks[r]),
                ) && p.needed(i).contains(blocks[r])
        }),
{
    let needed = p.needed(i);
    let pred = |b: BlockRequest| !inflight.contains(name_of(b));
    let open = needed.filter(pred);
    let blocks = blocks_to_ask(needed, inflight, room);
    needed_named(p, i, p.blocks(i as int));
    broadcast use vstd::seq_lib::group_filter_ensures;

    assert forall|r: int| 0 <= r < blocks.len() implies (#[trigger] blocks[r]).index == i
        && !inflight.contains(name_of(blocks[r])) && needed.contains(blocks[r]) by {
        assert(blocks[r] == open[r]);
        assert(pred(open[r]));
        assert(open.contains(open[r]));
        needed.lemma_filter_contains_rev(pred, open[r]);
        let k = choose|k: int| 0 <= k < needed.len() && needed[k] == open[r];
        assert(needed[k].index == i);
    }
}

/// Everything still fits together when a peer is asked for blocks of its piece.
pub proof fn asking_valid(s: Swarm, id: u64, index: u32, blocks: Seq<BlockRequest>)
    requires
        s.valid(),
        s.peers.contains_key(id),
        s.peers[id].assigned == Some(index),
        blocks.len() <= s.peers[id].room(),
        forall|r: int| 0 <= r < blocks.len() ==> (#[trigger] blocks[r]).index == index,
    ensures
        s.asking(id, blocks).valid(),
{
    let t = s.asking(id, blocks);
    let p = s.peers[id];
    let names = blocks.map_values(|b: BlockRequest| name_of(b));
    assert(s.fits(id, p));
    names.lemma_cardinality_of_set();
    vstd::set_lib::lemma_len_union(p.inflight, names_of(blocks));
    vstd::set_lib::lemma_set_union_finite_iff(p.inflight, names_of(blocks));
    assert(t.peers.dom() =~= s.peers.dom());
    assert forall|a: u64| #[trigger] t.peers.contains_key(a) implies t.fits(a, t.peers[a]) by {
        assert(s.fits(a, s.peers[a]));
        if a == id {
            assert forall|i: u32, b: u32| #[trigger] t.peers[a].inflight.contains((i, b)) implies
                t.peers[a].assigned == Some(i) by {
                if !p.inflight.contains((i, b)) {
                    let k = choose|k: int| 0 <= k < names.len() && names[k] == (i, b);
                    assert(names[k] == name_of(blocks[k]));
                    assert(blocks[k].index == index);
                }
            }
        }
    }
    assert forall|a: u64, b: u64|
        t.peers.contains_key(a) && t.peers.contains_key(b) && a != b
            && #[trigger] t.peers[a].assigned is Some implies #[trigger] t.peers[b].assigned
        != t.peers[a].assigned by {
        assert(s.peers[a].assigned is Some);
        assert(s.peers[b].assigned != s.peers[a].assigned);
    }
    assert forall|k: u32| #[trigger] t.pieces.state_of(k as int) is InFlight implies t.held(k) by {
        assert(s.pieces.state_of(k as int) is InFlight);
        let a = choose|a: u64| #[trigger]
            s.peers.contains_key(a) && s.peers[a].assigned == Some(k);
        assert(t.peers.contains_key(a) && t.peers[a].assigned == Some(k));
    }
    assert(t.downloading() =~= s.downloading());
}

/// Everything still fits together when nothing more is asked of a peer.
pub proof fn asking_nothing(s: Swarm, id: u64)
    ensures
        s.asking(id, Seq::empty()) == s,
{
    let none = Seq::<BlockRequest>::empty();
    if s.peers.contains_key(id) {
        assert(none.map_values(|b: BlockRequest| name_of(b)) =~= Seq::empty());
        assert(names_of(none) =~= Set::empty());
        assert(s.peers[id].inflight.union(names_of(none)) =~= s.peers[id].inflight);
        assert(s.asking(id, none) =~= s);
    }
}

/// Everything still fits together after the turn of a peer.
pub proof fn turn_valid(s: Swarm, id: u64, pick: Option<u32>)
    requires
        s.valid(),
        s.eligible(id) ==> s.may_pick(id, pick),
    ensures
        s.turn(id, pick).0.valid(),
{
    if s.eligible(id) {
        let p = s.peers[id];
        assert(s.fits(id, p));
        asking_nothing(s, id);
        if p.room() > 0 {
            if let Some(index) = p.assigned {
                continued_turn_valid(s, id, index);
            } else {
                idle_has_nothing(s, id);
                if let Some(i) = pick {
                    choices_are_candidates(s.pieces, p.has);
                    assert(s.pieces.candidates(p.has).contains(i));
                    assigned_valid(s, id, i);
                    continued_turn_valid(s.assigned_to(id, i), id, i);
                }
            }
        }
    }
}

proof fn continued_turn_valid(s: Swarm, id: u64, index: u32)
    requires
        s.valid(),
        s.peers.contains_key(id),
        s.peers[id].assigned == Some(index),
    ensures
        s.continued(id, index).0.asking(id, s.continued(id, index).1).valid(),
{
    let p = s.peers[id];
    let (t, blocks) = s.continued(id, index);
    continued_valid(s, id, index);
    if blocks.len() > 0 {
        assert(s.fits(id, p));
        assert(s.with_pieces(s.pieces.reclaimed(index as int)) =~= s);
        asked_named(s.pieces, index, p.inflight, p.room());
        asking_valid(s, id, index, blocks);
    } else {
        asking_nothing(t, id);
    }
}

/// Everything still fits together after the turns of peers.
pub proof fn round_valid(s: Swarm, order: Seq<u64>, picks: Seq<Option<u32>>)
    requires
        s.valid(),
        s.may_pick_all(order, picks),
    ensures
        s.round(order, picks).0.valid(),
    decreases order.len(),
{
    if order.len() > 0 {
        round_valid(s, order.drop_last(), picks.drop_last());
        let t = s.round(order.drop_last(), picks.drop_last()).0;
        turn_valid(t, order.last(), picks.last());
    }
}

/// Everything still fits together when only the count and the buffers of pieces change.
pub proof fn pieces_changed_valid(s: Swarm, q: Pieces)
    requires
        s.valid(),
        q.valid(),
        q.state == s.pieces.state,
    ensures
        s.with_pieces(q).valid(),
{
    let t = s.with_pieces(q);
    assert forall|a: u64| #[trigger] t.peers.contains_key(a) implies t.fits(a, t.peers[a]) by {
        assert(s.fits(a, s.peers[a]));
        if let Some(k) = s.peers[a].assigned {
            assert(t.pieces.state_of(k as int) == s.pieces.state_of(k as int));
        }
    }
    assert forall|k: u32| #[trigger] t.pieces.state_of(k as int) is InFlight implies t.held(k) by {
        assert(s.pieces.state_of(k as int) is InFlight);
        let a = choose|a: u64| #[trigger]
            s.peers.contains_key(a) && s.peers[a].assigned == Some(k);
        assert(t.peers.contains_key(a) && t.peers[a].assigned == Some(k));
    }
    assert(t.downloading() =~= s.downloading());
}

/// Everything still fits together when less is under way from a peer, or when something else is
/// known of it.
pub proof fn peer_changed_valid(s: Swarm, id: u64, p: Peer)
    requires
        s.valid(),
        s.peers.contains_key(id),
        p.assigned == s.peers[id].assigned,
        p.inflight.subset_of(s.peers[id].inflight),
        0 <= p.window,
        p.choking == s.peers[id].choking || p.assigned is None,
    ensures
        s.with_peer(id, p).valid(),
{
    let t = s.with_peer(id, p);
    let known = s.peers[id];
    assert(s.fits(id, known));
    vstd::set_lib::lemma_len_subset(p.inflight, known.inflight);
    assert(t.peers.dom() =~= s.peers.dom());
    if known.assigned is None {
        idle_has_nothing(s, id);
        assert(p.inflight =~= Set::<(u32, u32)>::empty());
    }
    assert forall|a: u64| #[trigger] t.peers.contains_key(a) implies t.fits(a, t.peers[a]) by {
        assert(s.fits(a, s.peers[a]));
        if a == id {
            assert forall|i: u32, b: u32| #[trigger] p.inflight.contains((i, b)) implies p.assigned
                == Some(i) by {
                assert(known.inflight.contains((i, b)));
            }
        }
    }
    assert forall|a: u64, b: u64|
        t.peers.contains_key(a) && t.peers.contains_key(b) && a != b
            && #[trigger] t.peers[a].assigned is Some implies #[trigger] t.peers[b].assigned
        != t.peers[a].assigned by {
        assert(s.peers[a].assigned is Some);
        assert(s.peers[b].assigned != s.peers[a].assigned);
    }
    assert forall|k: u32| #[trigger] t.pieces.state_of(k as int) is InFlight implies t.held(k) by {
        assert(s.pieces.state_of(k as int) is InFlight);
        let a = choose|a: u64| #[trigger]
            s.peers.contains_key(a) && s.peers[a].assigned == Some(k);
        assert(t.peers.contains_key(a) && t.peers[a].assigned == Some(k));
    }
    assert(t.downloading().subset_of(s.downloading()));
    vstd::set_lib::lemma_len_subset(t.downloading(), s.downloading());
}

/// Pieces still fit together with other counts of the peers that have them.
pub proof fn availability_valid(p: Pieces, availability: Seq<u16>)
    requires
        p.valid(),
        availability.len() == p.hashes.len(),
    ensures
        (Pieces { availability, ..p }).valid(),
{
    let q = Pieces { availability, ..p };
    assert forall|k: int| 0 <= k < q.state.len() && (#[trigger] q.state[k]) is Have implies q.have[k]
        && q.covers(k) by {
        assert(p.state[k] is Have);
        assert(p.covers(k));
    }
    assert forall|i: u32| #[trigger] q.partial.contains_key(i) implies q.covers(i as int) && q.fits(
        i,
        q.partial[i],
    ) by {
        assert(p.covers(i as int) && p.fits(i, p.partial[i]));
    }
}

/// Everything still fits together after a peer left.
pub proof fn leaving_valid(s: Swarm, id: u64)
    requires
        s.valid(),
    ensures
        s.after_leaving(id).valid(),
{
    if s.peers.contains_key(id) {
        let p = s.peers[id];
        let q = Pieces { availability: s.pieces.departed(p.has), ..s.pieces };
        let r = s.with_pieces(q);
        availability_valid(s.pieces, q.availability);
        pieces_changed_valid(s, q);
        if let Some(piece) = p.assigned {
            let idle = Peer { inflight: Set::empty(), assigned: None, ..p };
            assert(s.fits(id, p));
            dropped_valid(r, id, piece, idle);
            let u = r.with_peer(id, idle).released(piece);
            without_idle_valid(u, id);
            let v = Swarm { pieces: q, peers: s.peers.remove(id), ..s };
            assert(!v.held(piece)) by {
                if v.held(piece) {
                    let a = choose|a: u64| #[trigger]
                        v.peers.contains_key(a) && v.peers[a].assigned == Some(piece);
                    sole_holder(s, id, a);
                }
            }
            assert(u.peers.remove(id) =~= s.peers.remove(id));
            assert(s.after_leaving(id) =~= Swarm { peers: u.peers.remove(id), ..u });
        } else {
            without_idle_valid(r, id);
            assert(s.after_leaving(id) =~= Swarm { peers: r.peers.remove(id), ..r });
        }
    }
}

/// Everything still fits together without a peer that has no piece.
proof fn without_idle_valid(s: Swarm, id: u64)
    requires
        s.valid(),
        s.peers.contains_key(id),
        s.peers[id].assigned is None,
    ensures
        (Swarm { peers: s.peers.remove(id), ..s }).valid(),
{
    let t = Swarm { peers: s.peers.remove(id), ..s };
    assert(t.peers.dom() =~= s.peers.dom().remove(id));
    assert forall|a: u64| #[trigger] t.peers.contains_key(a) implies t.fits(a, t.peers[a]) by {
        assert(s.fits(a, s.peers[a]));
    }
    assert forall|a: u64, b: u64|
        t.peers.contains_key(a) && t.peers.contains_key(b) && a != b
            && #[trigger] t.peers[a].assigned is Some implies #[trigger] t.peers[b].assigned
        != t.peers[a].assigned by {
        assert(s.peers[a].assigned is Some);
        assert(s.peers[b].assigned != s.peers[a].assigned);
    }
    assert forall|k: u32| #[trigger] t.pieces.state_of(k as int) is InFlight implies t.held(k) by {
        assert(s.pieces.state_of(k as int) is InFlight);
        let a = choose|a: u64| #[trigger]
            s.peers.contains_key(a) && s.peers[a].assigned == Some(k);
        assert(t.peers.contains_key(a) && t.peers[a].assigned == Some(k));
    }
    assert(t.downloading().subset_of(s.downloading()));
    vstd::set_lib::lemma_len_subset(t.downloading(), s.downloading());
}

/// Everything still fits together after a peer choked us.
pub proof fn choking_valid(s: Swarm, id: u64)
    requires
        s.valid(),
    ensures
        s.after_choking(id).valid(),
{
    if s.peers.contains_key(id) {
        let p = s.peers[id];
        assert(s.fits(id, p));
        let q = Peer { choking: true, inflight: Set::empty(), assigned: None, ..p };
        if let Some(piece) = p.assigned {
            dropped_valid(s, id, piece, q);
        } else {
            peer_changed_valid(s, id, q);
        }
    }
}

/// Everything still fits together when a complete piece is taken from the peers that fetch it.
pub proof fn block_valid(s: Swarm, id: u64, index: u32, begin: u32, data: Seq<u8>)
    requires
        s.valid(),
        s.pieces.after_block(index, begin, data).valid(),
        s.pieces.fate(index, begin, data) is Complete ==> index < s.pieces.hashes.len(),
    ensures
        s.after_block(id, index, begin, data).valid(),
{
    let n = data.len() as int;
    let c = s.credited(id, index, begin, n);
    let q = s.pieces.after_block(index, begin, data);
    if s.peers.contains_key(id) {
        let p = s.peers[id];
        assert(s.fits(id, p));
        peer_changed_valid(
            s,
            id,
            Peer { inflight: p.inflight.remove((index, begin)), window: p.window + n, ..p },
        );
    }
    if s.pieces.fate(index, begin, data) is Complete {
        let t = s.after_block(id, index, begin, data);
        assert(c.pieces == s.pieces);
        assert(t.peers.dom() =~= c.peers.dom());
        assert forall|a: u64| #[trigger] t.peers.contains_key(a) implies t.fits(a, t.peers[a])
            && t.peers[a].choking == c.peers[a].choking && (t.peers[a].active()
            ==> c.peers[a].active()) && t.peers[a].assigned == (if c.peers[a].assigned == Some(
            index,
        ) {
            None
        } else {
            c.peers[a].assigned
        }) by {
            let p = c.peers[a];
            assert(c.peers.contains_key(a));
            assert(c.fits(a, p));
            if p.assigned == Some(index) {
                let left = p.inflight.filter(|x: (u32, u32)| x.0 != index);
                assert forall|x: (u32, u32)| !left.contains(x) by {
                    if p.inflight.contains((x.0, x.1)) {
                        assert(p.assigned == Some(x.0));
                    }
                }
                assert(left =~= Set::<(u32, u32)>::empty());
                assert(t.peers[a].inflight =~= Set::<(u32, u32)>::empty());
            } else {
                assert(t.peers[a] == p);
                if let Some(k) = p.assigned {
                    assert(k != index);
                    assert(s.pieces.state_of(k as int) is InFlight);
                    assert(t.pieces.state_of(k as int) == s.pieces.state_of(k as int));
                }
            }
        }
        assert forall|a: u64, b: u64|
            t.peers.contains_key(a) && t.peers.contains_key(b) && a != b
                && #[trigger] t.peers[a].assigned is Some implies #[trigger] t.peers[b].assigned
            != t.peers[a].assigned by {
            assert(c.peers.contains_key(a) && c.peers.contains_key(b));
            assert(c.peers[a].assigned is Some);
            assert(c.peers[b].assigned != c.peers[a].assigned);
        }
        assert forall|k: u32| #[trigger] t.pieces.state_of(k as int) is InFlight implies t.held(k) by {
            assert(k != index);
            assert(c.pieces.state_of(k as int) is InFlight);
            let a = choose|a: u64| #[trigger]
                c.peers.contains_key(a) && c.peers[a].assigned == Some(k);
            assert(t.peers.contains_key(a) && t.peers[a].assigned == Some(k));
        }
        assert(t.downloading().subset_of(c.downloading()));
        vstd::set_lib::lemma_len_subset(t.downloading(), c.downloading());
    } else {
        pieces_changed_valid(c, q);
    }
}

/// Everything still fits together with one more peer.
pub proof fn newcomer_valid(s: Swarm, num_pieces: nat)
    requires
        s.valid(),
        0 <= s.next_id < u64::MAX,
    ensures
        s.with_newcomer(num_pieces).valid(),
        !s.peers.contains_key(s.next_id as u64),
{
    let t = s.with_newcomer(num_pieces);
    let id = s.next_id as u64;
    assert(!s.peers.contains_key(id)) by {
        if s.peers.contains_key(id) {
            assert(s.fits(id, s.peers[id]));
        }
    }
    assert(t.peers.dom() =~= s.peers.dom().insert(id));
    assert forall|a: u64| #[trigger] t.peers.contains_key(a) implies t.fits(a, t.peers[a]) by {
        if a != id {
            assert(s.fits(a, s.peers[a]));
        }
    }
    assert forall|a: u64, b: u64|
        t.peers.contains_key(a) && t.peers.contains_key(b) && a != b
            && #[trigger] t.peers[a].assigned is Some implies #[trigger] t.peers[b].assigned
        != t.peers[a].assigned by {
        assert(s.peers[a].assigned is Some);
        if b != id {
            assert(s.peers[b].assigned != s.peers[a].assigned);
        }
    }
    assert forall|k: u32| #[trigger] t.pieces.state_of(k as int) is InFlight implies t.held(k) by {
        assert(s.pieces.state_of(k as int) is InFlight);
        let a = choose|a: u64| #[trigger]
            s.peers.contains_key(a) && s.peers[a].assigned == Some(k);
        assert(t.peers.contains_key(a) && t.peers[a].assigned == Some(k));
    }
    assert(t.downloading() =~= s.downloading());
}

/// Everything still fits together when peers are choked and unchoked.
pub proof fn unchoking_valid(s: Swarm, chosen: Set<u64>)
    requires
        s.valid(),
    ensures
        s.unchoking(chosen).valid(),
{
    let t = s.unchoking(chosen);
    assert(t.peers.dom() =~= s.peers.dom());
    assert forall|a: u64| #[trigger] t.peers.contains_key(a) implies t.fits(a, t.peers[a]) by {
        assert(s.fits(a, s.peers[a]));
    }
    assert forall|a: u64, b: u64|
        t.peers.contains_key(a) && t.peers.contains_key(b) && a != b
            && #[trigger] t.peers[a].assigned is Some implies #[trigger] t.peers[b].assigned
        != t.peers[a].assigned by {
        assert(s.peers[a].assigned is Some);
        assert(s.peers[b].assigned != s.peers[a].assigned);
    }
    assert forall|k: u32| #[trigger] t.pieces.state_of(k as int) is InFlight implies t.held(k) by {
        assert(s.pieces.state_of(k as int) is InFlight);
        let a = choose|a: u64| #[trigger]
            s.peers.contains_key(a) && s.peers[a].assigned == Some(k);
        assert(t.peers.contains_key(a) && t.peers[a].assigned == Some(k));
    }
    assert(t.downloading() =~= s.downloading());
}

/// Counters beside the peers and the pieces have no part in what fits together.
pub proof fn counters_valid(s: Swarm, t: Swarm)
    requires
        s.valid(),
        t.pieces == s.pieces,
        t.peers == s.peers,
        t.next_id == s.next_id,
    ensures
        t.valid(),
{
    assert forall|a: u64| #[trigger] t.peers.contains_key(a) implies t.fits(a, t.peers[a]) by {
        assert(s.fits(a, s.peers[a]));
    }
    assert forall|k: u32| #[trigger] t.pieces.state_of(k as int) is InFlight implies t.held(k) by {
        assert(s.pieces.state_of(k as int) is InFlight);
        let a = choose|a: u64| #[trigger]
            s.peers.contains_key(a) && s.peers[a].assigned == Some(k);
        assert(t.peers.contains_key(a) && t.peers[a].assigned == Some(k));
    }
    assert(t.downloading() =~= s.downloading());
}

} // verus!
