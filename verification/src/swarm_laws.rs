//! What holds of a swarm as a whole.

use vstd::prelude::*;

use crate::coordinator::{MAX_DOWNLOADING_PEERS, MAX_INFLIGHT_PER_PEER, UNCHOKE_SLOTS};
use crate::peer::connection::Command;
use crate::piece::{choices_are_candidates, same_outstanding};
use crate::piece_laws::after_block_valid;
use crate::pieces::Pieces;
use crate::sequences::push_contains;
use crate::swarm::{announcements, name_of, Deed, Event, Peer, Swarm};
use crate::swarm_valid::{
    asked_named, availability_valid, block_valid, choking_valid, counters_valid, idle_has_nothing,
    leaving_valid, newcomer_valid, peer_changed_valid, pieces_changed_valid, reaction_of,
    round_valid, sole_holder, unchoking_valid,
};

verus! {

/// Whatever a peer does or says, everything still fits together after it.
pub proof fn events_keep_fitting(s: Swarm, e: Event, t: Swarm, deeds: Seq<Deed>)
    requires
        s.valid(),
        s.reacts(e, t, deeds),
        e matches Event::BlockReceived { index, begin, data, .. } ==> s.pieces.takes(
            index,
            begin,
            data,
        ),
    ensures
        t.valid(),
{
    let (_, _, turns, picks) = reaction_of(s, e, t, deeds);
    first_step_valid(s, e);
    if e.refills() {
        round_valid(s.after(e), turns, picks);
    }
}

/// What an event brings about before new requests are sent out fits together too.
pub proof fn first_step_valid(s: Swarm, e: Event)
    requires
        s.valid(),
        e matches Event::BlockReceived { index, begin, data, .. } ==> s.pieces.takes(
            index,
            begin,
            data,
        ),
    ensures
        s.after(e).valid(),
{
    match e {
        Event::Disconnected { id } => {
            leaving_valid(s, id);
        },
        Event::Bitfield { id, bits } => {
            if s.peers.contains_key(id) {
                let q = Pieces {
                    availability: s.pieces.changed(s.peers[id].has, bits),
                    ..s.pieces
                };
                assert(s.fits(id, s.peers[id]));
                availability_valid(s.pieces, q.availability);
                pieces_changed_valid(s, q);
                peer_changed_valid(s.with_pieces(q), id, Peer { has: bits, ..s.peers[id] });
            }
        },
        Event::Have { id, index } => {
            if s.peers.contains_key(id) {
                let t = s.after_have(id, index);
                assert(s.fits(id, s.peers[id]));
                availability_valid(s.pieces, t.pieces.availability);
                assert(t.pieces =~= Pieces { availability: t.pieces.availability, ..s.pieces });
                pieces_changed_valid(s, t.pieces);
                peer_changed_valid(s.with_pieces(t.pieces), id, t.peers[id]);
                assert(t =~= s.with_pieces(t.pieces).with_peer(id, t.peers[id]));
            }
        },
        Event::BlockReceived { id, index, begin, data } => {
            after_block_valid(s.pieces, index, begin, data);
            block_valid(s, id, index, begin, data);
        },
        Event::Choked { id } => {
            choking_valid(s, id);
        },
        Event::Unchoked { id } => {
            if s.peers.contains_key(id) {
                assert(s.fits(id, s.peers[id]));
                peer_changed_valid(s, id, Peer { choking: false, ..s.peers[id] });
            }
        },
        Event::Interested { id } => {
            if s.peers.contains_key(id) {
                assert(s.fits(id, s.peers[id]));
                peer_changed_valid(s, id, Peer { interested: true, ..s.peers[id] });
            }
        },
        Event::NotInterested { id } => {
            if s.peers.contains_key(id) {
                assert(s.fits(id, s.peers[id]));
                peer_changed_valid(s, id, Peer { interested: false, ..s.peers[id] });
            }
        },
        _ => {},
    }
}

/// How many blocks are under way from some peers.
pub open spec fn load(s: Swarm, ids: Seq<u64>) -> int
    decreases ids.len(),
{
    if ids.len() == 0 {
        0
    } else {
        load(s, ids.drop_last()) + s.peers[ids.last()].inflight.len()
    }
}

/// No peer is asked for too many blocks, blocks are fetched from few enough peers, and no more
/// blocks are under way than those peers may be asked for.
pub proof fn window_is_bounded(s: Swarm, order: Seq<u64>)
    requires
        s.valid(),
        s.peer_order(order),
    ensures
        forall|id: u64| #[trigger]
            s.peers.contains_key(id) ==> s.peers[id].inflight.len() <= MAX_INFLIGHT_PER_PEER,
        s.downloading().len() <= MAX_DOWNLOADING_PEERS,
        load(s, order) <= MAX_DOWNLOADING_PEERS * MAX_INFLIGHT_PER_PEER,
{
    assert forall|id: u64| #[trigger] s.peers.contains_key(id) implies s.peers[id].inflight.len()
        <= MAX_INFLIGHT_PER_PEER by {
        assert(s.fits(id, s.peers[id]));
    }
    load_bounded(s, order, order.len() as int);
    assert(order.take(order.len() as int) =~= order);
    let busy = s.downloading().intersect(order.to_set());
    assert(busy.subset_of(s.downloading()));
    vstd::set_lib::lemma_len_subset(busy, s.downloading());
}

proof fn load_bounded(s: Swarm, order: Seq<u64>, k: int)
    requires
        s.valid(),
        s.peer_order(order),
        0 <= k <= order.len(),
    ensures
        load(s, order.take(k)) <= MAX_INFLIGHT_PER_PEER * s.downloading().intersect(
            order.take(k).to_set(),
        ).len(),
    decreases k,
{
    let upto = order.take(k);
    if k > 0 {
        let sofar = order.take(k - 1);
        let id = order[k - 1];
        load_bounded(s, order, k - 1);
        assert(upto.drop_last() =~= sofar);
        assert(upto.last() == id);
        assert(order.contains(id));
        assert(s.fits(id, s.peers[id]));
        let before = s.downloading().intersect(sofar.to_set());
        let now = s.downloading().intersect(upto.to_set());
        assert(!sofar.contains(id)) by {
            if sofar.contains(id) {
                let j = choose|j: int| 0 <= j < sofar.len() && sofar[j] == id;
                assert(order[j] == order[k - 1]);
            }
        }
        push_contains(sofar, id);
        assert(upto =~= sofar.push(id));
        assert forall|x: u64| upto.to_set().contains(x) == (x == id || sofar.to_set().contains(x)) by {
            assert(sofar.push(id).contains(x) == upto.to_set().contains(x));
        }
        if s.downloading().contains(id) {
            assert(now =~= before.insert(id));
        } else {
            assert(now =~= before);
            if s.peers[id].inflight.len() > 0 {
                if s.peers[id].choking {
                    idle_has_nothing(s, id);
                }
            }
        }
    } else {
        assert(upto =~= Seq::empty());
    }
}

/// A peer that chokes us has nothing assigned and nothing under way.
pub proof fn choking_peers_are_left_alone(s: Swarm, id: u64)
    requires
        s.valid(),
        s.peers.contains_key(id),
        s.peers[id].choking,
    ensures
        s.peers[id].assigned is None,
        s.peers[id].inflight == Set::<(u32, u32)>::empty(),
{
    assert(s.fits(id, s.peers[id]));
    idle_has_nothing(s, id);
}

/// A piece is in flight exactly if a peer has it assigned, and then only one has.
pub proof fn pieces_in_flight_have_one_peer(s: Swarm, i: u32)
    requires
        s.valid(),
    ensures
        s.pieces.state_of(i as int) is InFlight <==> s.held(i),
        forall|a: u64, b: u64|
            s.peers.contains_key(a) && s.peers.contains_key(b) && #[trigger] s.peers[a].assigned
                == Some(i) && #[trigger] s.peers[b].assigned == Some(i) ==> a == b,
{
    if s.held(i) {
        let a = choose|a: u64| #[trigger]
            s.peers.contains_key(a) && s.peers[a].assigned == Some(i);
        assert(s.fits(a, s.peers[a]));
    }
    assert forall|a: u64, b: u64|
        s.peers.contains_key(a) && s.peers.contains_key(b) && #[trigger] s.peers[a].assigned
            == Some(i) && #[trigger] s.peers[b].assigned == Some(i) implies a == b by {
        sole_holder(s, a, b);
    }
}

/// In its turn a peer is asked only for blocks that are needed and not under way from it, all
/// of one piece, and for no more than it may be asked for.
pub proof fn turns_ask_for_what_is_needed(s: Swarm, id: u64, pick: Option<u32>, k: int)
    requires
        s.valid(),
        s.eligible(id),
        s.may_pick(id, pick),
        0 <= k < s.turn(id, pick).1.len(),
    ensures
        ({
            let a = s.turn(id, pick).1[k];
            let index = if s.peers[id].assigned is Some {
                s.peers[id].assigned->0
            } else {
                pick->0
            };
            &&& a.id == id
            &&& a.block.index == index
            &&& s.pieces.needed(index).contains(a.block)
            &&& !s.peers[id].inflight.contains(name_of(a.block))
            &&& s.peers[id].inflight.len() + s.turn(id, pick).1.len() <= MAX_INFLIGHT_PER_PEER
            &&& s.peers[id].assigned is None ==> s.pieces.choices(s.peers[id].has).contains(index)
        }),
{
    let p = s.peers[id];
    assert(s.fits(id, p));
    if let Some(index) = p.assigned {
        assert(s.with_pieces(s.pieces.reclaimed(index as int)) =~= s);
        asked_named(s.pieces, index, p.inflight, p.room());
    } else {
        idle_has_nothing(s, id);
        let index = pick->0;
        choices_are_candidates(s.pieces, p.has);
        assert(s.pieces.candidates(p.has).contains(index));
        let t = s.assigned_to(id, index);
        assert(t.with_pieces(t.pieces.reclaimed(index as int)) =~= t);
        assert(t.pieces.needed(index) == s.pieces.needed(index)) by {
            same_outstanding(s.pieces, t.pieces, index, s.pieces.blocks(index as int));
        }
        asked_named(t.pieces, index, p.inflight, p.room());
    }
}

/// A new piece is told to every peer, and to each once.
pub proof fn every_peer_is_told(s: Swarm, index: u32, order: Seq<u64>, id: u64)
    requires
        s.peer_order(order),
        s.peers.contains_key(id),
    ensures
        exists|k: int|
            0 <= k < order.len() && #[trigger] announcements(index, order)[k] == Deed::Send(
                id,
                Command::Have(index),
            ),
        announcements(index, order).len() == s.peers.dom().len(),
{
    assert(order.contains(id));
    let k = choose|k: int| 0 <= k < order.len() && order[k] == id;
    assert(announcements(index, order)[k] == Deed::Send(id, Command::Have(index)));
    order.unique_seq_to_set();
    assert(order.to_set() =~= s.peers.dom()) by {
        assert forall|x: u64| order.to_set().contains(x) == s.peers.dom().contains(x) by {
            assert(order.contains(x) <==> s.peers.contains_key(x));
        }
    }
}

/// A block is read for a peer only if we do not choke the peer and the piece is there.
pub proof fn only_unchoked_peers_are_served(s: Swarm, e: Event, order: Seq<u64>, k: int)
    requires
        0 <= k < s.deeds(e, order).len(),
        s.deeds(e, order)[k] is Read,
    ensures
        s.deeds(e, order)[k] matches Deed::Read { id, index, .. } && s.peers.contains_key(id)
            && !s.peers[id].am_choking && s.pieces.state_of(index as int) is Have,
{
}

/// The peers that we do not choke.
pub open spec fn unchoked(s: Swarm) -> Set<u64> {
    s.peers.dom().filter(|id: u64| !s.peers[id].am_choking)
}

/// After a choke tick we give blocks to the best peers and to at most one other, and what every
/// peer gives is counted anew.
pub proof fn few_peers_are_unchoked(s: Swarm, t: Swarm, deeds: Seq<Deed>)
    requires
        s.valid(),
        s.chokes(t, deeds),
    ensures
        t.valid(),
        unchoked(t).len() <= UNCHOKE_SLOTS + 1,
        exists|top: Set<u64>| #[trigger] s.best(top) && top.subset_of(unchoked(t)),
        forall|id: u64| #[trigger]
            t.peers.contains_key(id) <==> s.peers.contains_key(id),
        forall|id: u64| #[trigger]
            t.peers.contains_key(id) ==> t.peers[id].window == 0 && t.peers[id].assigned
                == s.peers[id].assigned && t.peers[id].inflight == s.peers[id].inflight,
{
    let (top, pick, order) = choose|top: Set<u64>, pick: Option<u64>, order: Seq<u64>|
        #![trigger s.best(top), s.may_unchoke(top, pick), s.peer_order(order)]
        s.best(top) && s.may_unchoke(top, pick) && s.peer_order(order) && t == (Swarm {
            ticks: s.ticks + 1,
            optimistic: s.next_optimistic(pick),
            ..s.unchoking(s.to_unchoke(top, pick))
        }) && deeds == s.choke_deeds(s.to_unchoke(top, pick), order);
    let chosen = s.to_unchoke(top, pick);
    unchoking_valid(s, chosen);
    counters_valid(s.unchoking(chosen), t);
    let open = unchoked(t);
    assert(s.interested().subset_of(s.peers.dom()));
    vstd::set_lib::lemma_len_subset(s.interested(), s.peers.dom());
    vstd::set_lib::lemma_len_subset(top, s.interested());
    assert(chosen.finite() && chosen.len() <= top.len() + 1);
    assert(open.subset_of(chosen));
    vstd::set_lib::lemma_len_subset(open, chosen);
    assert forall|id: u64| top.contains(id) implies open.contains(id) by {
        assert(s.interested().contains(id));
    }
    assert(top.subset_of(open));
}

/// Peers that come get an id that no other peer has, and everything still fits together.
pub proof fn newcomers_get_new_ids(s: Swarm, num_pieces: nat)
    requires
        s.valid(),
        0 <= s.next_id < u64::MAX,
    ensures
        !s.peers.contains_key(s.next_id as u64),
        s.with_newcomer(num_pieces).valid(),
        s.with_newcomer(num_pieces).peers[s.next_id as u64].choking,
        s.with_newcomer(num_pieces).peers[s.next_id as u64].am_choking,
{
    newcomer_valid(s, num_pieces);
}

/// No block is under way from two peers.
pub proof fn no_block_is_under_way_twice(s: Swarm, a: u64, b: u64)
    requires
        s.valid(),
        s.peers.contains_key(a),
        s.peers.contains_key(b),
        a != b,
    ensures
        s.peers[a].inflight.disjoint(s.peers[b].inflight),
{
    assert(s.fits(a, s.peers[a]));
    assert(s.fits(b, s.peers[b]));
    assert forall|n: (u32, u32)| s.peers[a].inflight.contains(n) implies !s.peers[b].inflight.contains(
        n,
    ) by {
        assert(s.peers[a].inflight.contains((n.0, n.1)));
        if s.peers[b].inflight.contains((n.0, n.1)) {
            sole_holder(s, a, b);
        }
    }
}

/// At a choke tick a peer is told exactly if it is choked or unchoked anew.
pub proof fn changes_are_told(s: Swarm, t: Swarm, deeds: Seq<Deed>, id: u64)
    requires
        s.chokes(t, deeds),
    ensures
        deeds.contains(Deed::Send(id, Command::Unchoke)) <==> s.peers.contains_key(id)
            && s.peers[id].am_choking && !t.peers[id].am_choking,
        deeds.contains(Deed::Send(id, Command::Choke)) <==> s.peers.contains_key(id)
            && !s.peers[id].am_choking && t.peers[id].am_choking,
{
    let (top, pick, order) = choose|top: Set<u64>, pick: Option<u64>, order: Seq<u64>|
        #![trigger s.best(top), s.may_unchoke(top, pick), s.peer_order(order)]
        s.best(top) && s.may_unchoke(top, pick) && s.peer_order(order) && t == (Swarm {
            ticks: s.ticks + 1,
            optimistic: s.next_optimistic(pick),
            ..s.unchoking(s.to_unchoke(top, pick))
        }) && deeds == s.choke_deeds(s.to_unchoke(top, pick), order);
    let chosen = s.to_unchoke(top, pick);
    deeds_follow_choice(s, chosen, order, id);
    assert(order.contains(id) <==> s.peers.contains_key(id));
}

proof fn deeds_follow_choice(s: Swarm, chosen: Set<u64>, order: Seq<u64>, id: u64)
    ensures
        s.choke_deeds(chosen, order).contains(Deed::Send(id, Command::Unchoke)) <==> order.contains(
            id,
        ) && chosen.contains(id) && s.peers[id].am_choking,
        s.choke_deeds(chosen, order).contains(Deed::Send(id, Command::Choke)) <==> order.contains(
            id,
        ) && !chosen.contains(id) && !s.peers[id].am_choking,
    decreases order.len(),
{
    if order.len() > 0 {
        let x = order.last();
        let rest = order.drop_last();
        let first = s.choke_deeds(chosen, rest);
        deeds_follow_choice(s, chosen, rest, id);
        assert(rest.push(x) =~= order);
        push_contains(rest, x);
        assert(rest.push(x).contains(id) <==> rest.contains(id) || id == x);
        push_contains(first, Deed::Send(x, Command::Unchoke));
        push_contains(first, Deed::Send(x, Command::Choke));
    }
}

proof fn round_keeps_peers(s: Swarm, order: Seq<u64>, picks: Seq<Option<u32>>)
    ensures
        s.round(order, picks).0.peers.dom() == s.peers.dom(),
    decreases order.len(),
{
    if order.len() > 0 {
        round_keeps_peers(s, order.drop_last(), picks.drop_last());
        let m = s.round(order.drop_last(), picks.drop_last()).0;
        assert(m.turn(order.last(), picks.last()).0.peers.dom() =~= m.peers.dom());
    }
}

/// Nothing that a peer does or says, and no choke tick, brings a peer: once there are no more
/// peers than there may be, only a new connection can add one.
pub proof fn only_connections_bring_peers(s: Swarm, e: Event, t: Swarm, deeds: Seq<Deed>)
    requires
        s.valid(),
        s.reacts(e, t, deeds) || s.chokes(t, deeds),
    ensures
        t.peers.dom().subset_of(s.peers.dom()),
        t.peers.dom().len() <= s.peers.dom().len(),
{
    if s.chokes(t, deeds) {
        assert(t.peers.dom() =~= s.peers.dom());
    } else {
        let (_, _, turns, picks) = reaction_of(s, e, t, deeds);
        let m = s.after(e);
        assert(m.peers.dom().subset_of(s.peers.dom()));
        if e.refills() {
            round_keeps_peers(m, turns, picks);
        }
    }
    vstd::set_lib::lemma_len_subset(t.peers.dom(), s.peers.dom());
}

} // verus!
