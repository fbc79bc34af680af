//! What holds of the requests that are sent out in a round.

use vstd::prelude::*;

use crate::coordinator::{MAX_DOWNLOADING_PEERS, MAX_INFLIGHT_PER_PEER};
use crate::piece::{choices_are_candidates, same_outstanding, BlockRequest};
use crate::piece_laws::candidates_are_missing;
use crate::pieces::Pieces;
use crate::sequences::push_contains;
use crate::swarm::{blocks_to_ask, name_of, names_of, Ask, Swarm};
use crate::swarm_laws::turns_ask_for_what_is_needed;
use crate::swarm_valid::{idle_has_nothing, round_valid, turns_of};

verus! {

/// Whether a request is one that should be sent out on the way from `s` to `t`: it goes to a peer
/// that does not choke us, names a block of the piece that the peer has assigned which has not
/// been received, and the block was not under way from the peer before and is afterwards.
pub open spec fn due(s: Swarm, t: Swarm, a: Ask) -> bool {
    &&& s.peers.contains_key(a.id)
    &&& t.peers.contains_key(a.id)
    &&& !s.peers[a.id].choking
    &&& !t.peers[a.id].choking
    &&& t.peers[a.id].assigned == Some(a.block.index)
    &&& s.pieces.needed(a.block.index).contains(a.block)
    &&& t.pieces.needed(a.block.index).contains(a.block)
    &&& !s.peers[a.id].inflight.contains(name_of(a.block))
    &&& t.peers[a.id].inflight.contains(name_of(a.block))
}

/// Every request of a round goes to a peer that does not choke us, for a block of the piece that
/// the peer has assigned which is still needed. The block was not under way from the peer before
/// and is afterwards. After the round no peer is asked for too many blocks, and blocks are
/// fetched from few enough peers.
pub proof fn rounds_ask_for_what_is_needed(s: Swarm, t: Swarm, asks: Seq<Ask>)
    requires
        s.valid(),
        s.filled(t, asks),
    ensures
        forall|k: int| 0 <= k < asks.len() ==> due(s, t, #[trigger] asks[k]),
        t.valid(),
        forall|id: u64| #[trigger]
            t.peers.contains_key(id) ==> t.peers[id].inflight.len() <= MAX_INFLIGHT_PER_PEER,
        t.downloading().len() <= MAX_DOWNLOADING_PEERS,
{
    let (order, picks) = turns_of(s, t, asks);
    round_valid(s, order, picks);
    round_is_due(s, order, picks);
    assert forall|k: int| 0 <= k < asks.len() implies due(s, t, #[trigger] asks[k]) by {
        assert(s.round(order, picks).1[k] == asks[k]);
    }
    assert forall|id: u64| #[trigger] t.peers.contains_key(id) implies t.peers[id].inflight.len()
        <= MAX_INFLIGHT_PER_PEER by {
        assert(t.fits(id, t.peers[id]));
    }
}

/// In its turn a peer is asked for as much as it may be: afterwards as many blocks are under way
/// from it as may be, or every needed block of its piece is. If it had no piece, it gets one that
/// is missing and that it has, unless there is none.
pub proof fn turns_fill_the_window(s: Swarm, id: u64, pick: Option<u32>)
    requires
        s.valid(),
        s.peers.contains_key(id),
        !s.peers[id].choking,
        s.peers[id].assigned is Some || s.downloading().len() < MAX_DOWNLOADING_PEERS,
        s.may_pick(id, pick),
    ensures
        ({
            let p = s.peers[id];
            let (t, asks) = s.turn(id, pick);
            match p.assigned {
                Some(index) => fully_asked(s, t, id, index, asks),
                None => match pick {
                    Some(index) => {
                        &&& index < s.pieces.state.len()
                        &&& s.pieces.state[index as int] is Missing
                        &&& index < p.has.len() && p.has[index as int]
                        &&& fully_asked(s, t, id, index, asks)
                    },
                    None => s.pieces.hashes.len() <= u32::MAX ==> {
                        &&& asks.len() == 0
                        &&& forall|i: int|
                            0 <= i < s.pieces.state.len() && i < p.has.len()
                                && #[trigger] s.pieces.state[i] is Missing ==> !p.has[i]
                    },
                },
            }
        }),
{
    let p = s.peers[id];
    assert(s.fits(id, p));
    if let Some(index) = p.assigned {
        assert(s.with_pieces(s.pieces.reclaimed(index as int)) =~= s);
        continuing_asks(s, id, index);
    } else {
        idle_has_nothing(s, id);
        choices_are_candidates(s.pieces, p.has);
        if let Some(index) = pick {
            assert(s.pieces.candidates(p.has).contains(index));
            let m = s.assigned_to(id, index);
            assert(m.with_pieces(m.pieces.reclaimed(index as int)) =~= m);
            same_needs(s.pieces, m.pieces, index);
            continuing_asks(m, id, index);
        } else if s.pieces.hashes.len() <= u32::MAX {
            assert forall|i: int|
                0 <= i < s.pieces.state.len() && i < p.has.len()
                    && #[trigger] s.pieces.state[i] is Missing implies !p.has[i] by {
                candidates_are_missing(s.pieces, p.has, i as u32);
            }
        }
    }
}

/// Whether as many blocks are under way from a peer as may be, or all that are needed of the
/// piece.
pub open spec fn fully_asked(s: Swarm, t: Swarm, id: u64, index: u32, asks: Seq<Ask>) -> bool {
    ||| s.peers[id].inflight.len() + asks.len() == MAX_INFLIGHT_PER_PEER
    ||| forall|b: BlockRequest| #[trigger]
        s.pieces.needed(index).contains(b) ==> t.peers[id].inflight.contains(name_of(b))
}

/// What is asked of a peer with a piece.
proof fn continuing_asks(s: Swarm, id: u64, index: u32)
    requires
        s.peers.contains_key(id),
        s.peers[id].assigned == Some(index),
        s.pieces.state_of(index as int) is InFlight,
        s.peers[id].inflight.len() <= MAX_INFLIGHT_PER_PEER,
        s.with_pieces(s.pieces.reclaimed(index as int)) == s,
    ensures
        ({
            let (m, blocks) = s.continued(id, index);
            let p = s.peers[id];
            p.inflight.len() + blocks.len() == MAX_INFLIGHT_PER_PEER || p.room() > 0
                && forall|b: BlockRequest| #[trigger]
                s.pieces.needed(index).contains(b) ==> m.asking(id, blocks).peers[id].inflight.contains(
                    name_of(b),
                )
        }),
{
    let p = s.peers[id];
    let needed = s.pieces.needed(index);
    let pred = |b: BlockRequest| !p.inflight.contains(name_of(b));
    let open = needed.filter(pred);
    let (m, blocks) = s.continued(id, index);
    let asked = blocks_to_ask(needed, p.inflight, p.room());
    if asked.len() == 0 {
        assert(blocks =~= Seq::empty());
        assert(asked =~= Seq::empty());
    }
    assert(blocks == asked);
    if open.len() < p.room() {
        assert(open.take(open.len() as int) =~= open);
        let names = blocks.map_values(|b: BlockRequest| name_of(b));
        let after = m.asking(id, blocks).peers[id].inflight;
        assert forall|b: BlockRequest| #[trigger] needed.contains(b) implies after.contains(name_of(b)) by {
            if pred(b) {
                let i = choose|i: int| 0 <= i < needed.len() && needed[i] == b;
                needed.lemma_filter_contains(pred, i);
                let k = choose|k: int| 0 <= k < open.len() && open[k] == b;
                assert(names[k] == name_of(b));
                assert(names_of(blocks).contains(name_of(b)));
            }
        }
    }
}

/// Peers from which blocks are under way get their turns before the others, and among equals
/// those with a piece. Everybody who does not choke us gets a turn, and nobody twice.
pub proof fn busy_peers_come_first(s: Swarm, order: Seq<u64>, i: int, j: int)
    requires
        s.turn_order(order),
        0 <= i < j < order.len(),
    ensures
        order[i] != order[j],
        ({
            let a = s.peers[order[i]];
            let b = s.peers[order[j]];
            &&& b.inflight.len() > 0 ==> a.inflight.len() > 0
            &&& (a.inflight.len() > 0 <==> b.inflight.len() > 0) && b.assigned is Some
                ==> a.assigned is Some
        }),
        forall|id: u64| #[trigger]
            s.peers.contains_key(id) && !s.peers[id].choking ==> order.contains(id),
        !s.peers[order[i]].choking && s.peers.contains_key(order[i]),
{
    assert(order.contains(order[i]));
}

/// The blocks that are needed stay the same when nothing of the assemblies changes.
proof fn same_needs(p: Pieces, q: Pieces, i: u32)
    requires
        q.partial == p.partial,
        q.same_torrent(p),
    ensures
        q.needed(i) == p.needed(i),
{
    assert(q.fresh(i) == p.fresh(i));
    same_outstanding(p, q, i, p.blocks(i as int));
}

/// A turn changes no other peer, and nothing of what has been received.
proof fn turn_leaves_the_rest(s: Swarm, id: u64, pick: Option<u32>)
    ensures
        ({
            let t = s.turn(id, pick).0;
            &&& t.pieces.partial == s.pieces.partial
            &&& t.pieces.same_torrent(s.pieces)
            &&& t.peers.dom() == s.peers.dom()
            &&& forall|a: u64| #[trigger]
                s.peers.contains_key(a) && a != id ==> t.peers[a] == s.peers[a]
            &&& s.peers.contains_key(id) ==> t.peers[id].choking == s.peers[id].choking
        }),
{
    assert(s.turn(id, pick).0.peers.dom() =~= s.peers.dom());
}

/// Every request of a turn is due.
proof fn turn_is_due(s: Swarm, id: u64, pick: Option<u32>, k: int)
    requires
        s.valid(),
        s.eligible(id) ==> s.may_pick(id, pick),
        0 <= k < s.turn(id, pick).1.len(),
    ensures
        s.turn(id, pick).1[k].id == id,
        due(s, s.turn(id, pick).0, s.turn(id, pick).1[k]),
{
    let (t, asks) = s.turn(id, pick);
    let a = asks[k];
    let p = s.peers[id];
    turns_ask_for_what_is_needed(s, id, pick, k);
    turn_leaves_the_rest(s, id, pick);
    same_needs(s.pieces, t.pieces, a.block.index);
    let (m, blocks) = s.planned(id, pick);
    assert(a.block == blocks[k]);
    let names = blocks.map_values(|b: BlockRequest| name_of(b));
    assert(names[k] == name_of(a.block));
    assert(names_of(blocks).contains(name_of(a.block)));
    assert(m.peers.contains_key(id));
    assert(m.peers[id].assigned == Some(a.block.index));
    assert(t.peers[id].inflight == m.peers[id].inflight.union(names_of(blocks)));
}

/// Every request of the turns of different peers is due.
proof fn round_is_due(s: Swarm, order: Seq<u64>, picks: Seq<Option<u32>>)
    requires
        s.valid(),
        s.may_pick_all(order, picks),
        order.no_duplicates(),
    ensures
        ({
            let (t, asks) = s.round(order, picks);
            &&& t.pieces.partial == s.pieces.partial
            &&& t.pieces.same_torrent(s.pieces)
            &&& t.peers.dom() == s.peers.dom()
            &&& forall|a: u64| #[trigger]
                s.peers.contains_key(a) && !order.contains(a) ==> t.peers[a] == s.peers[a]
            &&& forall|k: int|
                0 <= k < asks.len() ==> order.contains((#[trigger] asks[k]).id) && due(
                    s,
                    t,
                    asks[k],
                )
        }),
    decreases order.len(),
{
    if order.len() > 0 {
        let rest = order.drop_last();
        let id = order.last();
        let pick = picks.last();
        round_is_due(s, rest, picks.drop_last());
        round_valid(s, rest, picks.drop_last());
        let (m, first) = s.round(rest, picks.drop_last());
        let (t, more) = m.turn(id, pick);
        let asks = first + more;
        assert(rest.push(id) =~= order);
        push_contains(rest, id);
        assert(!rest.contains(id)) by {
            if rest.contains(id) {
                let j = choose|j: int| 0 <= j < rest.len() && rest[j] == id;
                assert(order[j] == order[order.len() - 1]);
            }
        }
        turn_leaves_the_rest(m, id, pick);
        assert forall|a: u64| #[trigger]
            s.peers.contains_key(a) && !order.contains(a) implies t.peers[a] == s.peers[a] by {
            assert(!rest.contains(a));
            assert(m.peers.contains_key(a));
        }
        assert forall|k: int| 0 <= k < asks.len() implies order.contains((#[trigger] asks[k]).id)
            && due(s, t, asks[k]) by {
            let a = asks[k];
            same_needs(s.pieces, m.pieces, a.block.index);
            same_needs(m.pieces, t.pieces, a.block.index);
            if k < first.len() {
                assert(a == first[k]);
                assert(due(s, m, a));
                assert(a.id != id);
            } else {
                assert(a == more[k - first.len()]);
                turn_is_due(m, id, pick, k - first.len());
                assert(s.peers.contains_key(id));
                assert(m.peers[id] == s.peers[id]);
            }
        }
    }
}

} // verus!
