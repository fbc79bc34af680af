//! What the availability of pieces counts.

use vstd::prelude::*;

use crate::piece::{choices_are_candidates, holds};
use crate::swarm::{Deed, Event, Peer, Swarm};
use crate::swarm_laws::first_step_valid;
use crate::swarm_valid::{reaction_of, turn_valid};

verus! {

/// The peers that have piece `i`.
pub open spec fn owners(s: Swarm, i: int) -> Set<u64> {
    s.peers.dom().filter(|id: u64| holds(s.peers[id].has, i))
}

/// Whether the availability of every piece is the number of peers that have it.
pub open spec fn counted(s: Swarm) -> bool {
    forall|i: int|
        0 <= i < s.pieces.availability.len() ==> #[trigger] s.pieces.availability[i] == owners(
            s,
            i,
        ).len()
}

/// Whether the same peers have the same pieces.
pub open spec fn same_owners(s: Swarm, t: Swarm) -> bool {
    &&& s.pieces.availability == t.pieces.availability
    &&& s.peers.dom() == t.peers.dom()
    &&& forall|id: u64| #[trigger] t.peers.contains_key(id) ==> t.peers[id].has == s.peers[id].has
}

proof fn same_owners_counted(s: Swarm, t: Swarm)
    requires
        same_owners(s, t),
        counted(s),
    ensures
        counted(t),
{
    assert forall|i: int| 0 <= i < t.pieces.availability.len() implies #[trigger] t.pieces.availability[i]
        == owners(t, i).len() by {
        assert(s.pieces.availability[i] == owners(s, i).len());
        assert(owners(t, i) =~= owners(s, i)) by {
            assert forall|id: u64| owners(t, i).contains(id) == owners(s, i).contains(id) by {
                assert(s.peers.dom().contains(id) == t.peers.contains_key(id));
            }
        }
    }
}

proof fn turn_keeps_owners(s: Swarm, id: u64, pick: Option<u32>)
    requires
        s.valid(),
        s.eligible(id) ==> s.may_pick(id, pick),
    ensures
        same_owners(s, s.turn(id, pick).0),
{
    if s.eligible(id) {
        if s.peers[id].assigned is None && pick is Some && s.peers[id].room() > 0 {
            choices_are_candidates(s.pieces, s.peers[id].has);
            assert(s.pieces.candidates(s.peers[id].has).contains(pick->0));
        }
    }
    assert(s.turn(id, pick).0.peers.dom() =~= s.peers.dom());
}

proof fn round_keeps_owners(s: Swarm, order: Seq<u64>, picks: Seq<Option<u32>>)
    requires
        s.valid(),
        s.may_pick_all(order, picks),
    ensures
        s.round(order, picks).0.valid(),
        same_owners(s, s.round(order, picks).0),
    decreases order.len(),
{
    if order.len() > 0 {
        round_keeps_owners(s, order.drop_last(), picks.drop_last());
        let m = s.round(order.drop_last(), picks.drop_last()).0;
        turn_keeps_owners(m, order.last(), picks.last());
        turn_valid(m, order.last(), picks.last());
    }
}

/// There are no more owners of a piece than peers.
proof fn owners_are_peers(s: Swarm, i: int)
    requires
        s.peers.dom().finite(),
    ensures
        owners(s, i).finite(),
        owners(s, i).len() <= s.peers.dom().len(),
{
    assert(owners(s, i).subset_of(s.peers.dom()));
    vstd::set_lib::lemma_len_subset(owners(s, i), s.peers.dom());
}

proof fn event_counted(s: Swarm, e: Event)
    requires
        s.valid(),
        counted(s),
        s.peers.dom().len() < u16::MAX,
    ensures
        counted(s.after(e)),
{
    let t = s.after(e);
    match e {
        Event::Disconnected { id } => {
            if s.peers.contains_key(id) {
                assert forall|i: int| 0 <= i < t.pieces.availability.len() implies #[trigger] t.pieces.availability[i]
                    == owners(t, i).len() by {
                    assert(s.pieces.availability[i] == owners(s, i).len());
                    owners_are_peers(s, i);
                    assert(owners(t, i) =~= owners(s, i).remove(id));
                }
            }
        },
        Event::Bitfield { id, bits } => {
            if s.peers.contains_key(id) {
                assert forall|i: int| 0 <= i < t.pieces.availability.len() implies #[trigger] t.pieces.availability[i]
                    == owners(t, i).len() by {
                    assert(s.pieces.availability[i] == owners(s, i).len());
                    owners_are_peers(s, i);
                    if holds(bits, i) {
                        assert(owners(t, i) =~= owners(s, i).insert(id));
                    } else {
                        assert(owners(t, i) =~= owners(s, i).remove(id));
                    }
                }
            }
        },
        Event::Have { id, index } => {
            if s.peers.contains_key(id) {
                assert forall|i: int| 0 <= i < t.pieces.availability.len() implies #[trigger] t.pieces.availability[i]
                    == owners(t, i).len() by {
                    assert(s.pieces.availability[i] == owners(s, i).len());
                    owners_are_peers(s, i);
                    if i == index && i < s.peers[id].has.len() {
                        assert(owners(t, i) =~= owners(s, i).insert(id));
                    } else {
                        assert(owners(t, i) =~= owners(s, i));
                    }
                }
            }
        },
        _ => {
            assert(t.peers.dom() =~= s.peers.dom());
            same_owners_counted(s, t);
        },
    }
}

/// The availability of a piece stays the number of peers that have it, whatever peers do or say,
/// as long as the peers are not too many to count.
pub proof fn availability_counts_peers(s: Swarm, e: Event, t: Swarm, deeds: Seq<Deed>)
    requires
        s.valid(),
        s.reacts(e, t, deeds),
        e matches Event::BlockReceived { index, begin, data, .. } ==> s.pieces.takes(
            index,
            begin,
            data,
        ),
        counted(s),
        s.peers.dom().len() < u16::MAX,
    ensures
        counted(t),
{
    let (_, _, turns, picks) = reaction_of(s, e, t, deeds);
    let m = s.after(e);
    event_counted(s, e);
    first_step_valid(s, e);
    if e.refills() {
        round_keeps_owners(m, turns, picks);
        same_owners_counted(m, t);
    }
}

/// While nobody is there, no piece is available.
pub proof fn nobody_has_anything(s: Swarm)
    requires
        s.peers == Map::<u64, Peer>::empty(),
        forall|i: int|
            0 <= i < s.pieces.availability.len() ==> #[trigger] s.pieces.availability[i] == 0,
    ensures
        counted(s),
{
    assert forall|i: int| 0 <= i < s.pieces.availability.len() implies #[trigger] s.pieces.availability[i]
        == owners(s, i).len() by {
        assert(owners(s, i) =~= Set::empty());
    }
}

/// A peer that just came has no piece, so it counts for none.
pub proof fn newcomers_count_for_nothing(s: Swarm, num_pieces: nat)
    requires
        s.valid(),
        0 <= s.next_id <= u64::MAX,
        counted(s),
    ensures
        counted(s.with_newcomer(num_pieces)),
{
    let t = s.with_newcomer(num_pieces);
    let id = s.next_id as u64;
    assert(!s.peers.contains_key(id)) by {
        if s.peers.contains_key(id) {
            assert(s.fits(id, s.peers[id]));
        }
    }
    assert forall|i: int| 0 <= i < t.pieces.availability.len() implies #[trigger] t.pieces.availability[i]
        == owners(t, i).len() by {
        assert(s.pieces.availability[i] == owners(s, i).len());
        assert(owners(t, i) =~= owners(s, i));
    }
}

/// Choking and unchoking peers changes nothing about what they have.
pub proof fn choke_ticks_keep_availability(s: Swarm, t: Swarm, deeds: Seq<Deed>)
    requires
        s.chokes(t, deeds),
        counted(s),
    ensures
        counted(t),
{
    assert(t.peers.dom() =~= s.peers.dom());
    same_owners_counted(s, t);
}

} // verus!
