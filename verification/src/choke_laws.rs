//! What a choke tick is for: the generous are repaid, and every few ticks another gets a chance.

use vstd::prelude::*;

use crate::coordinator::{OPTIMISTIC_EVERY, UNCHOKE_SLOTS};
use crate::peer::connection::Command;
use crate::sequences::push_contains;
use crate::swarm::{Deed, Swarm};

verus! {

/// Whether a peer is there and interested in us.
pub open spec fn wants(s: Swarm, id: u64) -> bool {
    s.peers.contains_key(id) && s.peers[id].interested
}

/// Whether `top` are interested peers that gave the most: as many as there are slots, or all of
/// them if they are fewer, and nobody else who is interested gave more than one of them.
pub open spec fn most_generous(s: Swarm, top: Set<u64>) -> bool {
    &&& top.finite()
    &&& top.len() <= UNCHOKE_SLOTS
    &&& forall|id: u64| #[trigger] top.contains(id) ==> wants(s, id)
    &&& top.len() < UNCHOKE_SLOTS ==> forall|id: u64| #[trigger] wants(s, id) ==> top.contains(id)
    &&& forall|a: u64, b: u64| #[trigger]
        top.contains(a) && #[trigger] wants(s, b) && !top.contains(b) ==> s.peers[b].window
            <= s.peers[a].window
}

/// Whether exactly the peers of `top`, and `extra` if it is one of the peers, are unchoked.
pub open spec fn only_unchoked(t: Swarm, top: Set<u64>, extra: Option<u64>) -> bool {
    forall|id: u64| #[trigger]
        t.peers.contains_key(id) ==> (!t.peers[id].am_choking <==> top.contains(id) || extra
            == Some(id))
}

/// Whether an interested peer is left that is not among `top`.
pub open spec fn others_want(s: Swarm, top: Set<u64>) -> bool {
    exists|b: u64| #[trigger] wants(s, b) && !top.contains(b)
}

/// After every choke tick the most generous interested peers are unchoked. At every tick whose
/// number is a multiple of `OPTIMISTIC_EVERY`, if another peer is interested, exactly one more is
/// unchoked, which is interested and not among the most generous, and which is the optimistic one
/// from then on, whoever it was before. In between the optimistic one stays, and stays unchoked
/// as long as it is there.
pub proof fn generous_peers_are_repaid(s: Swarm, t: Swarm, deeds: Seq<Deed>) -> (top: Set<u64>)
    requires
        s.valid(),
        s.chokes(t, deeds),
    ensures
        t.ticks == s.ticks + 1,
        most_generous(s, top),
        (s.ticks + 1) % (OPTIMISTIC_EVERY as int) == 0 && others_want(s, top) ==> {
            &&& t.optimistic is Some
            &&& wants(s, t.optimistic->0)
            &&& !top.contains(t.optimistic->0)
            &&& only_unchoked(t, top, t.optimistic)
        },
        (s.ticks + 1) % (OPTIMISTIC_EVERY as int) == 0 && !others_want(s, top) ==> {
            &&& t.optimistic == s.optimistic
            &&& only_unchoked(t, top, None)
        },
        (s.ticks + 1) % (OPTIMISTIC_EVERY as int) != 0 ==> {
            &&& t.optimistic == s.optimistic
            &&& only_unchoked(t, top, s.optimistic)
        },
{
    let (top, pick, order) = choose|top: Set<u64>, pick: Option<u64>, order: Seq<u64>|
        #![trigger s.best(top), s.may_unchoke(top, pick), s.peer_order(order)]
        s.best(top) && s.may_unchoke(top, pick) && s.peer_order(order) && t == (Swarm {
            ticks: s.ticks + 1,
            optimistic: s.next_optimistic(pick),
            ..s.unchoking(s.to_unchoke(top, pick))
        }) && deeds == s.choke_deeds(s.to_unchoke(top, pick), order);
    let all = s.interested();
    assert(all.subset_of(s.peers.dom()));
    vstd::set_lib::lemma_len_subset(all, s.peers.dom());
    vstd::set_lib::lemma_len_subset(top, all);
    assert forall|id: u64| #[trigger] wants(s, id) <==> all.contains(id) by {}
    assert forall|id: u64| #[trigger] top.contains(id) implies wants(s, id) by {
        assert(all.contains(id));
    }
    if top.len() < UNCHOKE_SLOTS {
        vstd::set_lib::lemma_subset_equality(top, all);
        assert(top =~= all);
        assert forall|id: u64| #[trigger] wants(s, id) implies top.contains(id) by {
            assert(all.contains(id));
        }
    }
    assert forall|a: u64, b: u64| #[trigger]
        top.contains(a) && #[trigger] wants(s, b) && !top.contains(b) implies s.peers[b].window
        <= s.peers[a].window by {
        assert(all.contains(b));
    }
    let rest = all.difference(top);
    if others_want(s, top) {
        let b = choose|b: u64| #[trigger] wants(s, b) && !top.contains(b);
        assert(all.contains(b));
        assert(rest.contains(b));
        vstd::set_lib::lemma_len_subset(rest, all);
        assert(rest.len() != 0) by {
            if rest.len() == 0 {
                assert(rest =~= Set::empty());
            }
        }
    } else if let Some(x) = pick {
        if s.optimistic_tick() {
            assert(rest.contains(x));
            assert(wants(s, x) && !top.contains(x));
        }
    }
    top
}

/// After a choke tick nobody is unchoked who is not interested, but for the optimistic peer in
/// between: nobody keeps a slot by having had it.
pub proof fn slots_are_not_kept(s: Swarm, t: Swarm, deeds: Seq<Deed>, id: u64)
    requires
        s.valid(),
        s.chokes(t, deeds),
        t.peers.contains_key(id),
        !t.peers[id].am_choking,
    ensures
        wants(s, id) || s.optimistic == Some(id),
{
    let top = generous_peers_are_repaid(s, t, deeds);
    assert(top.contains(id) ==> wants(s, id));
}

/// A choke tick changes nothing else: the peers, what they have and what is asked of them stay,
/// what they gave is counted anew, and the pieces and the other counts stay.
pub proof fn choke_ticks_change_nothing_else(s: Swarm, t: Swarm, deeds: Seq<Deed>)
    requires
        s.chokes(t, deeds),
    ensures
        t.pieces == s.pieces,
        t.next_id == s.next_id,
        t.uploaded == s.uploaded,
        forall|id: u64| #[trigger] t.peers.contains_key(id) <==> s.peers.contains_key(id),
        forall|id: u64| #[trigger]
            t.peers.contains_key(id) ==> {
                &&& t.peers[id].window == 0
                &&& t.peers[id].has == s.peers[id].has
                &&& t.peers[id].choking == s.peers[id].choking
                &&& t.peers[id].interested == s.peers[id].interested
                &&& t.peers[id].inflight == s.peers[id].inflight
                &&& t.peers[id].assigned == s.peers[id].assigned
            },
{
}

/// At a choke tick peers are told that they are choked or unchoked and nothing else, each at most
/// once.
pub proof fn choke_ticks_tell_nothing_else(s: Swarm, t: Swarm, deeds: Seq<Deed>)
    requires
        s.chokes(t, deeds),
    ensures
        deeds.no_duplicates(),
        forall|k: int|
            0 <= k < deeds.len() ==> match #[trigger] deeds[k] {
                Deed::Send(id, Command::Choke) => s.peers.contains_key(id)
                    && !s.peers[id].am_choking && t.peers[id].am_choking,
                Deed::Send(id, Command::Unchoke) => s.peers.contains_key(id)
                    && s.peers[id].am_choking && !t.peers[id].am_choking,
                _ => false,
            },
{
    let (top, pick, order) = choose|top: Set<u64>, pick: Option<u64>, order: Seq<u64>|
        #![trigger s.best(top), s.may_unchoke(top, pick), s.peer_order(order)]
        s.best(top) && s.may_unchoke(top, pick) && s.peer_order(order) && t == (Swarm {
            ticks: s.ticks + 1,
            optimistic: s.next_optimistic(pick),
            ..s.unchoking(s.to_unchoke(top, pick))
        }) && deeds == s.choke_deeds(s.to_unchoke(top, pick), order);
    let chosen = s.to_unchoke(top, pick);
    told_once(s, chosen, order);
    assert forall|k: int| 0 <= k < deeds.len() implies match #[trigger] deeds[k] {
        Deed::Send(id, Command::Choke) => s.peers.contains_key(id) && !s.peers[id].am_choking
            && t.peers[id].am_choking,
        Deed::Send(id, Command::Unchoke) => s.peers.contains_key(id) && s.peers[id].am_choking
            && !t.peers[id].am_choking,
        _ => false,
    } by {
        assert(s.choke_deeds(chosen, order)[k] == deeds[k]);
        if let Deed::Send(id, _) = deeds[k] {
            assert(order.contains(id));
        }
    }
}

proof fn told_once(s: Swarm, chosen: Set<u64>, order: Seq<u64>)
    requires
        order.no_duplicates(),
    ensures
        s.choke_deeds(chosen, order).no_duplicates(),
        forall|k: int|
            0 <= k < s.choke_deeds(chosen, order).len() ==> match #[trigger] s.choke_deeds(
                chosen,
                order,
            )[k] {
                Deed::Send(id, Command::Choke) => order.contains(id) && !chosen.contains(id)
                    && !s.peers[id].am_choking,
                Deed::Send(id, Command::Unchoke) => order.contains(id) && chosen.contains(id)
                    && s.peers[id].am_choking,
                _ => false,
            },
    decreases order.len(),
{
    if order.len() > 0 {
        let rest = order.drop_last();
        let x = order.last();
        told_once(s, chosen, rest);
        assert(rest.push(x) =~= order);
        push_contains(rest, x);
        assert(!rest.contains(x)) by {
            if rest.contains(x) {
                let j = choose|j: int| 0 <= j < rest.len() && rest[j] == x;
                assert(order[j] == order[order.len() - 1]);
            }
        }
        let first = s.choke_deeds(chosen, rest);
        let all = s.choke_deeds(chosen, order);
        assert forall|k: int| 0 <= k < all.len() implies match #[trigger] all[k] {
            Deed::Send(id, Command::Choke) => order.contains(id) && !chosen.contains(id)
                && !s.peers[id].am_choking,
            Deed::Send(id, Command::Unchoke) => order.contains(id) && chosen.contains(id)
                && s.peers[id].am_choking,
            _ => false,
        } by {
            if k < first.len() {
                assert(all[k] == first[k]);
                if let Deed::Send(id, _) = first[k] {
                    assert(rest.push(x).contains(id));
                }
            } else {
                assert(rest.push(x).contains(x));
            }
        }
        assert forall|i: int, j: int| 0 <= i < j < all.len() implies all[i] != all[j] by {
            assert(all[i] == first[i]);
            if j < first.len() {
                assert(all[j] == first[j]);
            } else if first[i] == all[j] {
                if let Deed::Send(id, _) = first[i] {
                    assert(rest.contains(id) && id == x);
                }
            }
        }
    }
}

} // verus!
