//! Which peers are given blocks.

use vstd::prelude::*;

use crate::coordinator::{does_all, Action, Coordinator, OPTIMISTIC_EVERY, UNCHOKE_SLOTS};
use crate::peer::connection::{CmdMsg, PeerId};
use crate::random::choose_one;
use crate::sequences::push_contains;
use crate::swarm::{Deed, Peer, Swarm};
use crate::swarm_valid::{counters_valid, unchoking_valid};

verus! {

/// Whether `x` is among items.
fn contains_id(items: &Vec<u64>, x: u64) -> (res: bool)
    ensures
        res == items@.contains(x),
{
    let mut i: usize = 0;
    while i < items.len()
        invariant
            i <= items@.len(),
            forall|k: int| 0 <= k < i ==> #[trigger] items@[k] != x,
        decreases items.len() - i,
    {
        if items[i] == x {
            assert(items@[i as int] == x);
            return true;
        }
        i += 1;
    }
    false
}

impl Coordinator {
    /// The interested peers that are not among `top`.
    fn interested_but(&self, top: &Vec<PeerId>) -> (rest: Vec<PeerId>)
        ensures
            rest@.no_duplicates(),
            forall|id: u64| #[trigger]
                rest@.contains(id) <==> self@.interested().contains(id) && !top@.contains(id),
    {
        let ids: Vec<PeerId> = self.ids();
        let mut rest: Vec<PeerId> = Vec::new();
        let mut i: usize = 0;
        while i < ids.len()
            invariant
                i <= ids@.len(),
                ids@.no_duplicates(),
                forall|id: u64| #[trigger] ids@.contains(id) <==> self.peers@.contains_key(id),
                rest@.no_duplicates(),
                forall|id: u64| #[trigger]
                    rest@.contains(id) <==> self@.interested().contains(id) && !top@.contains(id)
                        && ids@.take(i as int).contains(id),
            decreases ids.len() - i,
        {
            let id: PeerId = ids[i];
            let ghost known = rest@;
            let ghost sofar = ids@.take(i as int);
            proof {
                assert(ids@.contains(id));
                assert(ids@.take(i + 1) =~= sofar.push(id));
                push_contains(sofar, id);
                push_contains(known, id);
                assert(!sofar.contains(id)) by {
                    if sofar.contains(id) {
                        let k = choose|k: int| 0 <= k < sofar.len() && sofar[k] == id;
                        assert(ids@[k] == ids@[i as int]);
                    }
                }
            }
            if let Some(p) = self.peers.get(&id) {
                assert(self@.peers[id] == p@);
                if p.peer_interested && !contains_id(top, id) {
                    assert(!known.contains(id));
                    rest.push(id);
                    assert(rest@ =~= known.push(id));
                }
            }
            assert forall|x: u64| #[trigger]
                rest@.contains(x) <==> self@.interested().contains(x) && !top@.contains(x)
                    && ids@.take(i + 1).contains(x) by {
                assert(sofar.push(id).contains(x) <==> x == id || sofar.contains(x));
                assert(known.contains(x) <==> self@.interested().contains(x) && !top@.contains(x)
                    && sofar.contains(x));
                assert(known.push(id).contains(x) <==> x == id || known.contains(x));
            }
            i += 1;
        }
        proof {
            assert(ids@.take(i as int) =~= ids@);
            assert forall|id: u64| #[trigger]
                rest@.contains(id) <==> self@.interested().contains(id) && !top@.contains(id) by {
                if self@.interested().contains(id) {
                    assert(ids@.contains(id));
                }
            }
        }
        rest
    }

    /// The one of some peers that gave the most since the last tick.
    fn most_generous(&self, rest: &Vec<PeerId>) -> (best: PeerId)
        requires
            rest@.len() > 0,
            forall|id: u64| #[trigger] rest@.contains(id) ==> self.peers@.contains_key(id),
        ensures
            rest@.contains(best),
            forall|id: u64| #[trigger]
                rest@.contains(id) ==> self@.peers[id].window <= self@.peers[best].window,
    {
        let mut best: PeerId = rest[0];
        let mut most: u64 = 0;
        let mut i: usize = 0;
        while i < rest.len()
            invariant
                i <= rest@.len(),
                rest@.len() > 0,
                forall|id: u64| #[trigger] rest@.contains(id) ==> self.peers@.contains_key(id),
                rest@.contains(best),
                i > 0 ==> most == self@.peers[best].window,
                i == 0 ==> best == rest@[0],
                forall|k: int|
                    0 <= k < i ==> self@.peers[#[trigger] rest@[k]].window <= most,
            decreases rest.len() - i,
        {
            let id: PeerId = rest[i];
            assert(rest@.contains(id));
            if let Some(p) = self.peers.get(&id) {
                assert(self@.peers[id] == p@);
                if i == 0 || p.downloaded_window > most {
                    best = id;
                    most = p.downloaded_window;
                }
            }
            i += 1;
        }
        proof {
            assert forall|id: u64| #[trigger] rest@.contains(id) implies self@.peers[id].window
                <= self@.peers[best].window by {
                let k = choose|k: int| 0 <= k < rest@.len() && rest@[k] == id;
                assert(self@.peers[rest@[k]].window <= most);
            }
        }
        best
    }

    /// The interested peers that gave the most since the last tick, as many as there are slots
    /// for.
    pub fn best_peers(&self) -> (top: Vec<PeerId>)
        requires
            self.well_formed(),
        ensures
            top@.no_duplicates(),
            self@.best(top@.to_set()),
    {
        let ghost all = self@.interested();
        let mut top: Vec<PeerId> = Vec::new();
        let mut done: bool = false;
        while top.len() < UNCHOKE_SLOTS && !done
            invariant
                self.well_formed(),
                all == self@.interested(),
                top@.no_duplicates(),
                top@.len() <= UNCHOKE_SLOTS,
                forall|id: u64| #[trigger] top@.contains(id) ==> all.contains(id),
                forall|a: u64, b: u64| #[trigger]
                    top@.contains(a) && #[trigger] all.contains(b) && !top@.contains(b)
                        ==> self@.peers[b].window <= self@.peers[a].window,
                done ==> forall|b: u64| #[trigger] all.contains(b) ==> top@.contains(b),
            decreases UNCHOKE_SLOTS - top.len() + (if done {
                0int
            } else {
                1int
            }),
        {
            let rest: Vec<PeerId> = self.interested_but(&top);
            if rest.len() == 0 {
                proof {
                    assert forall|b: u64| #[trigger] all.contains(b) implies top@.contains(b) by {
                        if !top@.contains(b) {
                            assert(rest@.contains(b));
                        }
                    }
                }
                done = true;
            } else {
                let ghost known = top@;
                let id: PeerId = self.most_generous(&rest);
                assert(!known.contains(id));
                top.push(id);
                proof {
                    assert(top@ =~= known.push(id));
                    push_contains(known, id);
                    assert forall|a: u64, b: u64| #[trigger]
                        top@.contains(a) && #[trigger] all.contains(b) && !top@.contains(
                            b,
                        ) implies self@.peers[b].window <= self@.peers[a].window by {
                        assert(known.push(id).contains(a) <==> a == id || known.contains(a));
                        assert(known.push(id).contains(b) <==> b == id || known.contains(b));
                        assert(rest@.contains(b));
                        assert(rest@.contains(id));
                    }
                }
            }
        }
        proof {
            let chosen = top@.to_set();
            top@.unique_seq_to_set();
            assert forall|id: u64| chosen.contains(id) implies all.contains(id) by {
                assert(top@.contains(id));
            }
            assert(chosen.subset_of(all));
            vstd::set_lib::lemma_len_subset(chosen, all);
            if top@.len() < UNCHOKE_SLOTS {
                assert forall|b: u64| all.contains(b) implies chosen.contains(b) by {
                    assert(top@.contains(b));
                }
                assert(chosen =~= all);
            }
            assert forall|a: u64, b: u64| #[trigger]
                chosen.contains(a) && #[trigger] self@.interested().contains(b) && !chosen.contains(
                    b,
                ) implies self@.peers[b].window <= self@.peers[a].window by {
                assert(top@.contains(a));
                assert(!top@.contains(b));
            }
        }
        top
    }

    /// Unchokes the chosen peers and chokes all others, and counts what peers give anew. Only
    /// peers for which something changes are told.
    pub fn apply_chokes(&mut self, chosen: &Vec<PeerId>) -> (actions: Vec<Action>)
        requires
            old(self).well_formed(),
        ensures
            final(self).well_formed(),
            final(self).same_frame(old(self)),
            final(self).pieces == old(self).pieces,
            final(self)@ == old(self)@.unchoking(chosen@.to_set()),
            exists|order: Seq<u64>| #[trigger]
                old(self)@.peer_order(order) && does_all(
                    actions@,
                    old(self).storage,
                    old(self)@.choke_deeds(chosen@.to_set(), order),
                ),
    {
        let ghost before = self@;
        let ghost exec_before = self.peers@;
        let ghost storage = self.storage;
        let ghost set = chosen@.to_set();
        let ghost goal = before.unchoking(set);
        let ids: Vec<PeerId> = self.ids();
        let mut actions: Vec<Action> = Vec::new();
        let mut i: usize = 0;
        assert(ids@.take(0) =~= Seq::empty());
        while i < ids.len()
            invariant
                i <= ids@.len(),
                ids@.no_duplicates(),
                before == old(self)@,
                exec_before == old(self).peers@,
                storage == old(self).storage,
                set == chosen@.to_set(),
                goal == before.unchoking(set),
                forall|id: u64| #[trigger] ids@.contains(id) <==> exec_before.contains_key(id),
                self.pieces == old(self).pieces,
                self.same_frame(old(self)),
                self@ == (Swarm { peers: self@.peers, ..before }),
                self.peers@.dom() == exec_before.dom(),
                forall|id: u64| #[trigger]
                    self.peers@.contains_key(id) ==> self.peers@[id].well_formed()
                        && self.peers@[id]@ == (if ids@.take(i as int).contains(id) {
                        goal.peers[id]
                    } else {
                        before.peers[id]
                    }),
                does_all(actions@, storage, before.choke_deeds(set, ids@.take(i as int))),
            decreases ids.len() - i,
        {
            let id: PeerId = ids[i];
            let ghost sofar = ids@.take(i as int);
            let ghost upto = ids@.take(i + 1);
            let ghost peers_before = self.peers@;
            let ghost shown = actions@;
            let ghost less = before.choke_deeds(set, sofar);
            proof {
                assert(ids@.contains(id));
                assert(upto =~= sofar.push(id));
                assert(upto.drop_last() =~= sofar);
                assert(upto.last() == id);
                push_contains(sofar, id);
                assert(!sofar.contains(id)) by {
                    if sofar.contains(id) {
                        let k = choose|k: int| 0 <= k < sofar.len() && sofar[k] == id;
                        assert(ids@[k] == ids@[i as int]);
                    }
                }
            }
            if let Some(mut p) = self.peers.remove(&id) {
                let ghost known = p@;
                assert(known == before.peers[id]);
                let should_unchoke: bool = contains_id(chosen, id);
                if should_unchoke && p.am_choking {
                    p.am_choking = false;
                    actions.push(Action::Send { id, cmd: CmdMsg::Unchoke });
                } else if !should_unchoke && !p.am_choking {
                    p.am_choking = true;
                    actions.push(Action::Send { id, cmd: CmdMsg::Choke });
                }
                p.downloaded_window = 0;
                proof {
                    assert(p@ =~= Peer { am_choking: !set.contains(id), window: 0, ..known });
                    assert(goal.peers[id] == p@);
                    let all = before.choke_deeds(set, upto);
                    assert forall|k: int| 0 <= k < all.len() implies (#[trigger] actions@[k]).does(
                        storage,
                        all[k],
                    ) by {
                        if k < shown.len() {
                            assert(actions@[k] == shown[k]);
                            assert(shown[k].does(storage, less[k]));
                            assert(all[k] == less[k]);
                        }
                    }
                }
                self.put(id, p);
                proof {
                    assert(self.peers@.dom() =~= exec_before.dom());
                    assert forall|x: u64| #[trigger] self.peers@.contains_key(x) implies self.peers@[x].well_formed()
                        && self.peers@[x]@ == (if upto.contains(x) {
                        goal.peers[x]
                    } else {
                        before.peers[x]
                    }) by {
                        assert(sofar.push(id).contains(x) <==> x == id || sofar.contains(x));
                        if x != id {
                            assert(self.peers@[x] == peers_before[x]);
                            assert(peers_before.contains_key(x));
                        }
                    }
                }
            }
            i += 1;
        }
        proof {
            assert(ids@.take(i as int) =~= ids@);
            assert forall|id: u64| self@.peers.contains_key(id) implies self@.peers[id]
                == goal.peers[id] by {
                assert(self.peers@.contains_key(id));
                assert(ids@.contains(id));
            }
            assert(self@.peers =~= goal.peers);
            assert(self@ =~= goal);
            unchoking_valid(before, set);
            assert(before.peer_order(ids@));
        }
        actions
    }

    /// Decides at a choke tick which peers are given blocks: the interested peers that gave the
    /// most since the last tick, and one more that is picked at random every few ticks.
    pub fn run_choke_algorithm(&mut self) -> (actions: Vec<Action>)
        requires
            old(self).well_formed(),
            old(self)@.ticks < u32::MAX,
        ensures
            final(self).well_formed(),
            final(self).same_frame(old(self)),
            final(self).pieces == old(self).pieces,
            exists|deeds: Seq<Deed>| #[trigger]
                old(self)@.chokes(final(self)@, deeds) && does_all(
                    actions@,
                    old(self).storage,
                    deeds,
                ),
    {
        let ghost before = self@;
        let ghost storage = self.storage;
        let top: Vec<PeerId> = self.best_peers();
        let ghost best = top@.to_set();
        self.choke_ticks += 1;
        let do_optimistic: bool = self.choke_ticks % OPTIMISTIC_EVERY == 0;
        let mut chosen: Vec<PeerId> = top;
        let mut pick: Option<PeerId> = None;
        if do_optimistic {
            let rest: Vec<PeerId> = self.interested_but(&chosen);
            pick = choose_one(&rest);
            proof {
                let others = before.interested().difference(best);
                assert(self@.interested() =~= before.interested());
                assert forall|x: u64| others.contains(x) == rest@.contains(x) by {
                    assert(rest@.contains(x) <==> self@.interested().contains(x) && !chosen@.contains(
                        x,
                    ));
                }
                if rest@.len() == 0 {
                    assert(others =~= Set::empty());
                }
            }
            if let Some(id) = pick {
                self.optimistic_unchoke = Some(id);
                chosen.push(id);
            }
        } else if let Some(id) = self.optimistic_unchoke {
            if self.peers.contains_key(&id) {
                chosen.push(id);
            }
        }
        let ghost counted = self@;
        proof {
            counters_valid(before, counted);
            assert(before.may_unchoke(best, pick));
            let set = before.to_unchoke(best, pick);
            if chosen@.len() > top@.len() {
                let x = chosen@.last();
                push_contains(top@, x);
                assert(chosen@ =~= top@.push(x));
                assert forall|y: u64| chosen@.to_set().contains(y) == set.contains(y) by {
                    assert(top@.push(x).contains(y) <==> y == x || top@.contains(y));
                }
            }
            assert(chosen@.to_set() =~= set);
        }
        let actions: Vec<Action> = self.apply_chokes(&chosen);
        proof {
            let set = before.to_unchoke(best, pick);
            let order = choose|order: Seq<u64>| #[trigger]
                counted.peer_order(order) && does_all(
                    actions@,
                    storage,
                    counted.choke_deeds(set, order),
                );
            assert(before.peer_order(order));
            same_choke_deeds(before, counted, set, order);
            assert(self@ =~= Swarm {
                ticks: before.ticks + 1,
                optimistic: before.next_optimistic(pick),
                ..before.unchoking(set)
            });
            assert(before.chokes(self@, before.choke_deeds(set, order)));
        }
        actions
    }
}

/// What peers are told depends on what is known of them alone.
proof fn same_choke_deeds(s: Swarm, t: Swarm, chosen: Set<u64>, order: Seq<u64>)
    requires
        s.peers == t.peers,
    ensures
        s.choke_deeds(chosen, order) == t.choke_deeds(chosen, order),
    decreases order.len(),
{
    if order.len() > 0 {
        same_choke_deeds(s, t, chosen, order.drop_last());
    }
}

} // verus!
