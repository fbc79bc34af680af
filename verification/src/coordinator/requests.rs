//! Which peers are asked for which blocks.

use vstd::prelude::*;

use crate::coordinator::names::{add_names, contains_piece, select_blocks};
use crate::coordinator::{
    does_all, Action, Coordinator, MAX_DOWNLOADING_PEERS, MAX_INFLIGHT_PER_PEER,
};
use crate::coverage::turn_askable;
use crate::peer::connection::{CmdMsg, PeerId};
use crate::piece::{choices_are_candidates, BlockRequest, PieceState};
use crate::sequences::push_contains;
use crate::swarm::{asks_of, names_of, request, requests, Ask, Peer};
use crate::swarm_valid::{assigned_valid, continued_valid, idle_has_nothing, turn_valid};

verus! {

impl Coordinator {
    /// Plans for a peer that has a piece assigned: the blocks of it to ask for next. The peer
    /// gives the piece up when there is nothing left of it to fetch.
    pub fn plan_blocks(&mut self, id: PeerId, index: u32) -> (blocks: Vec<BlockRequest>)
        requires
            old(self).well_formed(),
            old(self)@.peers.contains_key(id),
            old(self)@.peers[id].assigned == Some(index),
            old(self)@.pieces.covers(index as int),
        ensures
            final(self).well_formed(),
            final(self).same_frame(old(self)),
            old(self)@.continued(id, index) == (final(self)@, blocks@),
            final(self)@.peers.contains_key(id),
    {
        let ghost before = self@;
        let ghost goal = before.continued(id, index);
        proof {
            assert(before.fits(id, before.peers[id]));
            continued_valid(before, id, index);
        }
        if self.pieces.has_piece(index) {
            if let Some(mut p) = self.peers.remove(&id) {
                p.assigned_piece = None;
                self.put(id, p);
            }
            return Vec::new();
        }
        if self.pieces.state(index) == PieceState::Missing {
            self.pieces.reclaim_piece(index);
        }
        assert(before.pieces.reclaimed(index as int) =~= before.pieces);
        assert(before.with_pieces(before.pieces) =~= before);
        assert(self@ =~= before);
        let needed: Vec<BlockRequest> = self.pieces.blocks_still_needed(index);
        let (blocks, busy): (Vec<BlockRequest>, bool) = match self.peers.get(&id) {
            Some(p) => {
                proof {
                    assert(before.peers[id] == p@);
                    p.inflight@.unique_seq_to_set();
                }
                let room: usize = MAX_INFLIGHT_PER_PEER.saturating_sub(p.inflight.len());
                (select_blocks(&needed, &p.inflight, room), contains_piece(&p.inflight, index))
            },
            None => (Vec::new(), false),
        };
        if blocks.len() == 0 && !busy {
            if let Some(mut p) = self.peers.remove(&id) {
                let ghost known = p@;
                p.assigned_piece = None;
                assert(p@ =~= Peer { assigned: None, ..known });
                self.put(id, p);
                proof {
                    assert(self@ =~= before.with_peer(id, p@));
                }
                self.release_piece_if_orphaned(index);
            }
            return Vec::new();
        }
        blocks
    }

    /// Plans for a peer: the blocks to ask for next, of the piece that it has assigned or of one
    /// that is picked for it. Tells which one was picked.
    fn plan_requests_for(&mut self, id: PeerId) -> (res: (Vec<BlockRequest>, Ghost<Option<u32>>))
        requires
            old(self).well_formed(),
            old(self)@.askable(),
            old(self)@.eligible(id),
        ensures
            final(self).well_formed(),
            final(self).same_frame(old(self)),
            old(self)@.may_pick(id, res.1@),
            old(self)@.planned(id, res.1@) == (final(self)@, res.0@),
            final(self)@.peers.contains_key(id),
    {
        let ghost before = self@;
        assert(before.fits(id, before.peers[id]));
        let (room, assigned): (usize, Option<u32>) = match self.peers.get(&id) {
            Some(p) => {
                proof {
                    assert(before.peers[id] == p@);
                    p.inflight@.unique_seq_to_set();
                }
                (MAX_INFLIGHT_PER_PEER.saturating_sub(p.inflight.len()), p.assigned_piece)
            },
            None => (0, None),
        };
        if room == 0 {
            return (Vec::new(), Ghost(None));
        }
        if let Some(index) = assigned {
            let blocks: Vec<BlockRequest> = self.plan_blocks(id, index);
            return (blocks, Ghost(None));
        }
        let picked: Option<u32> = match self.peers.get(&id) {
            Some(p) => self.pieces.pick_piece(&p.bitfield),
            None => None,
        };
        match picked {
            None => {
                assert(self@ =~= before);
                (Vec::new(), Ghost(None))
            },
            Some(index) => {
                proof {
                    idle_has_nothing(before, id);
                    choices_are_candidates(before.pieces, before.peers[id].has);
                    assert(before.pieces.candidates(before.peers[id].has).contains(index));
                    assigned_valid(before, id, index);
                    assert(before.may_fetch(id, index));
                }
                if let Some(mut p) = self.peers.remove(&id) {
                    let ghost known = p@;
                    p.assigned_piece = Some(index);
                    assert(p@ =~= Peer { assigned: Some(index), ..known });
                    self.put(id, p);
                }
                proof {
                    assert(self@ =~= before.assigned_to(id, index));
                }
                let blocks: Vec<BlockRequest> = self.plan_blocks(id, index);
                (blocks, Ghost(Some(index)))
            },
        }
    }

    /// The turn of a peer: the blocks that it is asked for now. Tells which piece was picked.
    fn take_turn(&mut self, id: PeerId) -> (res: (Vec<BlockRequest>, Ghost<Option<u32>>))
        requires
            old(self).well_formed(),
            old(self)@.askable(),
        ensures
            final(self).well_formed(),
            final(self)@.askable(),
            final(self)@.pieces.same_torrent(old(self)@.pieces),
            final(self).same_frame(old(self)),
            if old(self)@.eligible(id) {
                old(self)@.may_pick(id, res.1@)
            } else {
                res.1@ is None
            },
            old(self)@.turn(id, res.1@) == (final(self)@, asks_of(id, res.0@)),
    {
        let ghost before = self@;
        let downloading: usize = self.downloading_peer_count();
        let fit: bool = match self.peers.get(&id) {
            Some(p) => {
                proof {
                    assert(before.peers[id] == p@);
                    p.inflight@.unique_seq_to_set();
                }
                let is_active: bool = p.inflight.len() > 0 || p.assigned_piece.is_some();
                !p.peer_choking && (is_active || downloading < MAX_DOWNLOADING_PEERS)
            },
            None => false,
        };
        assert(fit == before.eligible(id));
        if !fit {
            let none: Vec<BlockRequest> = Vec::new();
            assert(asks_of(id, none@) =~= Seq::empty());
            return (none, Ghost(None));
        }
        let (blocks, Ghost(pick)) = self.plan_requests_for(id);
        let ghost planned = self@;
        if let Some(mut p) = self.peers.remove(&id) {
            let ghost known = p@;
            add_names(&mut p.inflight, &blocks);
            assert(p@ =~= Peer { inflight: known.inflight.union(names_of(blocks@)), ..known });
            self.put(id, p);
            assert(self@ =~= planned.asking(id, blocks@));
        }
        proof {
            turn_valid(before, id, pick);
            turn_askable(before, id, pick);
        }
        (blocks, Ghost(pick))
    }

    /// The peers that do not choke us, in the order in which they get their turns.
    fn turn_ids(&self) -> (order: Vec<PeerId>)
        requires
            self.well_formed(),
        ensures
            self@.turn_order(order@),
    {
        let ids: Vec<PeerId> = self.ids();
        let mut order: Vec<PeerId> = Vec::new();
        let mut rank: u8 = 0;
        while rank < 4
            invariant
                rank <= 4,
                self.well_formed(),
                ids@.no_duplicates(),
                forall|id: u64| #[trigger] ids@.contains(id) <==> self.peers@.contains_key(id),
                order@.no_duplicates(),
                forall|id: u64| #[trigger]
                    order@.contains(id) <==> self@.peers.contains_key(id)
                        && !self@.peers[id].choking && self@.peers[id].rank() < rank,
                forall|i: int, j: int|
                    0 <= i < j < order@.len() ==> self@.peers[#[trigger] order@[i]].rank()
                        <= self@.peers[#[trigger] order@[j]].rank(),
            decreases 4 - rank,
        {
            let mut i: usize = 0;
            proof {
                assert forall|k: int| 0 <= k < order@.len() implies self@.peers[#[trigger] order@[k]].rank()
                    <= rank by {
                    assert(order@.contains(order@[k]));
                }
                assert forall|x: u64| !#[trigger] ids@.take(0).contains(x) by {}
            }
            while i < ids.len()
                invariant
                    i <= ids@.len(),
                    rank < 4,
                    self.well_formed(),
                    ids@.no_duplicates(),
                    forall|id: u64| #[trigger] ids@.contains(id) <==> self.peers@.contains_key(id),
                    order@.no_duplicates(),
                    forall|id: u64| #[trigger]
                        order@.contains(id) <==> self@.peers.contains_key(id)
                            && !self@.peers[id].choking && (self@.peers[id].rank() < rank
                            || self@.peers[id].rank() == rank && ids@.take(i as int).contains(id)),
                    forall|i: int, j: int|
                        0 <= i < j < order@.len() ==> self@.peers[#[trigger] order@[i]].rank()
                            <= self@.peers[#[trigger] order@[j]].rank(),
                    forall|i: int|
                        0 <= i < order@.len() ==> self@.peers[#[trigger] order@[i]].rank() <= rank,
                decreases ids.len() - i,
            {
                let id: PeerId = ids[i];
                let ghost known = order@;
                let ghost sofar = ids@.take(i as int);
                proof {
                    assert(ids@.contains(id));
                    assert(ids@.take(i + 1) =~= sofar.push(id));
                    push_contains(sofar, id);
                    assert(!sofar.contains(id)) by {
                        if sofar.contains(id) {
                            let k = choose|k: int| 0 <= k < sofar.len() && sofar[k] == id;
                            assert(ids@[k] == ids@[i as int]);
                        }
                    }
                }
                if let Some(p) = self.peers.get(&id) {
                    proof {
                        assert(self@.peers[id] == p@);
                        p.inflight@.unique_seq_to_set();
                    }
                    let here: u8 = (if p.inflight.len() == 0 {
                        2u8
                    } else {
                        0u8
                    }) + (if p.assigned_piece.is_none() {
                        1u8
                    } else {
                        0u8
                    });
                    assert(here == self@.peers[id].rank());
                    if !p.peer_choking && here == rank {
                        order.push(id);
                        proof {
                            assert(!known.contains(id));
                            push_contains(known, id);
                            assert(order@ =~= known.push(id));
                        }
                    }
                }
                proof {
                    assert forall|x: u64| #[trigger] order@.contains(x) <==> self@.peers.contains_key(x)
                        && !self@.peers[x].choking && (self@.peers[x].rank() < rank
                        || self@.peers[x].rank() == rank && ids@.take(i + 1).contains(x)) by {
                        assert(known.contains(x) <==> self@.peers.contains_key(x)
                            && !self@.peers[x].choking && (self@.peers[x].rank() < rank
                            || self@.peers[x].rank() == rank && sofar.contains(x)));
                        assert(sofar.push(id).contains(x) <==> x == id || sofar.contains(x));
                    }
                }
                i += 1;
            }
            assert(ids@.take(i as int) =~= ids@);
            rank += 1;
        }
        order
    }

    /// Gives every peer that does not choke us its turn, and sends out the requests.
    pub fn fill_requests(&mut self) -> (actions: Vec<Action>)
        requires
            old(self).well_formed(),
            old(self)@.askable(),
        ensures
            final(self).well_formed(),
            final(self)@.askable(),
            final(self)@.pieces.same_torrent(old(self)@.pieces),
            final(self).same_frame(old(self)),
            exists|asks: Seq<Ask>| #[trigger]
                old(self)@.filled(final(self)@, asks) && does_all(
                    actions@,
                    old(self).storage,
                    requests(asks),
                ),
    {
        let ghost before = self@;
        let ghost storage = self.storage;
        let order: Vec<PeerId> = self.turn_ids();
        let mut actions: Vec<Action> = Vec::new();
        let ghost mut picks: Seq<Option<u32>> = Seq::empty();
        let ghost mut asks: Seq<Ask> = Seq::empty();
        let mut i: usize = 0;
        proof {
            assert(order@.take(0) =~= Seq::empty());
            assert(requests(asks) =~= Seq::empty());
        }
        while i < order.len()
            invariant
                i <= order@.len(),
                self.well_formed(),
                self@.askable(),
                self@.pieces.same_torrent(before.pieces),
                self.same_frame(old(self)),
                storage == old(self).storage,
                before == old(self)@,
                before.may_pick_all(order@.take(i as int), picks),
                before.round(order@.take(i as int), picks) == (self@, asks),
                does_all(actions@, storage, requests(asks)),
            decreases order.len() - i,
        {
            let id: PeerId = order[i];
            let ghost shown = actions@;
            let ghost sofar = asks;
            let ghost here = self@;
            let (blocks, Ghost(pick)) = self.take_turn(id);
            proof {
                let longer = order@.take(i + 1);
                assert(longer.drop_last() =~= order@.take(i as int));
                assert(longer.last() == id);
                let more = picks.push(pick);
                assert(more.drop_last() =~= picks);
                assert(more.last() == pick);
                picks = more;
                asks = asks + asks_of(id, blocks@);
            }
            let mut j: usize = 0;
            assert(does_all(actions@, storage, requests(sofar + asks_of(id, blocks@.take(0))))) by {
                assert(blocks@.take(0) =~= Seq::empty());
                assert(sofar + asks_of(id, blocks@.take(0)) =~= sofar);
            }
            while j < blocks.len()
                invariant
                    j <= blocks@.len(),
                    does_all(
                        actions@,
                        storage,
                        requests(sofar + asks_of(id, blocks@.take(j as int))),
                    ),
                decreases blocks.len() - j,
            {
                let b: BlockRequest = blocks[j];
                let ghost told = actions@;
                let ghost less = requests(sofar + asks_of(id, blocks@.take(j as int)));
                let ghost all = requests(sofar + asks_of(id, blocks@.take(j + 1)));
                actions.push(
                    Action::Send {
                        id,
                        cmd: CmdMsg::RequestBlock { index: b.index, begin: b.begin, length: b.length },
                    },
                );
                proof {
                    assert(all =~= less.push(request(Ask { id, block: b })));
                    assert forall|k: int| 0 <= k < all.len() implies (#[trigger] actions@[k]).does(
                        storage,
                        all[k],
                    ) by {
                        if k < told.len() {
                            assert(actions@[k] == told[k]);
                            assert(told[k].does(storage, less[k]));
                        }
                    }
                }
                j += 1;
            }
            assert(blocks@.take(j as int) =~= blocks@);
            i += 1;
        }
        proof {
            assert(order@.take(i as int) =~= order@);
            assert(before.filled(self@, asks));
        }
        actions
    }
}

} // verus!
