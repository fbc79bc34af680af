//! What is done about what peers do and say.

use vstd::prelude::*;

use crate::coordinator::names::{drop_piece, remove_name};
use crate::coordinator::{does_all, Action, Coordinator};
use crate::coverage::{all_inside, askable_after};
use crate::peer::connection::{CmdMsg, Command, PeerId, PeerMsg};
use crate::piece::{holds, Bitfield, PieceError};
use crate::pieces::{Fate, Pieces};
use crate::sequences::push_contains;
use crate::storage::Plan;
use crate::swarm::{requests, Ask, Deed, Event, Peer, Swarm};
use crate::swarm_laws::first_step_valid;
use crate::swarm_valid::{
    block_valid, choking_valid, leaving_valid, peer_changed_valid, pieces_changed_valid,
};

verus! {

/// A complete piece has the size of the piece, and its end can be computed.
proof fn complete_fits(p: Pieces, i: u32, begin: u32, data: Seq<u8>)
    requires
        p.valid(),
        p.covers(i as int),
    ensures
        p.fate(i, begin, data) matches Fate::Complete(buf) ==> p.start(i as int) + buf.len()
            <= u64::MAX,
{
    if let Fate::Complete(buf) = p.fate(i, begin, data) {
        let a = p.assembly(i);
        if p.partial.contains_key(i) {
            assert(p.fits(i, p.partial[i]));
        }
        assert(a.buf.len() == p.len(i as int));
        assert(buf.len() == p.len(i as int));
        let size = p.size(i as int) as u64;
        assert((size as u32) <= size) by (bit_vector);
    }
}

/// No event changes the lengths or the number of the pieces.
proof fn after_same_pieces(s: Swarm, e: Event)
    ensures
        s.after(e).pieces.piece_length == s.pieces.piece_length,
        s.after(e).pieces.total_length == s.pieces.total_length,
        s.after(e).pieces.hashes == s.pieces.hashes,
{
}

impl Coordinator {
    /// Forgets a peer that left.
    fn peer_left(&mut self, id: PeerId)
        requires
            old(self).well_formed(),
        ensures
            final(self).well_formed(),
            final(self).same_frame(old(self)),
            final(self)@ == old(self)@.after_leaving(id),
    {
        let ghost before = self@;
        proof {
            leaving_valid(before, id);
        }
        if let Some(p) = self.peers.remove(&id) {
            proof {
                assert(before.peers[id] == p@);
                assert(self@.peers =~= before.peers.remove(id));
            }
            self.pieces.on_peer_disconnect(&p.bitfield);
            if let Some(piece) = p.assigned_piece {
                self.release_piece_if_orphaned(piece);
            }
        }
        assert(self@ =~= before.after_leaving(id));
    }

    /// Takes in what a peer has, in place of what it had told before.
    fn peer_has(&mut self, id: PeerId, bits: Bitfield)
        requires
            old(self).well_formed(),
            old(self)@.peers.contains_key(id) ==> bits.well_formed(),
        ensures
            final(self).well_formed(),
            final(self).same_frame(old(self)),
            final(self)@ == old(self)@.after_bitfield(id, bits@),
    {
        let ghost before = self@;
        if let Some(mut p) = self.peers.remove(&id) {
            let ghost known = p@;
            assert(before.peers[id] == known);
            assert(before.fits(id, known));
            self.pieces.on_peer_disconnect(&p.bitfield);
            self.pieces.on_peer_bitfield(&bits);
            p.bitfield = bits;
            self.put(id, p);
            proof {
                let q = Pieces {
                    availability: before.pieces.changed(known.has, bits@),
                    ..before.pieces
                };
                assert(self@ =~= before.after_bitfield(id, bits@));
                pieces_changed_valid(before, q);
                peer_changed_valid(before.with_pieces(q), id, Peer { has: bits@, ..known });
            }
        }
        assert(self@ =~= before.after_bitfield(id, bits@));
    }

    /// Takes in that a peer has a piece, and counts it if that is news.
    fn peer_has_one(&mut self, id: PeerId, index: u32)
        requires
            old(self).well_formed(),
        ensures
            final(self).well_formed(),
            final(self).same_frame(old(self)),
            final(self)@ == old(self)@.after_have(id, index),
    {
        let ghost before = self@;
        if let Some(mut p) = self.peers.remove(&id) {
            let ghost known = p@;
            assert(before.peers[id] == known);
            assert(before.fits(id, known));
            let had: bool = p.bitfield.has(index as usize);
            p.bitfield.set(index as usize);
            if !had && p.bitfield.has(index as usize) {
                self.pieces.on_peer_have(index);
            }
            let ghost q = self.pieces@;
            self.put(id, p);
            proof {
                assert(self@ =~= before.after_have(id, index));
                pieces_changed_valid(before, q);
                peer_changed_valid(before.with_pieces(q), id, p@);
            }
        }
        assert(self@ =~= before.after_have(id, index));
    }

    /// Takes in that a peer choked us. What was under way from it is lost.
    fn peer_choked(&mut self, id: PeerId)
        requires
            old(self).well_formed(),
        ensures
            final(self).well_formed(),
            final(self).same_frame(old(self)),
            final(self)@ == old(self)@.after_choking(id),
    {
        let ghost before = self@;
        proof {
            choking_valid(before, id);
        }
        if let Some(mut p) = self.peers.remove(&id) {
            let ghost known = p@;
            assert(before.peers[id] == known);
            p.peer_choking = true;
            p.inflight.clear();
            let assigned: Option<u32> = p.assigned_piece;
            p.assigned_piece = None;
            proof {
                assert(p.inflight@.to_set() =~= Set::empty());
                assert(p@ =~= Peer {
                    choking: true,
                    inflight: Set::empty(),
                    assigned: None,
                    ..known
                });
            }
            self.put(id, p);
            assert(self@ =~= before.with_peer(id, p@));
            if let Some(piece) = assigned {
                self.release_piece_if_orphaned(piece);
            }
        }
        assert(self@ =~= before.after_choking(id));
    }

    /// Takes in that a peer unchoked us.
    fn peer_unchoked(&mut self, id: PeerId)
        requires
            old(self).well_formed(),
        ensures
            final(self).well_formed(),
            final(self).same_frame(old(self)),
            final(self).pieces == old(self).pieces,
            final(self)@ == old(self)@.after_unchoking(id),
    {
        let ghost before = self@;
        if let Some(mut p) = self.peers.remove(&id) {
            let ghost known = p@;
            assert(before.peers[id] == known);
            assert(before.fits(id, known));
            p.peer_choking = false;
            self.put(id, p);
            proof {
                assert(self@ =~= before.with_peer(id, p@));
                peer_changed_valid(before, id, p@);
            }
        }
        assert(self@ =~= before.after_unchoking(id));
    }

    /// Takes in whether a peer is interested.
    fn peer_interest(&mut self, id: PeerId, interested: bool)
        requires
            old(self).well_formed(),
        ensures
            final(self).well_formed(),
            final(self).same_frame(old(self)),
            final(self).pieces == old(self).pieces,
            final(self)@ == old(self)@.after_interest(id, interested),
    {
        let ghost before = self@;
        if let Some(mut p) = self.peers.remove(&id) {
            let ghost known = p@;
            assert(before.peers[id] == known);
            assert(before.fits(id, known));
            p.peer_interested = interested;
            self.put(id, p);
            proof {
                assert(self@ =~= before.with_peer(id, p@));
                peer_changed_valid(before, id, p@);
            }
        }
        assert(self@ =~= before.after_interest(id, interested));
    }

    /// Takes a piece from every peer that has it assigned: a complete one, of which nothing more
    /// is under way, or a corrupt one, after which nothing under way counts any more.
    fn take_piece_back(&mut self, index: u32, corrupt: bool)
        ensures
            final(self)@ == (if corrupt {
                old(self)@.restarted(index)
            } else {
                old(self)@.finished(index)
            }),
            final(self).pieces == old(self).pieces,
            final(self).same_frame(old(self)),
            (forall|id: u64| #[trigger]
                old(self).peers@.contains_key(id) ==> old(self).peers@[id].well_formed()) ==> (forall|
                id: u64,
            | #[trigger]
                final(self).peers@.contains_key(id) ==> final(self).peers@[id].well_formed()),
    {
        let ghost before = self@;
        let ghost exec_before = self.peers@;
        let ghost sound = forall|id: u64| #[trigger]
            exec_before.contains_key(id) ==> exec_before[id].well_formed();
        let ghost goal = if corrupt {
            before.restarted(index)
        } else {
            before.finished(index)
        };
        let ids: Vec<PeerId> = self.ids();
        let mut i: usize = 0;
        while i < ids.len()
            invariant
                i <= ids@.len(),
                ids@.no_duplicates(),
                before == old(self)@,
                exec_before == old(self).peers@,
                goal == (if corrupt {
                    before.restarted(index)
                } else {
                    before.finished(index)
                }),
                forall|id: u64| #[trigger] ids@.contains(id) <==> exec_before.contains_key(id),
                self.pieces == old(self).pieces,
                self.same_frame(old(self)),
                self@ == (Swarm { peers: self@.peers, ..before }),
                self.peers@.dom() == exec_before.dom(),
                forall|id: u64| #[trigger]
                    self.peers@.contains_key(id) ==> self.peers@[id]@ == (if ids@.take(
                        i as int,
                    ).contains(id) {
                        goal.peers[id]
                    } else {
                        before.peers[id]
                    }),
                sound == (forall|id: u64| #[trigger]
                    exec_before.contains_key(id) ==> exec_before[id].well_formed()),
                sound ==> forall|id: u64| #[trigger]
                    self.peers@.contains_key(id) ==> self.peers@[id].well_formed(),
            decreases ids.len() - i,
        {
            let id: PeerId = ids[i];
            let ghost sofar = ids@.take(i as int);
            let ghost peers_before = self.peers@;
            proof {
                assert(ids@.contains(id));
                assert(ids@.take(i + 1) =~= sofar.push(id));
                push_contains(sofar, id);
                assert(!sofar.contains(id)) by {
                    if sofar.contains(id) {
                        let k = choose|k: int| 0 <= k < sofar.len() && sofar[k] == id;
                        assert(ids@[k] == ids@[i as int]);
                    }
                }
            }
            if let Some(mut p) = self.peers.remove(&id) {
                let ghost known = p@;
                assert(known == before.peers[id]);
                let affected: bool = match p.assigned_piece {
                    Some(a) => a == index,
                    None => false,
                };
                if affected {
                    p.assigned_piece = None;
                    if corrupt {
                        p.inflight.clear();
                        assert(p.inflight@.to_set() =~= Set::empty());
                    } else {
                        p.inflight = drop_piece(p.inflight, index);
                    }
                }
                assert(p@ =~= goal.peers[id]);
                self.put(id, p);
                proof {
                    assert(self.peers@.dom() =~= exec_before.dom());
                    assert forall|x: u64| #[trigger] self.peers@.contains_key(x) implies self.peers@[x]@ == (
                    if ids@.take(i + 1).contains(x) {
                        goal.peers[x]
                    } else {
                        before.peers[x]
                    }) by {
                        assert(sofar.push(id).contains(x) <==> x == id || sofar.contains(x));
                        if x != id {
                            assert(self.peers@[x] == peers_before[x]);
                            assert(peers_before.contains_key(x));
                        }
                    }
                }
            }
            i += 1;
        }
        proof {
            assert(ids@.take(i as int) =~= ids@);
            assert forall|id: u64| self@.peers.contains_key(id) implies self@.peers[id]
                == goal.peers[id] by {
                assert(self.peers@.contains_key(id));
                assert(ids@.contains(id));
            }
            assert(self@.peers =~= goal.peers);
            assert(self@ =~= goal);
        }
    }

    /// Tells every peer of a new piece.
    fn announce_piece(&self, index: u32, actions: &mut Vec<Action>) -> (order: Ghost<Seq<u64>>)
        ensures
            self@.peer_order(order@),
            final(actions)@.len() == old(actions)@.len() + order@.len(),
            forall|k: int| 0 <= k < old(actions)@.len() ==> final(actions)@[k] == old(actions)@[k],
            forall|k: int|
                0 <= k < order@.len() ==> (#[trigger] final(actions)@[old(actions)@.len() + k]).does(
                    self.storage,
                    Deed::Send(order@[k], Command::Have(index)),
                ),
    {
        let ghost before = actions@;
        let ids: Vec<PeerId> = self.ids();
        let mut i: usize = 0;
        while i < ids.len()
            invariant
                i <= ids@.len(),
                actions@.len() == before.len() + i,
                forall|k: int| 0 <= k < before.len() ==> actions@[k] == before[k],
                forall|k: int|
                    before.len() <= k < before.len() + i ==> (#[trigger] actions@[k]).does(
                        self.storage,
                        Deed::Send(ids@[k - before.len()], Command::Have(index)),
                    ),
            decreases ids.len() - i,
        {
            actions.push(Action::Send { id: ids[i], cmd: CmdMsg::Have(index) });
            i += 1;
        }
        Ghost(ids@)
    }

    /// Takes in a block that came from a peer. Tells in which order peers are told of a new
    /// piece.
    fn block_received(&mut self, id: PeerId, index: u32, begin: u32, data: Vec<u8>) -> (res: (
        Vec<Action>,
        Ghost<Seq<u64>>,
    ))
        requires
            old(self).well_formed(),
            old(self)@.pieces.takes(index, begin, data@),
            old(self)@.peers.contains_key(id) ==> old(self)@.peers[id].window + data@.len()
                <= u64::MAX,
        ensures
            final(self).well_formed(),
            final(self).same_frame(old(self)),
            final(self)@ == old(self)@.after_block(id, index, begin, data@),
            old(self)@.peer_order(res.1@),
            does_all(
                res.0@,
                old(self).storage,
                old(self)@.block_deeds(id, index, begin, data@, res.1@),
            ),
    {
        let ghost before = self@;
        let ghost storage = self.storage;
        let ghost fate = before.pieces.fate(index, begin, data@);
        proof {
            complete_fits(before.pieces, index, begin, data@);
        }
        let len: u64 = data.len() as u64;
        if let Some(mut p) = self.peers.remove(&id) {
            let ghost known = p@;
            assert(before.peers[id] == known);
            remove_name(&mut p.inflight, index, begin);
            p.downloaded_window += len;
            proof {
                assert(p@ =~= Peer {
                    inflight: known.inflight.remove((index, begin)),
                    window: known.window + data@.len(),
                    ..known
                });
            }
            self.put(id, p);
        }
        let ghost credited = self@;
        assert(credited =~= before.credited(id, index, begin, data@.len() as int));
        let mut actions: Vec<Action> = Vec::new();
        let ids: Vec<PeerId> = self.ids();
        let ghost mut order: Seq<u64> = ids@;
        assert(before.peer_order(order));
        let result: Result<Option<Vec<u8>>, PieceError> = self.pieces.on_block(
            index,
            begin,
            data.as_slice(),
        );
        let ghost settled = self@;
        proof {
            assert(settled =~= credited.with_pieces(
                before.pieces.after_block(index, begin, data@),
            ));
            block_valid(before, id, index, begin, data@);
        }
        match result {
            Ok(Some(piece)) => {
                let plan: Plan = self.storage.write_piece(index, piece.as_slice());
                self.take_piece_back(index, false);
                actions.push(Action::WritePiece { index, data: piece, plan });
                let ghost shown = actions@;
                let told: Ghost<Seq<u64>> = self.announce_piece(index, &mut actions);
                proof {
                    order = told@;
                    assert(before.peer_order(order)) by {
                        assert forall|x: u64| #[trigger] order.contains(x) <==> before.peers.contains_key(
                            x,
                        ) by {
                            assert(self@.peers.contains_key(x) <==> before.peers.contains_key(x));
                        }
                    }
                    let deeds = before.block_deeds(id, index, begin, data@, order);
                    assert forall|k: int| 0 <= k < deeds.len() implies (#[trigger] actions@[k]).does(
                        storage,
                        deeds[k],
                    ) by {
                        if k == 0 {
                            assert(actions@[0] == shown[0]);
                        } else {
                            assert(actions@[shown.len() + (k - 1)].does(
                                storage,
                                Deed::Send(order[k - 1], Command::Have(index)),
                            ));
                        }
                    }
                }
            },
            Ok(None) => {},
            Err(PieceError::HashMismatch { index: n }) => {
                self.take_piece_back(n, true);
                actions.push(Action::HashMismatch { index: n });
            },
            Err(PieceError::BadBlock) => {
                actions.push(Action::BadBlock { id });
            },
        }
        (actions, Ghost(order))
    }

    /// Whether what a peer did or said can be taken in.
    pub open spec fn readable(&self, msg: PeerMsg) -> bool {
        match msg {
            PeerMsg::Bitfield { id, bits } => self@.peers.contains_key(id) ==> bits.well_formed(),
            PeerMsg::BlockReceived { id, index, begin, data } => self@.pieces.takes(
                index,
                begin,
                data@,
            ) && (self@.peers.contains_key(id) ==> self@.peers[id].window + data@.len()
                <= u64::MAX),
            PeerMsg::RequestFromPeer { id, index, begin, length } => self@.serves(id, index)
                ==> index * self.storage.piece_length + begin + length <= u64::MAX,
            _ => true,
        }
    }

    /// Whether what a peer did or said can be handled: it can be taken in, and if requests are
    /// sent out after it, the pieces that may be asked for lie inside the torrent.
    pub open spec fn admissible(&self, msg: PeerMsg) -> bool {
        &&& self.readable(msg)
        &&& msg.event().refills() ==> self@.after(msg.event()).askable()
    }

    /// Whether all that may be fetched from a peer after what was done or said lies inside the
    /// torrent.
    fn fetches_inside(&self, id: PeerId, msg: &PeerMsg) -> (res: bool)
        requires
            self.well_formed(),
            self.readable(*msg),
            self@.peers.contains_key(id),
        ensures
            res == self@.fetches_inside(msg.event(), id),
    {
        let ghost s = self@;
        let ghost e = msg.event();
        let p = match self.peers.get(&id) {
            Some(p) => p,
            None => return true,
        };
        assert(s.peers[id] == p@);
        let (keeps, open): (bool, bool) = match msg {
            PeerMsg::Disconnected { id: x } => (*x != id, *x != id && !p.peer_choking),
            PeerMsg::Choked { id: x } => (*x != id, *x != id && !p.peer_choking),
            PeerMsg::Unchoked { id: x } => (true, *x == id || !p.peer_choking),
            _ => (true, !p.peer_choking),
        };
        assert(keeps == s.keeps_piece(e, id));
        assert(open == s.open_after(e, id));
        if keeps {
            if let Some(a) = p.assigned_piece {
                if !self.pieces.covers(a) {
                    return false;
                }
            }
        }
        if !open {
            return true;
        }
        let n: usize = self.pieces.num_pieces();
        let mut i: u64 = 0;
        while i < n as u64 && i <= u32::MAX as u64
            invariant
                self.well_formed(),
                self.readable(*msg),
                s == self@,
                e == msg.event(),
                s.peers.contains_key(id),
                s.peers[id] == p@,
                p.well_formed(),
                s.open_after(e, id),
                n == s.pieces.hashes.len(),
                i <= u32::MAX + 1,
                forall|k: u32|
                    k < i && k < n && holds(s.has_after(e, id), k as int)
                        ==> #[trigger] s.pieces.covers(k as int),
            decreases u32::MAX + 1 - i,
        {
            let k: u32 = i as u32;
            let has: bool = match msg {
                PeerMsg::Bitfield { id: x, bits } => if *x == id {
                    bits.has(k as usize)
                } else {
                    p.bitfield.has(k as usize)
                },
                PeerMsg::Have { id: x, index } => p.bitfield.has(k as usize) || (*x == id && *index
                    == k && (k as usize) < p.bitfield.num_pieces()),
                _ => p.bitfield.has(k as usize),
            };
            assert(has == holds(s.has_after(e, id), k as int));
            if has && !self.pieces.covers(k) {
                assert(!s.pieces.covers(k as int));
                return false;
            }
            i += 1;
        }
        true
    }

    /// Whether requests can be sent out after what a peer did or said.
    fn fillable_after(&self, msg: &PeerMsg) -> (res: bool)
        requires
            self.well_formed(),
            self.readable(*msg),
        ensures
            res == self@.after(msg.event()).askable(),
    {
        let ghost s = self@;
        let ghost e = msg.event();
        proof {
            askable_after(s, e);
            after_same_pieces(s, e);
        }
        if self.pieces.num_pieces() <= u32::MAX as usize && self.pieces.covers_all() {
            proof {
                first_step_valid(s, e);
                assert forall|i: int| 0 <= i < s.pieces.hashes.len() implies #[trigger] s.after(
                    e,
                ).pieces.covers(i) by {
                    assert(s.pieces.covers(i));
                }
                all_inside(s.after(e));
            }
            return true;
        }
        let ids: Vec<PeerId> = self.ids();
        let mut i: usize = 0;
        while i < ids.len()
            invariant
                self.well_formed(),
                self.readable(*msg),
                s == self@,
                e == msg.event(),
                i <= ids@.len(),
                forall|id: u64| #[trigger] ids@.contains(id) <==> self.peers@.contains_key(id),
                s.after(e).askable() <==> forall|id: u64| #[trigger]
                    s.peers.contains_key(id) ==> s.fetches_inside(e, id),
                forall|k: int| 0 <= k < i ==> s.fetches_inside(e, #[trigger] ids@[k]),
            decreases ids.len() - i,
        {
            assert(ids@.contains(ids@[i as int]));
            if !self.fetches_inside(ids[i], msg) {
                assert(s.peers.contains_key(ids@[i as int]));
                return false;
            }
            i += 1;
        }
        proof {
            assert forall|id: u64| #[trigger] s.peers.contains_key(id) implies s.fetches_inside(e, id) by {
                assert(ids@.contains(id));
                let k = choose|k: int| 0 <= k < ids@.len() && ids@[k] == id;
                assert(s.fetches_inside(e, ids@[k]));
            }
        }
        true
    }

    /// Tells whether what a peer did or said can be handled: a bitfield must have a bit for
    /// every piece, a block must be of a piece whose size can be computed, a requested block
    /// must have an end that can be computed, and the pieces that may be asked for after it must
    /// lie inside the torrent.
    pub fn admits(&self, msg: &PeerMsg) -> (res: bool)
        requires
            self.well_formed(),
        ensures
            res == self.admissible(*msg),
    {
        self.reads(msg) && (!msg.refills() || self.fillable_after(msg))
    }

    /// Whether what a peer did or said can be taken in.
    fn reads(&self, msg: &PeerMsg) -> (res: bool)
        requires
            self.well_formed(),
        ensures
            res == self.readable(*msg),
    {
        match msg {
            PeerMsg::Bitfield { id, bits } => {
                if !self.peers.contains_key(id) {
                    return true;
                }
                let whole: usize = bits.num_pieces / 8 + if bits.num_pieces % 8 == 0 {
                    0
                } else {
                    1
                };
                whole <= bits.bits.len()
            },
            PeerMsg::BlockReceived { id, index, begin, data } => {
                let counted: bool = match self.peers.get(id) {
                    Some(p) => {
                        assert(self@.peers[*id] == p@);
                        data.len() as u64 <= u64::MAX - p.downloaded_window
                    },
                    None => true,
                };
                counted && self.pieces.can_take(*index, *begin, data.as_slice())
            },
            PeerMsg::RequestFromPeer { id, index, begin, length } => {
                if !self.serves(*id, *index) {
                    return true;
                }
                proof {
                    assert(*index * self.storage.piece_length >= 0) by (nonlinear_arith);
                }
                match (*index as u64).checked_mul(self.storage.piece_length) {
                    Some(start) => match start.checked_add(*begin as u64) {
                        Some(at) => at.checked_add(*length as u64).is_some(),
                        None => false,
                    },
                    None => false,
                }
            },
            _ => true,
        }
    }

    /// Whether a block is given to a peer that asks for it.
    fn serves(&self, id: PeerId, index: u32) -> (res: bool)
        requires
            self.well_formed(),
        ensures
            res == self@.serves(id, index),
    {
        match self.peers.get(&id) {
            Some(p) => {
                assert(self@.peers[id] == p@);
                !p.am_choking && self.pieces.has_piece(index)
            },
            None => false,
        }
    }

    /// Handles what a peer did or said.
    pub fn handle_peer_msg(&mut self, msg: PeerMsg) -> (actions: Vec<Action>)
        requires
            old(self).well_formed(),
            old(self).admissible(msg),
        ensures
            final(self).well_formed(),
            final(self)@.pieces.same_torrent(old(self)@.pieces),
            msg.event().refills() ==> final(self)@.askable(),
            final(self).same_frame(old(self)),
            exists|deeds: Seq<Deed>| #[trigger]
                old(self)@.reacts(msg.event(), final(self)@, deeds) && does_all(
                    actions@,
                    old(self).storage,
                    deeds,
                ),
    {
        let ghost before = self@;
        let ghost storage = self.storage;
        let ghost event = msg.event();
        let ids: Vec<PeerId> = self.ids();
        let ghost mut order: Seq<u64> = ids@;
        assert(before.peer_order(order));
        let mut actions: Vec<Action> = Vec::new();
        let refill: bool = match msg {
            PeerMsg::Connected { id, .. } => {
                if self.peers.contains_key(&id) {
                    actions.push(Action::Send { id, cmd: CmdMsg::Interested });
                }
                false
            },
            PeerMsg::Disconnected { id } => {
                self.peer_left(id);
                true
            },
            PeerMsg::Bitfield { id, bits } => {
                if self.peers.contains_key(&id) {
                    actions.push(Action::Send { id, cmd: CmdMsg::Interested });
                }
                self.peer_has(id, bits);
                true
            },
            PeerMsg::Have { id, index } => {
                if self.peers.contains_key(&id) {
                    actions.push(Action::Send { id, cmd: CmdMsg::Interested });
                }
                self.peer_has_one(id, index);
                true
            },
            PeerMsg::Choked { id } => {
                self.peer_choked(id);
                true
            },
            PeerMsg::Unchoked { id } => {
                self.peer_unchoked(id);
                true
            },
            PeerMsg::Interested { id } => {
                self.peer_interest(id, true);
                false
            },
            PeerMsg::NotInterested { id } => {
                self.peer_interest(id, false);
                false
            },
            PeerMsg::BlockReceived { id, index, begin, data } => {
                let (done, Ghost(told)) = self.block_received(id, index, begin, data);
                actions = done;
                proof {
                    order = told;
                }
                true
            },
            PeerMsg::RequestFromPeer { id, index, begin, length } => {
                if self.serves(id, index) {
                    let plan: Plan = self.storage.read_block(index, begin, length);
                    actions.push(Action::ReadBlock { id, index, begin, length, plan });
                }
                false
            },
        };
        let ghost first = before.deeds(event, order);
        proof {
            assert(self@ == before.after(event));
            assert(does_all(actions@, storage, first));
            after_same_pieces(before, event);
        }
        if refill {
            let ghost mid = self@;
            let ghost shown = actions@;
            let mut more: Vec<Action> = self.fill_requests();
            let ghost told = more@;
            actions.append(&mut more);
            proof {
                let asks = choose|asks: Seq<Ask>| #[trigger]
                    mid.filled(self@, asks) && does_all(told, storage, requests(asks));
                let deeds = first + requests(asks);
                assert forall|k: int| 0 <= k < deeds.len() implies (#[trigger] actions@[k]).does(
                    storage,
                    deeds[k],
                ) by {
                    if k < first.len() {
                        assert(actions@[k] == shown[k]);
                        assert(shown[k].does(storage, first[k]));
                    } else {
                        assert(actions@[k] == told[k - first.len()]);
                        assert(told[k - first.len()].does(
                            storage,
                            requests(asks)[k - first.len()],
                        ));
                    }
                }
                assert(before.reacts(event, self@, deeds));
            }
        } else {
            proof {
                let asks = Seq::<Ask>::empty();
                assert(requests(asks) =~= Seq::empty());
                assert(first + requests(asks) =~= first);
                assert(before.reacts(event, self@, first));
            }
        }
        actions
    }
}

} // verus!
