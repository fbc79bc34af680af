//! The peers of a download and what each is asked for, as mathematics.

use vstd::prelude::*;

use crate::coordinator::{
    MAX_DOWNLOADING_PEERS, MAX_INFLIGHT_PER_PEER, OPTIMISTIC_EVERY, UNCHOKE_SLOTS,
};
use crate::digest::sha1_digest;
use crate::peer::connection::Command;
use crate::piece::{holds, BlockRequest, PieceState};
use crate::pieces::{min, more, Fate, Pieces};

verus! {

/// What is known of a peer.
#[verifier::ext_equal]
pub struct Peer {
    /// The pieces that it has.
    pub has: Seq<bool>,
    /// Whether it chokes us.
    pub choking: bool,
    /// Whether it is interested in us.
    pub interested: bool,
    /// Whether we choke it.
    pub am_choking: bool,
    /// The bytes that came from it since the last choke tick.
    pub window: int,
    /// The blocks it was asked for: piece and begin.
    pub inflight: Set<(u32, u32)>,
    /// The piece that is being fetched from it.
    pub assigned: Option<u32>,
}

/// The pieces and the peers.
#[verifier::ext_equal]
pub struct Swarm {
    pub pieces: Pieces,
    pub peers: Map<u64, Peer>,
    pub next_id: int,
    pub ticks: int,
    pub optimistic: Option<u64>,
    pub uploaded: int,
}

/// A request to a peer.
#[verifier::ext_equal]
pub struct Ask {
    pub id: u64,
    pub block: BlockRequest,
}

/// Something to be done outside.
#[verifier::ext_equal]
pub enum Deed {
    Send(u64, Command),
    /// Write the bytes of a piece to disk.
    Write { index: u32, data: Seq<u8> },
    /// Read a block from disk, for a peer that asked for it.
    Read { id: u64, index: u32, begin: u32, length: u32 },
    /// Report that a piece was corrupt.
    Mismatch(u32),
    /// Report that a block did not lie inside its piece.
    Bad(u64),
}

/// What a peer did or said.
pub enum Event {
    Connected { id: u64 },
    Disconnected { id: u64 },
    Bitfield { id: u64, bits: Seq<bool> },
    Have { id: u64, index: u32 },
    BlockReceived { id: u64, index: u32, begin: u32, data: Seq<u8> },
    RequestFromPeer { id: u64, index: u32, begin: u32, length: u32 },
    Choked { id: u64 },
    Unchoked { id: u64 },
    Interested { id: u64 },
    NotInterested { id: u64 },
}

impl Event {
    /// Whether new requests are sent out after it.
    pub open spec fn refills(self) -> bool {
        match self {
            Event::Connected { .. } => false,
            Event::RequestFromPeer { .. } => false,
            Event::Interested { .. } => false,
            Event::NotInterested { .. } => false,
            _ => true,
        }
    }
}

/// The news of a piece to peers in order.
pub open spec fn announcements(index: u32, order: Seq<u64>) -> Seq<Deed> {
    order.map_values(|id: u64| Deed::Send(id, Command::Have(index)))
}

/// A request as it is sent.
pub open spec fn request(a: Ask) -> Deed {
    Deed::Send(
        a.id,
        Command::RequestBlock {
            index: a.block.index,
            begin: a.block.begin,
            length: a.block.length,
        },
    )
}

/// Requests as they are sent.
pub open spec fn requests(asks: Seq<Ask>) -> Seq<Deed> {
    asks.map_values(|a: Ask| request(a))
}

/// How a block is known among those asked for.
pub open spec fn name_of(b: BlockRequest) -> (u32, u32) {
    (b.index, b.begin)
}

/// The names of blocks.
pub open spec fn names_of(blocks: Seq<BlockRequest>) -> Set<(u32, u32)> {
    blocks.map_values(|b: BlockRequest| name_of(b)).to_set()
}

/// Blocks, each asked of the same peer.
pub open spec fn asks_of(id: u64, blocks: Seq<BlockRequest>) -> Seq<Ask> {
    blocks.map_values(|b: BlockRequest| Ask { id, block: b })
}

impl Peer {
    /// Whether anything is being fetched from the peer.
    pub open spec fn active(self) -> bool {
        self.inflight.len() > 0 || self.assigned is Some
    }

    /// How many more blocks the peer may be asked for.
    pub open spec fn room(self) -> int {
        if self.inflight.len() < MAX_INFLIGHT_PER_PEER {
            MAX_INFLIGHT_PER_PEER - self.inflight.len()
        } else {
            0
        }
    }

    /// Peers with blocks under way come first, and among equals those with a piece.
    pub open spec fn rank(self) -> int {
        (if self.inflight.len() == 0 {
            2int
        } else {
            0
        }) + (if self.assigned is None {
            1int
        } else {
            0
        })
    }

    /// Whether a block of the piece is under way.
    pub open spec fn fetching(self, piece: u32) -> bool {
        exists|begin: u32| self.inflight.contains((piece, begin))
    }
}

/// A peer that just came.
pub open spec fn newcomer(num_pieces: nat) -> Peer {
    Peer {
        has: Seq::new(num_pieces, |i: int| false),
        choking: true,
        interested: false,
        am_choking: true,
        window: 0,
        inflight: Set::empty(),
        assigned: None,
    }
}

/// Those of the needed blocks of a piece to ask for: not under way yet, and only as many as
/// there is room for.
pub open spec fn blocks_to_ask(
    needed: Seq<BlockRequest>,
    inflight: Set<(u32, u32)>,
    room: int,
) -> Seq<BlockRequest> {
    let open = needed.filter(|b: BlockRequest| !inflight.contains(name_of(b)));
    open.take(min(room, open.len() as int))
}

impl Swarm {
    pub open spec fn with_peer(self, id: u64, p: Peer) -> Swarm {
        Swarm { peers: self.peers.insert(id, p), ..self }
    }

    pub open spec fn with_pieces(self, pieces: Pieces) -> Swarm {
        Swarm { pieces, ..self }
    }

    /// Whether a peer has the piece assigned.
    pub open spec fn held(self, piece: u32) -> bool {
        exists|id: u64| #[trigger]
            self.peers.contains_key(id) && self.peers[id].assigned == Some(piece)
    }

    /// The swarm after a piece that no peer fetches any more was abandoned.
    pub open spec fn released(self, piece: u32) -> Swarm {
        if self.held(piece) {
            self
        } else {
            self.with_pieces(self.pieces.abandoned(piece as int))
        }
    }

    /// The peers from which something is being fetched.
    pub open spec fn downloading(self) -> Set<u64> {
        self.peers.dom().filter(
            |id: u64| !self.peers[id].choking && self.peers[id].active(),
        )
    }

    /// What to ask of a peer that has a piece assigned.
    pub open spec fn continued(self, id: u64, index: u32) -> (Swarm, Seq<BlockRequest>) {
        let p = self.peers[id];
        if self.pieces.state_of(index as int) is Have {
            (self.with_peer(id, Peer { assigned: None, ..p }), Seq::empty())
        } else {
            let s = self.with_pieces(self.pieces.reclaimed(index as int));
            let blocks = blocks_to_ask(s.pieces.needed(index), p.inflight, p.room());
            if blocks.len() > 0 || p.fetching(index) {
                (s, blocks)
            } else {
                (s.with_peer(id, Peer { assigned: None, ..p }).released(index), Seq::empty())
            }
        }
    }

    /// Whether a piece is picked for a peer in order to plan for it.
    pub open spec fn picks_for(self, id: u64) -> bool {
        self.peers.contains_key(id) && self.peers[id].room() > 0 && self.peers[id].assigned is None
    }

    /// Whether `pick` can be what is picked for a peer.
    pub open spec fn may_pick(self, id: u64, pick: Option<u32>) -> bool {
        if self.picks_for(id) {
            match pick {
                Some(i) => self.pieces.choices(self.peers[id].has).contains(i),
                None => self.pieces.candidates(self.peers[id].has).len() == 0,
            }
        } else {
            pick is None
        }
    }

    /// The swarm with a piece picked for a peer.
    pub open spec fn assigned_to(self, id: u64, i: u32) -> Swarm {
        self.with_pieces(self.pieces.with_state(i as int, PieceState::InFlight)).with_peer(
            id,
            Peer { assigned: Some(i), ..self.peers[id] },
        )
    }

    /// What to ask of a peer, given the piece that is picked for it.
    pub open spec fn planned(self, id: u64, pick: Option<u32>) -> (Swarm, Seq<BlockRequest>) {
        if !self.peers.contains_key(id) || self.peers[id].room() == 0 {
            (self, Seq::empty())
        } else {
            match self.peers[id].assigned {
                Some(index) => self.continued(id, index),
                None => match pick {
                    None => (self, Seq::empty()),
                    Some(i) => self.assigned_to(id, i).continued(id, i),
                },
            }
        }
    }

    /// Whether a peer gets its turn: it does not choke us, and something is being fetched from
    /// it already or from few enough others.
    pub open spec fn eligible(self, id: u64) -> bool {
        &&& self.peers.contains_key(id)
        &&& !self.peers[id].choking
        &&& self.peers[id].active() || self.downloading().len() < MAX_DOWNLOADING_PEERS
    }

    /// The swarm with blocks under way from a peer.
    pub open spec fn asking(self, id: u64, blocks: Seq<BlockRequest>) -> Swarm {
        if self.peers.contains_key(id) {
            let p = self.peers[id];
            self.with_peer(id, Peer { inflight: p.inflight.union(names_of(blocks)), ..p })
        } else {
            self
        }
    }

    /// The turn of a peer, given the piece that is picked for it.
    pub open spec fn turn(self, id: u64, pick: Option<u32>) -> (Swarm, Seq<Ask>) {
        if self.eligible(id) {
            let (s, blocks) = self.planned(id, pick);
            (s.asking(id, blocks), asks_of(id, blocks))
        } else {
            (self, Seq::empty())
        }
    }

    /// The turns of peers one after another, given the pieces that are picked.
    pub open spec fn round(self, order: Seq<u64>, picks: Seq<Option<u32>>) -> (Swarm, Seq<Ask>)
        decreases order.len(),
    {
        if order.len() == 0 {
            (self, Seq::empty())
        } else {
            let (s, asks) = self.round(order.drop_last(), picks.drop_last());
            let (t, more) = s.turn(order.last(), picks.last());
            (t, asks + more)
        }
    }

    /// Whether the pieces can be what is picked in the turns of peers.
    pub open spec fn may_pick_all(self, order: Seq<u64>, picks: Seq<Option<u32>>) -> bool
        decreases order.len(),
    {
        &&& picks.len() == order.len()
        &&& order.len() > 0 ==> {
            &&& self.may_pick_all(order.drop_last(), picks.drop_last())
            &&& ({
                let s = self.round(order.drop_last(), picks.drop_last()).0;
                if s.eligible(order.last()) {
                    s.may_pick(order.last(), picks.last())
                } else {
                    picks.last() is None
                }
            })
        }
    }

    /// Whether this is an order in which the peers that do not choke us can get their turns.
    pub open spec fn turn_order(self, order: Seq<u64>) -> bool {
        &&& order.no_duplicates()
        &&& forall|id: u64| #[trigger]
            order.contains(id) <==> self.peers.contains_key(id) && !self.peers[id].choking
        &&& forall|i: int, j: int|
            0 <= i < j < order.len() ==> self.peers[#[trigger] order[i]].rank()
                <= self.peers[#[trigger] order[j]].rank()
    }

    /// The swarm after a peer left.
    pub open spec fn after_leaving(self, id: u64) -> Swarm {
        if self.peers.contains_key(id) {
            let p = self.peers[id];
            let s = Swarm {
                pieces: Pieces { availability: self.pieces.departed(p.has), ..self.pieces },
                peers: self.peers.remove(id),
                ..self
            };
            match p.assigned {
                Some(piece) => s.released(piece),
                None => s,
            }
        } else {
            self
        }
    }

    /// The swarm after a peer told what it has, in place of what it told before.
    pub open spec fn after_bitfield(self, id: u64, bits: Seq<bool>) -> Swarm {
        if self.peers.contains_key(id) {
            self.with_pieces(
                Pieces {
                    availability: self.pieces.changed(self.peers[id].has, bits),
                    ..self.pieces
                },
            ).with_peer(id, Peer { has: bits, ..self.peers[id] })
        } else {
            self
        }
    }

    /// The swarm after a peer told that it has a piece. It counts only if that is news.
    pub open spec fn after_have(self, id: u64, index: u32) -> Swarm {
        if self.peers.contains_key(id) {
            let p = self.peers[id];
            let news = index < p.has.len() && !p.has[index as int];
            let pieces = if news && index < self.pieces.hashes.len() {
                Pieces {
                    availability: self.pieces.availability.update(
                        index as int,
                        more(self.pieces.availability[index as int]),
                    ),
                    ..self.pieces
                }
            } else {
                self.pieces
            };
            let has = if index < p.has.len() {
                p.has.update(index as int, true)
            } else {
                p.has
            };
            self.with_pieces(pieces).with_peer(id, Peer { has, ..p })
        } else {
            self
        }
    }

    /// The swarm after a peer choked us.
    pub open spec fn after_choking(self, id: u64) -> Swarm {
        if self.peers.contains_key(id) {
            let p = self.peers[id];
            let s = self.with_peer(
                id,
                Peer { choking: true, inflight: Set::empty(), assigned: None, ..p },
            );
            match p.assigned {
                Some(piece) => s.released(piece),
                None => s,
            }
        } else {
            self
        }
    }

    /// The swarm after a peer unchoked us.
    pub open spec fn after_unchoking(self, id: u64) -> Swarm {
        if self.peers.contains_key(id) {
            self.with_peer(id, Peer { choking: false, ..self.peers[id] })
        } else {
            self
        }
    }

    /// The swarm after a peer told whether it is interested.
    pub open spec fn after_interest(self, id: u64, interested: bool) -> Swarm {
        if self.peers.contains_key(id) {
            self.with_peer(id, Peer { interested, ..self.peers[id] })
        } else {
            self
        }
    }

    /// The swarm with a block counted as received from a peer.
    pub open spec fn credited(self, id: u64, index: u32, begin: u32, length: int) -> Swarm {
        if self.peers.contains_key(id) {
            let p = self.peers[id];
            self.with_peer(
                id,
                Peer {
                    inflight: p.inflight.remove((index, begin)),
                    window: p.window + length,
                    ..p
                },
            )
        } else {
            self
        }
    }

    /// The swarm with a piece taken from every peer that has it assigned. What is under way of
    /// it no longer counts.
    pub open spec fn finished(self, index: u32) -> Swarm {
        Swarm {
            peers: self.peers.map_values(
                |p: Peer|
                    if p.assigned == Some(index) {
                        Peer {
                            assigned: None,
                            inflight: p.inflight.filter(|n: (u32, u32)| n.0 != index),
                            ..p
                        }
                    } else {
                        p
                    },
            ),
            ..self
        }
    }

    /// The swarm with a corrupt piece taken from every peer that has it assigned. Nothing that
    /// is under way from such a peer counts any more.
    pub open spec fn restarted(self, index: u32) -> Swarm {
        Swarm {
            peers: self.peers.map_values(
                |p: Peer|
                    if p.assigned == Some(index) {
                        Peer { assigned: None, inflight: Set::empty(), ..p }
                    } else {
                        p
                    },
            ),
            ..self
        }
    }

    /// The swarm after a block came from a peer.
    pub open spec fn after_block(self, id: u64, index: u32, begin: u32, data: Seq<u8>) -> Swarm {
        let s = self.credited(id, index, begin, data.len() as int).with_pieces(
            self.pieces.after_block(index, begin, data),
        );
        match self.pieces.fate(index, begin, data) {
            Fate::Complete(buf) => if sha1_digest(buf) == self.pieces.hashes[index as int] {
                s.finished(index)
            } else {
                s.restarted(index)
            },
            _ => s,
        }
    }

    /// Whether a block is given to a peer that asks for it: we do not choke it, and the piece
    /// is there.
    pub open spec fn serves(self, id: u64, index: u32) -> bool {
        &&& self.peers.contains_key(id)
        &&& !self.peers[id].am_choking
        &&& self.pieces.state_of(index as int) is Have
    }

    /// The peers in some order.
    pub open spec fn peer_order(self, order: Seq<u64>) -> bool {
        &&& order.no_duplicates()
        &&& forall|id: u64| #[trigger] order.contains(id) <==> self.peers.contains_key(id)
    }

    /// What is done about a block that came from a peer. Every peer is told of a new piece, in
    /// the given order.
    pub open spec fn block_deeds(
        self,
        id: u64,
        index: u32,
        begin: u32,
        data: Seq<u8>,
        order: Seq<u64>,
    ) -> Seq<Deed> {
        match self.pieces.fate(index, begin, data) {
            Fate::Bad => seq![Deed::Bad(id)],
            Fate::Duplicate => Seq::empty(),
            Fate::Assembling(_) => Seq::empty(),
            Fate::Complete(buf) => if sha1_digest(buf) == self.pieces.hashes[index as int] {
                seq![Deed::Write { index, data: buf }] + announcements(index, order)
            } else {
                seq![Deed::Mismatch(index)]
            },
        }
    }

    /// What is done to show interest in a peer.
    pub open spec fn greeting(self, id: u64) -> Seq<Deed> {
        if self.peers.contains_key(id) {
            seq![Deed::Send(id, Command::Interested)]
        } else {
            Seq::empty()
        }
    }

    /// The swarm after what a peer did or said, before new requests are sent out.
    pub open spec fn after(self, e: Event) -> Swarm {
        match e {
            Event::Connected { .. } => self,
            Event::Disconnected { id } => self.after_leaving(id),
            Event::Bitfield { id, bits } => self.after_bitfield(id, bits),
            Event::Have { id, index } => self.after_have(id, index),
            Event::BlockReceived { id, index, begin, data } => self.after_block(
                id,
                index,
                begin,
                data,
            ),
            Event::RequestFromPeer { .. } => self,
            Event::Choked { id } => self.after_choking(id),
            Event::Unchoked { id } => self.after_unchoking(id),
            Event::Interested { id } => self.after_interest(id, true),
            Event::NotInterested { id } => self.after_interest(id, false),
        }
    }

    /// What is done about it, before new requests are sent out.
    pub open spec fn deeds(self, e: Event, order: Seq<u64>) -> Seq<Deed> {
        match e {
            Event::Connected { id } => self.greeting(id),
            Event::Bitfield { id, .. } => self.greeting(id),
            Event::Have { id, .. } => self.greeting(id),
            Event::BlockReceived { id, index, begin, data } => self.block_deeds(
                id,
                index,
                begin,
                data,
                order,
            ),
            Event::RequestFromPeer { id, index, begin, length } => if self.serves(id, index) {
                seq![Deed::Read { id, index, begin, length }]
            } else {
                Seq::empty()
            },
            _ => Seq::empty(),
        }
    }

    /// Whether an event leads to `t`, with these deeds: after what it brings about, peers are
    /// told, in some order, and then, but for some events, there is a round of requests.
    pub open spec fn reacts(self, e: Event, t: Swarm, deeds: Seq<Deed>) -> bool {
        exists|order: Seq<u64>, asks: Seq<Ask>|
            self.peer_order(order) && deeds == #[trigger] self.deeds(e, order) + #[trigger] requests(
                asks,
            ) && if e.refills() {
                self.after(e).filled(t, asks)
            } else {
                t == self.after(e) && asks.len() == 0
            }
    }

    /// The swarm with one more peer.
    pub open spec fn with_newcomer(self, num_pieces: nat) -> Swarm {
        Swarm {
            peers: self.peers.insert(self.next_id as u64, newcomer(num_pieces)),
            next_id: self.next_id + 1,
            ..self
        }
    }

    /// The peers that are interested in us.
    pub open spec fn interested(self) -> Set<u64> {
        self.peers.dom().filter(|id: u64| self.peers[id].interested)
    }

    /// Whether these are interested peers that gave the most since the last tick, as many as
    /// there are slots for.
    pub open spec fn best(self, top: Set<u64>) -> bool {
        &&& top.subset_of(self.interested())
        &&& top.len() == min(UNCHOKE_SLOTS as int, self.interested().len() as int)
        &&& forall|a: u64, b: u64| #[trigger]
            top.contains(a) && #[trigger] self.interested().contains(b) && !top.contains(b)
                ==> self.peers[b].window <= self.peers[a].window
    }

    /// Whether the next tick is one at which another peer is unchoked at random.
    pub open spec fn optimistic_tick(self) -> bool {
        (self.ticks + 1) % (OPTIMISTIC_EVERY as int) == 0
    }

    /// Whether `pick` can be the peer that is unchoked at random beside the best ones.
    pub open spec fn may_unchoke(self, top: Set<u64>, pick: Option<u64>) -> bool {
        let rest = self.interested().difference(top);
        match pick {
            Some(id) => self.optimistic_tick() && rest.contains(id),
            None => self.optimistic_tick() ==> rest.len() == 0,
        }
    }

    /// The peer that is unchoked at random, from now on.
    pub open spec fn next_optimistic(self, pick: Option<u64>) -> Option<u64> {
        if self.optimistic_tick() && pick is Some {
            pick
        } else {
            self.optimistic
        }
    }

    /// The peers to unchoke: the best, and the one picked at random at this tick or, in between,
    /// at an earlier one.
    pub open spec fn to_unchoke(self, top: Set<u64>, pick: Option<u64>) -> Set<u64> {
        let extra = if self.optimistic_tick() {
            pick
        } else {
            self.optimistic
        };
        match extra {
            Some(id) => if self.peers.contains_key(id) {
                top.insert(id)
            } else {
                top
            },
            None => top,
        }
    }

    /// The swarm with only these peers unchoked, and with what peers give counted anew.
    pub open spec fn unchoking(self, chosen: Set<u64>) -> Swarm {
        Swarm {
            peers: Map::new(
                |id: u64| self.peers.contains_key(id),
                |id: u64|
                    Peer { am_choking: !chosen.contains(id), window: 0, ..self.peers[id] },
            ),
            ..self
        }
    }

    /// What peers are told when only the chosen ones are unchoked, in order.
    pub open spec fn choke_deeds(self, chosen: Set<u64>, order: Seq<u64>) -> Seq<Deed>
        decreases order.len(),
    {
        if order.len() == 0 {
            Seq::empty()
        } else {
            let id = order.last();
            let first = self.choke_deeds(chosen, order.drop_last());
            if chosen.contains(id) && self.peers[id].am_choking {
                first.push(Deed::Send(id, Command::Unchoke))
            } else if !chosen.contains(id) && !self.peers[id].am_choking {
                first.push(Deed::Send(id, Command::Choke))
            } else {
                first
            }
        }
    }

    /// Whether a choke tick leads to `t`, with these deeds.
    pub open spec fn chokes(self, t: Swarm, deeds: Seq<Deed>) -> bool {
        exists|top: Set<u64>, pick: Option<u64>, order: Seq<u64>|
            #![trigger self.best(top), self.may_unchoke(top, pick), self.peer_order(order)]
            self.best(top) && self.may_unchoke(top, pick) && self.peer_order(order) && t == (Swarm {
                ticks: self.ticks + 1,
                optimistic: self.next_optimistic(pick),
                ..self.unchoking(self.to_unchoke(top, pick))
            }) && deeds == self.choke_deeds(self.to_unchoke(top, pick), order)
    }

    /// Whether a round of turns, in some order and with some picks, leads to `t` and asks for
    /// these blocks.
    pub open spec fn filled(self, t: Swarm, asks: Seq<Ask>) -> bool {
        exists|order: Seq<u64>, picks: Seq<Option<u32>>| #[trigger]
            self.may_pick_all(order, picks) && self.turn_order(order) && self.round(order, picks)
                == (t, asks)
    }

    /// Whether piece `i` may be picked for a peer: it is missing, the peer has it, and does not
    /// choke us.
    pub open spec fn may_fetch(self, id: u64, i: u32) -> bool {
        &&& self.peers.contains_key(id)
        &&& !self.peers[id].choking
        &&& i < self.pieces.hashes.len()
        &&& self.pieces.state_of(i as int) is Missing
        &&& holds(self.peers[id].has, i as int)
    }

    /// Whether requests can be sent out: the pieces that are assigned, and those that may be
    /// picked, lie inside the torrent, so that their sizes can be computed.
    pub open spec fn askable(self) -> bool {
        &&& forall|id: u64| #[trigger]
            self.peers.contains_key(id) ==> (self.peers[id].assigned matches Some(i)
                ==> self.pieces.covers(i as int))
        &&& forall|id: u64, i: u32| #[trigger]
            self.may_fetch(id, i) ==> self.pieces.covers(i as int)
    }

    /// Whether everything fits together.
    pub open spec fn valid(self) -> bool {
        &&& self.pieces.valid()
        &&& self.peers.dom().finite()
        &&& forall|id: u64| #[trigger] self.peers.contains_key(id) ==> self.fits(id, self.peers[id])
        &&& forall|a: u64, b: u64|
            self.peers.contains_key(a) && self.peers.contains_key(b) && a != b
                && #[trigger] self.peers[a].assigned is Some ==> #[trigger] self.peers[b].assigned
                != self.peers[a].assigned
        &&& forall|i: u32| #[trigger] self.pieces.state_of(i as int) is InFlight ==> self.held(i)
        &&& self.downloading().len() <= MAX_DOWNLOADING_PEERS
    }

    /// Whether what is known of a peer fits: what is under way is part of the piece that it has
    /// assigned, no more than it may be asked for, and nothing while it chokes us. The piece is
    /// in flight.
    pub open spec fn fits(self, id: u64, p: Peer) -> bool {
        &&& id < self.next_id
        &&& 0 <= p.window
        &&& p.inflight.finite()
        &&& p.inflight.len() <= MAX_INFLIGHT_PER_PEER
        &&& p.choking ==> p.assigned is None
        &&& forall|i: u32, b: u32| #[trigger] p.inflight.contains((i, b)) ==> p.assigned == Some(i)
        &&& p.assigned matches Some(i) ==> self.pieces.state_of(i as int) is InFlight
    }
}

} // verus!
