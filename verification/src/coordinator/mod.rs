//! The decisions of the download coordinator.

pub mod choke;
pub mod connections;
pub mod dial;
pub mod events;
pub mod laws;
pub mod names;
pub mod requests;

use std::collections::HashMap;

use vstd::prelude::*;

use crate::disk::plan;
use crate::metainfo::MetaInfo;
use crate::peer::connection::{CmdMsg, Command, PeerId};
use crate::piece::{Bitfield, PieceManager, PieceState};
use crate::pieces::Pieces;
use crate::sequences::push_contains;
use crate::storage::{layout_spans, Plan, Storage};
use crate::swarm::{newcomer, Deed, Peer, Swarm};
use crate::swarm_valid::{counters_valid, newcomer_valid};
use crate::torrent::total_of;

verus! {

/// Outstanding block requests per peer.
pub const MAX_INFLIGHT_PER_PEER: usize = 12;

/// Peers from which something is fetched at a time.
pub const MAX_DOWNLOADING_PEERS: usize = 8;

/// Peers that are unchoked for what they give.
pub const UNCHOKE_SLOTS: usize = 3;

/// Seconds between choke ticks.
pub const CHOKE_INTERVAL: u64 = 10;

/// Every so many choke ticks another peer is unchoked at random.
pub const OPTIMISTIC_EVERY: u32 = 3;

/// Something to be done outside, in the order in which it comes.
pub enum Action {
    /// Hand a command to the task of a peer.
    Send { id: PeerId, cmd: CmdMsg },
    /// Write the bytes of a verified piece to disk.
    WritePiece { index: u32, data: Vec<u8>, plan: Plan },
    /// Read a block from disk, for a peer that asked for it.
    ReadBlock { id: PeerId, index: u32, begin: u32, length: u32, plan: Plan },
    /// Report that a piece was corrupt and is downloaded again.
    HashMismatch { index: u32 },
    /// Report that a peer sent a block that does not lie inside its piece.
    BadBlock { id: PeerId },
}

/// Whether a plan is the one for these bytes of a torrent.
pub open spec fn plans(storage: Storage, p: Plan, start: int, end: int) -> bool {
    p.is(
        plan(storage.spans(), start, start, end).0,
        plan(storage.spans(), start, start, end).1,
    )
}

impl Action {
    /// Whether this does the deed, with the files of the torrent where they are.
    pub open spec fn does(&self, storage: Storage, deed: Deed) -> bool {
        match deed {
            Deed::Send(id, command) => match self {
                Action::Send { id: i, cmd } => *i == id && cmd@ == command,
                _ => false,
            },
            Deed::Write { index, data } => match self {
                Action::WritePiece { index: n, data: bytes, plan } => *n == index && bytes@ == data
                    && plans(
                    storage,
                    *plan,
                    index * storage.piece_length,
                    index * storage.piece_length + data.len(),
                ),
                _ => false,
            },
            Deed::Read { id, index, begin, length } => match self {
                Action::ReadBlock { id: i, index: n, begin: b, length: l, plan } => *i == id && *n
                    == index && *b == begin && *l == length && plans(
                    storage,
                    *plan,
                    index * storage.piece_length + begin,
                    index * storage.piece_length + begin + length,
                ),
                _ => false,
            },
            Deed::Mismatch(index) => match self {
                Action::HashMismatch { index: n } => *n == index,
                _ => false,
            },
            Deed::Bad(id) => match self {
                Action::BadBlock { id: i } => *i == id,
                _ => false,
            },
        }
    }
}

/// Whether the actions do the deeds, one by one.
pub open spec fn does_all(actions: Seq<Action>, storage: Storage, deeds: Seq<Deed>) -> bool {
    &&& actions.len() == deeds.len()
    &&& forall|i: int| 0 <= i < deeds.len() ==> (#[trigger] actions[i]).does(storage, deeds[i])
}

/// What is known of a peer.
pub struct PeerState {
    /// What the peer claims to have.
    pub bitfield: Bitfield,
    pub peer_choking: bool,
    pub peer_interested: bool,
    pub am_choking: bool,
    /// Bytes from this peer since the last choke tick.
    pub downloaded_window: u64,
    /// Outstanding block requests: piece and begin, none twice.
    pub inflight: Vec<(u32, u32)>,
    /// The piece that is being fetched from this peer.
    pub assigned_piece: Option<u32>,
}

impl PeerState {
    pub open spec fn view(&self) -> Peer {
        Peer {
            has: self.bitfield@,
            choking: self.peer_choking,
            interested: self.peer_interested,
            am_choking: self.am_choking,
            window: self.downloaded_window as int,
            inflight: self.inflight@.to_set(),
            assigned: self.assigned_piece,
        }
    }

    pub open spec fn well_formed(&self) -> bool {
        &&& self.bitfield.well_formed()
        &&& self.inflight@.no_duplicates()
    }

    /// A peer that just came.
    fn new(num_pieces: usize) -> (p: Self)
        ensures
            p.well_formed(),
            p@ == newcomer(num_pieces as nat),
    {
        let p: PeerState = PeerState {
            bitfield: Bitfield::new(num_pieces),
            peer_choking: true,
            peer_interested: false,
            am_choking: true,
            downloaded_window: 0,
            inflight: Vec::new(),
            assigned_piece: None,
        };
        assert(p@ =~= newcomer(num_pieces as nat));
        p
    }
}

/// The state of a download.
pub struct Coordinator {
    pub meta: MetaInfo,
    pub pieces: PieceManager,
    pub storage: Storage,
    pub peers: HashMap<PeerId, PeerState>,
    pub next_peer_id: PeerId,
    pub our_peer_id: [u8; 20],
    pub listen_port: u16,
    pub choke_ticks: u32,
    pub optimistic_unchoke: Option<PeerId>,
    pub uploaded: u64,
}

/// The same digests once more.
fn copy_digests(digests: &Vec<[u8; 20]>) -> (res: Vec<[u8; 20]>)
    ensures
        res@ == digests@,
{
    let mut res: Vec<[u8; 20]> = Vec::new();
    let mut i: usize = 0;
    while i < digests.len()
        invariant
            i <= digests@.len(),
            res@ == digests@.take(i as int),
        decreases digests.len() - i,
    {
        res.push(digests[i]);
        assert(res@ =~= digests@.take(i + 1));
        i += 1;
    }
    assert(digests@.take(i as int) =~= digests@);
    res
}

impl Coordinator {
    pub open spec fn view(&self) -> Swarm {
        Swarm {
            pieces: self.pieces@,
            peers: self.peers@.map_values(|p: PeerState| p@),
            next_id: self.next_peer_id as int,
            ticks: self.choke_ticks as int,
            optimistic: self.optimistic_unchoke,
            uploaded: self.uploaded as int,
        }
    }

    pub open spec fn well_formed(&self) -> bool {
        &&& self@.valid()
        &&& self.pieces.well_formed()
        &&& self.storage.well_formed()
        &&& self.storage.piece_length == self.pieces.piece_length
        &&& forall|id: u64| #[trigger] self.peers@.contains_key(id) ==> self.peers@[id].well_formed()
    }

    /// Nothing downloaded and nobody there.
    pub fn new(meta: MetaInfo, our_peer_id: [u8; 20], listen_port: u16) -> (c: Self)
        requires
            total_of(meta@.info.layout) <= u64::MAX,
        ensures
            c.well_formed(),
            c.meta == meta,
            c.our_peer_id == our_peer_id,
            c.listen_port == listen_port,
            c.storage.spans() == layout_spans(meta@.info.layout),
            c.storage.piece_length == meta@.info.piece_length,
            c.storage.root@ == meta@.info.name,
            c.storage.placed(meta.info.layout),
            c@ == (Swarm {
                pieces: Pieces {
                    piece_length: meta@.info.piece_length as int,
                    total_length: meta@.total_length,
                    hashes: meta@.info.hashes,
                    state: Seq::new(meta@.info.hashes.len(), |i: int| PieceState::Missing),
                    availability: Seq::new(meta@.info.hashes.len(), |i: int| 0u16),
                    partial: Map::empty(),
                    have: Seq::new(meta@.info.hashes.len(), |i: int| false),
                    completed: 0,
                },
                peers: Map::empty(),
                next_id: 1,
                ticks: 0,
                optimistic: None,
                uploaded: 0,
            }),
    {
        let storage: Storage = Storage::new(&meta);
        let hashes: Vec<[u8; 20]> = copy_digests(&meta.info.piece_hashes);
        let pieces: PieceManager = PieceManager::new(
            meta.info.piece_length,
            meta.total_length,
            hashes,
        );
        let c: Coordinator = Coordinator {
            meta,
            pieces,
            storage,
            peers: HashMap::new(),
            next_peer_id: 1,
            our_peer_id,
            listen_port,
            choke_ticks: 0,
            optimistic_unchoke: None,
            uploaded: 0,
        };
        proof {
            assert(c@.peers =~= Map::empty());
            assert(c@.downloading() =~= Set::empty());
            assert(c@.pieces.hashes =~= meta@.info.hashes);
        }
        c
    }

    /// The peers, in some order.
    fn ids(&self) -> (ids: Vec<PeerId>)
        ensures
            ids@.no_duplicates(),
            forall|id: u64| #[trigger] ids@.contains(id) <==> self.peers@.contains_key(id),
    {
        let mut ids: Vec<PeerId> = Vec::new();
        let ghost listed = vstd::std_specs::iter::IteratorSpec::remaining(
            &vstd::std_specs::hash::spec_keys_iter(&self.peers),
        ).unref();
        for id in it: self.peers.keys()
            invariant
                listed == it.seq().unref(),
                ids@ == listed.take(it.index() as int),
                listed.to_set() == self.peers@.dom(),
                it.seq().no_duplicates(),
        {
            ids.push(*id);
        }
        proof {
            assert(ids@ =~= listed);
            assert forall|id: u64| #[trigger] ids@.contains(id) <==> self.peers@.contains_key(id) by {
                assert(listed.to_set().contains(id) == self.peers@.dom().contains(id));
            }
        }
        ids
    }
}

impl Coordinator {
    /// Whether only the peers and the pieces differ.
    pub open spec fn same_frame(&self, other: &Coordinator) -> bool {
        &&& self.meta == other.meta
        &&& self.storage == other.storage
        &&& self.our_peer_id == other.our_peer_id
        &&& self.listen_port == other.listen_port
    }

    /// Records what is known of a peer.
    fn put(&mut self, id: PeerId, p: PeerState)
        ensures
            final(self)@ == old(self)@.with_peer(id, p@),
            final(self).peers@ == old(self).peers@.insert(id, p),
            final(self).pieces == old(self).pieces,
            final(self).same_frame(old(self)),
    {
        let ghost before = self@;
        self.peers.insert(id, p);
        proof {
            assert(self@.peers =~= before.peers.insert(id, p@));
        }
    }

    /// Abandons a piece in flight that no peer fetches any more.
    fn release_piece_if_orphaned(&mut self, piece: u32)
        requires
            old(self).pieces.well_formed(),
        ensures
            final(self)@ == old(self)@.released(piece),
            final(self).pieces.well_formed(),
            final(self).peers == old(self).peers,
            final(self).same_frame(old(self)),
    {
        let ids: Vec<PeerId> = self.ids();
        let mut still: bool = false;
        let mut i: usize = 0;
        while i < ids.len()
            invariant
                i <= ids@.len(),
                *self == *old(self),
                forall|id: u64| #[trigger] ids@.contains(id) <==> self.peers@.contains_key(id),
                still == exists|k: int|
                    0 <= k < i && (#[trigger] self.peers@[ids@[k]]).assigned_piece == Some(piece),
            decreases ids.len() - i,
        {
            assert(ids@.contains(ids@[i as int]));
            if let Some(p) = self.peers.get(&ids[i]) {
                assert(self.peers@[ids@[i as int]] == *p);
                if let Some(a) = p.assigned_piece {
                    if a == piece {
                        still = true;
                    }
                }
            }
            i += 1;
        }
        proof {
            if still {
                let k = choose|k: int|
                    0 <= k < ids@.len() && (#[trigger] self.peers@[ids@[k]]).assigned_piece == Some(
                        piece,
                    );
                assert(ids@.contains(ids@[k]));
                assert(self@.peers.contains_key(ids@[k]) && self@.peers[ids@[k]].assigned == Some(
                    piece,
                ));
            } else if self@.held(piece) {
                let id = choose|id: u64| #[trigger]
                    self@.peers.contains_key(id) && self@.peers[id].assigned == Some(piece);
                assert(ids@.contains(id));
                let k = choose|k: int| 0 <= k < ids@.len() && ids@[k] == id;
                assert(self.peers@[ids@[k]].assigned_piece == Some(piece));
            }
        }
        if !still && self.pieces.state(piece) == PieceState::InFlight {
            self.pieces.abandon_piece(piece);
        }
    }

    /// From how many peers something is being fetched.
    fn downloading_peer_count(&self) -> (n: usize)
        requires
            self.well_formed(),
        ensures
            n == self@.downloading().len(),
    {
        let ids: Vec<PeerId> = self.ids();
        let ghost busy = self@.downloading();
        let mut n: usize = 0;
        let mut i: usize = 0;
        assert(busy.intersect(ids@.take(0).to_set()) =~= Set::empty());
        while i < ids.len()
            invariant
                self.well_formed(),
                n <= i <= ids@.len(),
                ids@.no_duplicates(),
                forall|id: u64| #[trigger] ids@.contains(id) <==> self.peers@.contains_key(id),
                busy == self@.downloading(),
                n == busy.intersect(ids@.take(i as int).to_set()).len(),
            decreases ids.len() - i,
        {
            let id: PeerId = ids[i];
            let ghost before = busy.intersect(ids@.take(i as int).to_set());
            let ghost after = busy.intersect(ids@.take(i + 1).to_set());
            proof {
                assert(ids@.contains(id));
                assert(ids@.take(i + 1) =~= ids@.take(i as int).push(id));
                assert(!before.contains(id)) by {
                    if ids@.take(i as int).contains(id) {
                        let k = choose|k: int| 0 <= k < i && ids@[k] == id;
                        assert(ids@[k] == ids@[i as int]);
                    }
                }
                push_contains(ids@.take(i as int), id);
                assert forall|x: u64| ids@.take(i + 1).to_set().contains(x) == (x == id || ids@.take(
                    i as int,
                ).to_set().contains(x)) by {
                    assert(ids@.take(i as int).push(id).contains(x) == ids@.take(i + 1).to_set().contains(x));
                }
                if busy.contains(id) {
                    assert(after =~= before.insert(id));
                } else {
                    assert(after =~= before);
                }
            }
            if let Some(p) = self.peers.get(&id) {
                proof {
                    assert(self@.peers[id] == p@);
                    p.inflight@.unique_seq_to_set();
                }
                if !p.peer_choking && (p.inflight.len() > 0 || p.assigned_piece.is_some()) {
                    n += 1;
                }
            }
            i += 1;
        }
        proof {
            assert(ids@.take(i as int) =~= ids@);
            assert(busy.intersect(ids@.to_set()) =~= busy) by {
                assert forall|x: u64| busy.contains(x) implies ids@.to_set().contains(x) by {
                    assert(ids@.contains(x));
                }
            }
        }
        n
    }
}

impl Coordinator {
    /// The bytes of the pieces that are there.
    pub fn downloaded(&self) -> (bytes: u64)
        requires
            self.well_formed(),
            self@.pieces.hashes.len() <= 0x1_0000_0000 || self@.pieces.downloaded(
                self@.pieces.hashes.len() as int,
            ) <= u64::MAX,
        ensures
            bytes == self@.pieces.downloaded(self@.pieces.hashes.len() as int),
    {
        self.pieces.downloaded_bytes()
    }

    /// The bytes that were given to peers.
    pub fn uploaded(&self) -> (bytes: u64)
        ensures
            bytes == self@.uploaded,
    {
        self.uploaded
    }

    /// Takes in a new peer. It is told which pieces are there.
    pub fn register_peer(&mut self) -> (res: (PeerId, Action))
        requires
            old(self).well_formed(),
            old(self)@.next_id < u64::MAX,
        ensures
            final(self).well_formed(),
            final(self).same_frame(old(self)),
            final(self).pieces == old(self).pieces,
            final(self)@ == old(self)@.with_newcomer(old(self).meta.num_pieces as nat),
            res.0 == old(self)@.next_id,
            !old(self)@.peers.contains_key(res.0),
            res.1.does(
                old(self).storage,
                Deed::Send(res.0, Command::SendBitfield(old(self).pieces.have_bitfield.bits@)),
            ),
    {
        let ghost before = self@;
        proof {
            newcomer_valid(before, self.meta.num_pieces as nat);
        }
        let id: PeerId = self.next_peer_id;
        self.next_peer_id += 1;
        let p: PeerState = PeerState::new(self.meta.num_pieces);
        self.put(id, p);
        assert(self@ =~= before.with_newcomer(self.meta.num_pieces as nat));
        let bits: Vec<u8> = vstd::slice::slice_to_vec(self.pieces.have_bitfield().as_bytes());
        (id, Action::Send { id, cmd: CmdMsg::SendBitfield(bits) })
    }

    /// Gives a block that was read to the peer that asked for it.
    pub fn block_read(&mut self, id: PeerId, index: u32, begin: u32, block: Vec<u8>) -> (res: Option<
        Action,
    >)
        requires
            old(self).well_formed(),
            old(self)@.uploaded + block@.len() <= u64::MAX,
        ensures
            final(self).well_formed(),
            final(self).same_frame(old(self)),
            final(self).pieces == old(self).pieces,
            final(self)@ == (Swarm { uploaded: old(self)@.uploaded + block@.len(), ..old(self)@ }),
            if old(self)@.peers.contains_key(id) {
                res matches Some(a) && a.does(
                    old(self).storage,
                    Deed::Send(id, Command::SendPiece { index, begin, block: block@ }),
                )
            } else {
                res is None
            },
    {
        let ghost before = self@;
        self.uploaded += block.len() as u64;
        proof {
            counters_valid(before, self@);
            assert(self@ =~= Swarm { uploaded: before.uploaded + block@.len(), ..before });
        }
        if self.peers.contains_key(&id) {
            Some(Action::Send { id, cmd: CmdMsg::SendPiece { index, begin, block } })
        } else {
            None
        }
    }

    /// Ends the tasks of all peers.
    pub fn shutdown(&self) -> (actions: Vec<Action>)
        ensures
            exists|order: Seq<u64>| #[trigger]
                self@.peer_order(order) && does_all(
                    actions@,
                    self.storage,
                    order.map_values(|id: u64| Deed::Send(id, Command::Shutdown)),
                ),
    {
        let ids: Vec<PeerId> = self.ids();
        let mut actions: Vec<Action> = Vec::new();
        let mut i: usize = 0;
        while i < ids.len()
            invariant
                i <= ids@.len(),
                actions@.len() == i,
                forall|k: int|
                    0 <= k < i ==> (#[trigger] actions@[k]).does(
                        self.storage,
                        Deed::Send(ids@[k], Command::Shutdown),
                    ),
            decreases ids.len() - i,
        {
            actions.push(Action::Send { id: ids[i], cmd: CmdMsg::Shutdown });
            i += 1;
        }
        assert(self@.peer_order(ids@));
        actions
    }
}

} // verus!
