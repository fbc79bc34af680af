//! The state of a download, as mathematics.

use vstd::prelude::*;

use crate::digest::sha1_digest;
use crate::piece::{groups, holds, tally, BlockRequest, PieceState, BLOCK_SIZE};

verus! {

/// A piece that is being put together.
#[verifier::ext_equal]
pub struct Assembly {
    pub buf: Seq<u8>,
    /// One flag for every block.
    pub received: Seq<bool>,
    /// How many blocks are still to come.
    pub left: int,
}

/// The pieces of a torrent.
#[verifier::ext_equal]
pub struct Pieces {
    pub piece_length: int,
    pub total_length: int,
    pub hashes: Seq<Seq<u8>>,
    pub state: Seq<PieceState>,
    pub availability: Seq<u16>,
    pub partial: Map<u32, Assembly>,
    pub have: Seq<bool>,
    pub completed: int,
}

/// What becomes of a block.
pub enum Fate {
    /// It does not lie inside the piece.
    Bad,
    /// It came before.
    Duplicate,
    /// Others are still to come.
    Assembling(Assembly),
    /// It was the last; the bytes of the piece.
    Complete(Seq<u8>),
}

/// `buf` with `data` in place of what stood from `at` on.
pub open spec fn splice(buf: Seq<u8>, at: int, data: Seq<u8>) -> Seq<u8> {
    buf.take(at) + data + buf.skip(at + data.len())
}

/// How many pieces are there.
pub open spec fn haves(state: Seq<PieceState>) -> nat
    decreases state.len(),
{
    if state.len() == 0 {
        0
    } else {
        haves(state.drop_last()) + if state.last() is Have {
            1nat
        } else {
            0nat
        }
    }
}

pub open spec fn min(a: int, b: int) -> int {
    if a <= b {
        a
    } else {
        b
    }
}

impl Assembly {
    /// This with `data` at `begin`, which is in the given block.
    pub open spec fn filled(self, begin: int, data: Seq<u8>, block: int) -> Assembly {
        Assembly {
            buf: splice(self.buf, begin, data),
            received: self.received.update(block, true),
            left: if self.left > 0 {
                self.left - 1
            } else {
                0
            },
        }
    }
}

impl Pieces {
    /// Where piece `i` starts in the torrent.
    pub open spec fn start(self, i: int) -> int {
        i * self.piece_length
    }

    /// The number of bytes of piece `i`; the last piece may be short.
    pub open spec fn size(self, i: int) -> int {
        min(self.start(i) + self.piece_length, self.total_length) - self.start(i)
    }

    /// Whether piece `i` starts inside the torrent and its end can be computed.
    pub open spec fn covers(self, i: int) -> bool {
        &&& 0 <= i
        &&& self.start(i) + self.piece_length <= u64::MAX
        &&& self.start(i) <= self.total_length
    }

    /// Whether every piece lies inside the torrent, so that its size can be computed.
    pub open spec fn all_covered(self) -> bool {
        forall|i: int| 0 <= i < self.hashes.len() ==> #[trigger] self.covers(i)
    }

    /// The size of piece `i` in the 32 bits that the protocol gives it.
    pub open spec fn len(self, i: int) -> u32 {
        self.size(i) as u32
    }

    /// The number of blocks of piece `i`.
    pub open spec fn blocks(self, i: int) -> int {
        groups(self.len(i) as int, BLOCK_SIZE as int)
    }

    /// Block `b` of piece `i`.
    pub open spec fn block(self, i: u32, b: int) -> BlockRequest {
        BlockRequest {
            index: i,
            begin: (b * BLOCK_SIZE) as u32,
            length: min(self.len(i as int) - b * BLOCK_SIZE, BLOCK_SIZE as int) as u32,
        }
    }

    /// Those of the first `k` blocks of piece `i` that have not been received.
    pub open spec fn outstanding(self, i: u32, k: int) -> Seq<BlockRequest>
        decreases k,
    {
        if k <= 0 {
            Seq::empty()
        } else if self.assembly(i).received[k - 1] {
            self.outstanding(i, k - 1)
        } else {
            self.outstanding(i, k - 1).push(self.block(i, k - 1))
        }
    }

    /// The blocks of piece `i` that have not been received, in order.
    pub open spec fn needed(self, i: u32) -> Seq<BlockRequest> {
        self.outstanding(i, self.blocks(i as int))
    }

    /// Piece `i` before any of its blocks.
    pub open spec fn fresh(self, i: u32) -> Assembly {
        Assembly {
            buf: Seq::new(self.len(i as int) as nat, |k: int| 0u8),
            received: Seq::new(self.blocks(i as int) as nat, |k: int| false),
            left: self.blocks(i as int),
        }
    }

    /// Piece `i` as far as it is put together.
    pub open spec fn assembly(self, i: u32) -> Assembly {
        if self.partial.contains_key(i) {
            self.partial[i]
        } else {
            self.fresh(i)
        }
    }

    /// What becomes of `data` at `begin` of piece `i`.
    pub open spec fn fate(self, i: u32, begin: u32, data: Seq<u8>) -> Fate {
        let block = begin as int / BLOCK_SIZE as int;
        let a = self.assembly(i);
        if begin + data.len() > self.len(i as int) || block >= self.blocks(i as int) {
            Fate::Bad
        } else if a.received[block] {
            Fate::Duplicate
        } else {
            let b = a.filled(begin as int, data, block);
            if b.left > 0 {
                Fate::Assembling(b)
            } else {
                Fate::Complete(b.buf)
            }
        }
    }

    /// Whether a block can be taken in: the size of its piece and its end can be computed, and
    /// if it completes the piece, there is a digest to hold it against.
    pub open spec fn takes(self, i: u32, begin: u32, data: Seq<u8>) -> bool {
        &&& self.covers(i as int)
        &&& begin + data.len() <= usize::MAX
        &&& self.fate(i, begin, data) is Complete ==> i < self.hashes.len()
    }

    /// The pieces after a block of piece `i`, before a complete piece is verified.
    pub open spec fn accepted(self, i: u32, fate: Fate) -> Pieces {
        match fate {
            Fate::Bad | Fate::Duplicate => self,
            Fate::Assembling(a) => Pieces { partial: self.partial.insert(i, a), ..self },
            Fate::Complete(_) => Pieces { partial: self.partial.remove(i), ..self },
        }
    }

    /// The pieces once it is known whether the bytes of the complete piece `i` are right. A piece
    /// that was there already is not counted again, and one that is found corrupt no longer
    /// counts.
    pub open spec fn settled(self, i: int, right: bool) -> Pieces {
        if right {
            Pieces {
                state: self.state.update(i, PieceState::Have),
                have: self.have.update(i, true),
                completed: self.completed + if self.state[i] is Have {
                    0int
                } else {
                    1
                },
                ..self
            }
        } else {
            Pieces {
                state: self.state.update(i, PieceState::Missing),
                have: self.have.update(i, false),
                completed: self.completed - if self.state[i] is Have {
                    1int
                } else {
                    0
                },
                ..self
            }
        }
    }

    /// The pieces after a block.
    pub open spec fn after_block(self, i: u32, begin: u32, data: Seq<u8>) -> Pieces {
        let fate = self.fate(i, begin, data);
        match fate {
            Fate::Complete(buf) => self.accepted(i, fate).settled(
                i as int,
                sha1_digest(buf) == self.hashes[i as int],
            ),
            _ => self.accepted(i, fate),
        }
    }

    /// The pieces with piece `i` in the given state.
    pub open spec fn with_state(self, i: int, state: PieceState) -> Pieces {
        Pieces { state: self.state.update(i, state), ..self }
    }

    /// The state of piece `i`; a piece out of range is missing.
    pub open spec fn state_of(self, i: int) -> PieceState {
        if 0 <= i < self.state.len() {
            self.state[i]
        } else {
            PieceState::Missing
        }
    }

    /// The pieces with an abandoned piece `i`: missing if it was in flight.
    pub open spec fn abandoned(self, i: int) -> Pieces {
        if self.state_of(i) is InFlight {
            self.with_state(i, PieceState::Missing)
        } else {
            self
        }
    }

    /// The pieces with a reclaimed piece `i`: in flight if it was missing.
    pub open spec fn reclaimed(self, i: int) -> Pieces {
        if 0 <= i < self.state.len() && self.state[i] is Missing {
            self.with_state(i, PieceState::InFlight)
        } else {
            self
        }
    }

    /// The availability once a peer with these pieces is there.
    pub open spec fn joined(self, peer: Seq<bool>) -> Seq<u16> {
        Seq::new(
            self.availability.len(),
            |i: int|
                if holds(peer, i) {
                    more(self.availability[i])
                } else {
                    self.availability[i]
                },
        )
    }

    /// The availability once a peer with these pieces is gone.
    pub open spec fn departed(self, peer: Seq<bool>) -> Seq<u16> {
        Seq::new(
            self.availability.len(),
            |i: int|
                if holds(peer, i) {
                    fewer(self.availability[i])
                } else {
                    self.availability[i]
                },
        )
    }

    /// The availability once a peer has other pieces than before.
    pub open spec fn changed(self, before: Seq<bool>, after: Seq<bool>) -> Seq<u16> {
        (Pieces { availability: self.departed(before), ..self }).joined(after)
    }

    /// Those of the first `k` pieces that are missing and that the peer has.
    pub open spec fn wanted(self, peer: Seq<bool>, k: int) -> Seq<u32>
        decreases k,
    {
        if k <= 0 {
            Seq::empty()
        } else if self.state[k - 1] is Missing && holds(peer, k - 1) {
            self.wanted(peer, k - 1).push((k - 1) as u32)
        } else {
            self.wanted(peer, k - 1)
        }
    }

    /// The missing pieces that the peer has.
    pub open spec fn candidates(self, peer: Seq<bool>) -> Seq<u32> {
        self.wanted(peer, (self.hashes.len() as u32) as int)
    }

    /// Whether no piece of `among` is rarer than piece `i`.
    pub open spec fn rarest(self, among: Seq<u32>, i: u32) -> bool {
        forall|j: u32|
            among.contains(j) ==> self.availability[i as int]
                <= #[trigger] self.availability[j as int]
    }

    /// The pieces to pick from: any candidate at first, then the rarest ones.
    pub open spec fn choices(self, peer: Seq<bool>) -> Seq<u32> {
        let candidates = self.candidates(peer);
        if self.completed < 4 {
            candidates
        } else {
            candidates.filter(|i: u32| self.rarest(candidates, i))
        }
    }

    /// The bytes of those of the first `k` pieces that are there.
    pub open spec fn downloaded(self, k: int) -> int
        decreases k,
    {
        if k <= 0 {
            0
        } else {
            self.downloaded(k - 1) + if self.state[k - 1] is Have {
                self.len(((k - 1) as u32) as int) as int
            } else {
                0
            }
        }
    }

    /// Whether there is a state and a count of peers for every piece.
    pub open spec fn aligned(self) -> bool {
        &&& self.state.len() == self.hashes.len()
        &&& self.availability.len() == self.hashes.len()
    }

    /// Whether everything fits together.
    pub open spec fn valid(self) -> bool {
        &&& 0 <= self.piece_length <= u64::MAX
        &&& 0 <= self.total_length <= u64::MAX
        &&& self.aligned()
        &&& self.have.len() == self.hashes.len()
        &&& self.progress_right()
        &&& forall|i: int|
            0 <= i < self.state.len() && (#[trigger] self.state[i]) is Have ==> self.covers(i)
        &&& forall|i: u32| #[trigger]
            self.partial.contains_key(i) ==> self.covers(i as int) && self.fits(i, self.partial[i])
    }

    /// Whether the count of complete pieces is how many are there, and the pieces that are
    /// marked as there are those that are.
    pub open spec fn progress_right(self) -> bool {
        &&& self.completed == haves(self.state)
        &&& forall|i: int|
            #![trigger self.state[i]]
            #![trigger self.have[i]]
            0 <= i < self.state.len() ==> (self.have[i] <==> self.state[i] is Have)
    }

    /// Whether these are pieces of the same torrent.
    pub open spec fn same_torrent(self, other: Pieces) -> bool {
        &&& self.piece_length == other.piece_length
        &&& self.total_length == other.total_length
        &&& self.hashes == other.hashes
    }

    /// Whether an assembly is one of piece `i`.
    pub open spec fn fits(self, i: u32, a: Assembly) -> bool {
        &&& a.buf.len() == self.len(i as int)
        &&& a.received.len() == self.blocks(i as int)
        &&& a.left == a.received.len() - tally(a.received)
    }
}

/// One more, held at the most that the counter takes.
pub open spec fn more(n: u16) -> u16 {
    if n == u16::MAX {
        n
    } else {
        (n + 1) as u16
    }
}

/// One fewer, held at zero.
pub open spec fn fewer(n: u16) -> u16 {
    if n == 0 {
        n
    } else {
        (n - 1) as u16
    }
}

} // verus!
