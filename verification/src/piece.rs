//! Pieces of a torrent: bitfields, piece selection, block assembly and verification.

use std::collections::HashMap;

use vstd::prelude::*;

use crate::digest::{sha1, sha1_digest};
use crate::octets::same_bytes;
use crate::piece_laws::{all_there, downloaded_fits};
use crate::pieces::{fewer, haves, min, more, splice, Assembly, Fate, Pieces};
use crate::random::shuffle;

verus! {

/// The size of every block of a piece but the last.
pub const BLOCK_SIZE: u32 = 16384;

/// A set of piece indices, one bit each, the first in the high bit of the first byte.
#[derive(Debug, Clone, PartialEq, Eq)]
pub struct Bitfield {
    pub bits: Vec<u8>,
    pub num_pieces: usize,
}

/// The bit at position `p`.
pub open spec fn bit(bits: Seq<u8>, p: int) -> bool {
    bits[p / 8] & (1u8 << ((7 - p % 8) as u8)) != 0
}

/// The bit at position `p` of a set of `num` pieces that is read from `bits`: when the pieces do
/// not fill whole bytes, the last byte counts only as far as they fill theirs.
pub open spec fn kept(bits: Seq<u8>, num: int, p: int) -> bool {
    bit(bits, p) && !(num % 8 != 0 && p / 8 == bits.len() - 1 && p % 8 >= num % 8)
}

/// How many of `flags` are set.
pub open spec fn tally(flags: Seq<bool>) -> nat
    decreases flags.len(),
{
    if flags.len() == 0 {
        0
    } else {
        tally(flags.drop_last()) + if flags.last() {
            1nat
        } else {
            0nat
        }
    }
}

/// Whether a set holds `i`. A set holds nothing beyond its end.
pub open spec fn holds(flags: Seq<bool>, i: int) -> bool {
    0 <= i < flags.len() && flags[i]
}

/// The number of groups of `size` that `n` takes up.
pub open spec fn groups(n: int, size: int) -> int {
    if n % size == 0 {
        n / size
    } else {
        n / size + 1
    }
}

impl Bitfield {
    /// The bits of the pieces, in order.
    pub open spec fn view(&self) -> Seq<bool> {
        Seq::new(self.num_pieces as nat, |i: int| bit(self.bits@, i))
    }

    /// Whether there is a bit for every piece.
    pub open spec fn well_formed(&self) -> bool {
        groups(self.num_pieces as int, 8) <= self.bits@.len()
    }

    /// Whether the bytes are as many as the pieces take up, and no bit beyond the pieces is set:
    /// then the set fixes its bytes.
    pub open spec fn exact(&self) -> bool {
        &&& self.bits@.len() == groups(self.num_pieces as int, 8)
        &&& forall|p: int|
            self.num_pieces <= p < 8 * self.bits@.len() ==> !#[trigger] bit(self.bits@, p)
    }

    /// Whether piece `i` can be asked for: it is out of range or there is a bit for it.
    pub open spec fn readable(&self, i: int) -> bool {
        i >= self.num_pieces || i / 8 < self.bits@.len()
    }

    /// Whether this is the set of `num` pieces that is read from `bits`.
    pub open spec fn read_from(&self, bits: Seq<u8>, num: int) -> bool {
        &&& self.num_pieces == num
        &&& self.bits@.len() == bits.len()
        &&& forall|p: int| 0 <= p < 8 * bits.len() ==> #[trigger] bit(self.bits@, p) == kept(bits, num, p)
    }

    /// The set without any of `num_pieces` pieces.
    pub fn new(num_pieces: usize) -> (bf: Self)
        ensures
            bf.num_pieces == num_pieces,
            bf.bits@.len() == groups(num_pieces as int, 8),
            forall|p: int| 0 <= p < 8 * bf.bits@.len() ==> !#[trigger] bit(bf.bits@, p),
            bf@ == Seq::new(num_pieces as nat, |i: int| false),
            bf.well_formed(),
    {
        let nbytes: usize = num_pieces / 8 + if num_pieces % 8 == 0 {
            0
        } else {
            1
        };
        let bf: Bitfield = Bitfield { bits: vec![0u8; nbytes], num_pieces };
        proof {
            assert forall|p: int| 0 <= p < 8 * bf.bits@.len() implies !#[trigger] bit(bf.bits@, p) by {
                zero_has_no_bit((7 - p % 8) as u8);
            }
            assert(bf@ =~= Seq::new(num_pieces as nat, |i: int| false));
        }
        bf
    }

    /// A set of `num_pieces` pieces from its bytes. When the pieces do not fill whole bytes,
    /// the bits of the last byte beyond them are cleared.
    pub fn from_bytes(bits: Vec<u8>, num_pieces: usize) -> (bf: Self)
        ensures
            bf.read_from(bits@, num_pieces as int),
    {
        let ghost given = bits@;
        let mut bf: Bitfield = Bitfield { bits, num_pieces };
        if num_pieces % 8 != 0 && bf.bits.len() > 0 {
            let used: u8 = (num_pieces % 8) as u8;
            let mask: u8 = 0xFFu8 << (8 - used);
            let at: usize = bf.bits.len() - 1;
            let last: u8 = bf.bits[at] & mask;
            bf.bits.set(at, last);
            proof {
                assert forall|p: int| 0 <= p < 8 * given.len() implies #[trigger] bit(bf.bits@, p)
                    == kept(given, num_pieces as int, p) by {
                    if p / 8 == at {
                        mask_keeps(given[at as int], used, (7 - p % 8) as u8);
                    } else {
                        assert(bf.bits@[p / 8] == given[p / 8]);
                    }
                }
            }
        }
        bf
    }

    pub fn as_bytes(&self) -> (bytes: &[u8])
        ensures
            bytes@ == self.bits@,
    {
        self.bits.as_slice()
    }

    pub fn has(&self, index: usize) -> (res: bool)
        requires
            self.readable(index as int),
        ensures
            res == holds(self@, index as int),
    {
        if index >= self.num_pieces {
            return false;
        }
        let byte: u8 = self.bits[index / 8];
        let shift: u8 = (7 - index % 8) as u8;
        (byte & (1u8 << shift)) != 0
    }

    pub fn set(&mut self, index: usize)
        requires
            old(self).readable(index as int),
        ensures
            final(self).num_pieces == old(self).num_pieces,
            final(self).bits@.len() == old(self).bits@.len(),
            forall|p: int|
                0 <= p < 8 * old(self).bits@.len() ==> #[trigger] bit(final(self).bits@, p) == (bit(
                    old(self).bits@,
                    p,
                ) || p == index && index < old(self).num_pieces),
            old(self).well_formed() ==> final(self)@ == (if index < old(self).num_pieces {
                old(self)@.update(index as int, true)
            } else {
                old(self)@
            }),
    {
        if index >= self.num_pieces {
            return ;
        }
        let ghost before = *self;
        let at: usize = index / 8;
        let shift: u8 = (7 - index % 8) as u8;
        let byte: u8 = self.bits[at] | (1u8 << shift);
        self.bits.set(at, byte);
        proof {
            assert forall|p: int| 0 <= p < 8 * before.bits@.len() implies #[trigger] bit(
                self.bits@,
                p,
            ) == (bit(before.bits@, p) || p == index) by {
                if p / 8 == at {
                    or_sets(before.bits@[at as int], shift, (7 - p % 8) as u8);
                } else {
                    assert(self.bits@[p / 8] == before.bits@[p / 8]);
                }
            }
            if before.well_formed() {
                assert(self@ =~= before@.update(index as int, true));
            }
        }
    }

    pub fn clear(&mut self, index: usize)
        requires
            old(self).readable(index as int),
        ensures
            final(self).num_pieces == old(self).num_pieces,
            final(self).bits@.len() == old(self).bits@.len(),
            forall|p: int|
                0 <= p < 8 * old(self).bits@.len() ==> #[trigger] bit(final(self).bits@, p) == (bit(
                    old(self).bits@,
                    p,
                ) && !(p == index && index < old(self).num_pieces)),
            old(self).well_formed() ==> final(self)@ == (if index < old(self).num_pieces {
                old(self)@.update(index as int, false)
            } else {
                old(self)@
            }),
    {
        if index >= self.num_pieces {
            return ;
        }
        let ghost before = *self;
        let at: usize = index / 8;
        let shift: u8 = (7 - index % 8) as u8;
        let byte: u8 = self.bits[at] & !(1u8 << shift);
        self.bits.set(at, byte);
        proof {
            assert forall|p: int| 0 <= p < 8 * before.bits@.len() implies #[trigger] bit(
                self.bits@,
                p,
            ) == (bit(before.bits@, p) && p != index) by {
                if p / 8 == at {
                    and_clears(before.bits@[at as int], shift, (7 - p % 8) as u8);
                } else {
                    assert(self.bits@[p / 8] == before.bits@[p / 8]);
                }
            }
            if before.well_formed() {
                assert(self@ =~= before@.update(index as int, false));
            }
        }
    }

    /// How many pieces are in the set.
    pub fn count(&self) -> (n: usize)
        requires
            self.well_formed(),
        ensures
            n == tally(self@),
    {
        let mut n: usize = 0;
        let mut i: usize = 0;
        while i < self.num_pieces
            invariant
                self.well_formed(),
                n <= i <= self.num_pieces,
                n == tally(self@.take(i as int)),
            decreases self.num_pieces - i,
        {
            assert(self@.take(i + 1).drop_last() =~= self@.take(i as int));
            if self.has(i) {
                n += 1;
            }
            i += 1;
        }
        assert(self@.take(i as int) =~= self@);
        n
    }

    pub fn num_pieces(&self) -> (n: usize)
        ensures
            n == self.num_pieces,
    {
        self.num_pieces
    }
}

proof fn zero_has_no_bit(j: u8)
    by (bit_vector)
    ensures
        0u8 & (1u8 << j) == 0,
{
}

proof fn or_sets(byte: u8, k: u8, j: u8)
    by (bit_vector)
    requires
        k < 8,
        j < 8,
    ensures
        ((byte | (1u8 << k)) & (1u8 << j) != 0) == (byte & (1u8 << j) != 0 || k == j),
{
}

proof fn and_clears(byte: u8, k: u8, j: u8)
    by (bit_vector)
    requires
        k < 8,
        j < 8,
    ensures
        ((byte & !(1u8 << k)) & (1u8 << j) != 0) == (byte & (1u8 << j) != 0 && k != j),
{
}

proof fn mask_keeps(byte: u8, used: u8, j: u8)
    by (bit_vector)
    requires
        0 < used < 8,
        j < 8,
    ensures
        ((byte & (0xFFu8 << ((8 - used) as u8))) & (1u8 << j) != 0) == (byte & (1u8 << j) != 0 && j
            >= 8 - used),
{
}


#[derive(Debug, Clone, Copy, PartialEq, Eq, Structural)]
pub enum PieceState {
    Missing,
    InFlight,
    Have,
}

#[derive(Debug, Clone, Copy, PartialEq, Eq, Structural)]
pub struct BlockRequest {
    pub index: u32,
    pub begin: u32,
    pub length: u32,
}

#[derive(Debug, PartialEq, Eq, Structural)]
pub enum PieceError {
    BadBlock,
    HashMismatch { index: u32 },
}

/// A piece of which some blocks may be there.
pub struct PartialPiece {
    pub buf: Vec<u8>,
    pub received: Bitfield,
    pub blocks_left: u32,
}

impl PartialPiece {
    pub open spec fn view(&self) -> Assembly {
        Assembly { buf: self.buf@, received: self.received@, left: self.blocks_left as int }
    }
}

/// Which pieces are there, which are on their way, and how common each is among the peers.
pub struct PieceManager {
    pub piece_length: u64,
    pub total_length: u64,
    /// The expected SHA-1 digest of every piece.
    pub hashes: Vec<[u8; 20]>,
    pub state: Vec<PieceState>,
    /// How many peers have each piece.
    pub availability: Vec<u16>,
    pub partial: HashMap<u32, PartialPiece>,
    pub have_bitfield: Bitfield,
    /// Used to prefer random selection for the first few pieces.
    pub completed_count: usize,
}

impl PieceManager {
    pub open spec fn view(&self) -> Pieces {
        Pieces {
            piece_length: self.piece_length as int,
            total_length: self.total_length as int,
            hashes: self.hashes@.map_values(|h: [u8; 20]| h@),
            state: self.state@,
            availability: self.availability@,
            partial: self.partial@.map_values(|p: PartialPiece| p@),
            have: self.have_bitfield@,
            completed: self.completed_count as int,
        }
    }

    /// Whether everything fits together, there is a bit for every piece and block, and no bit
    /// beyond the pieces is set.
    pub open spec fn well_formed(&self) -> bool {
        &&& self@.valid()
        &&& self.have_bitfield.exact()
        &&& forall|i: u32| #[trigger]
            self.partial@.contains_key(i) ==> self.partial@[i].received.well_formed()
    }

    /// Nothing downloaded yet.
    pub fn new(piece_length: u64, total_length: u64, hashes: Vec<[u8; 20]>) -> (pm: Self)
        ensures
            pm.well_formed(),
            pm@ == (Pieces {
                piece_length: piece_length as int,
                total_length: total_length as int,
                hashes: hashes@.map_values(|h: [u8; 20]| h@),
                state: Seq::new(hashes@.len(), |i: int| PieceState::Missing),
                availability: Seq::new(hashes@.len(), |i: int| 0u16),
                partial: Map::empty(),
                have: Seq::new(hashes@.len(), |i: int| false),
                completed: 0,
            }),
    {
        let num_pieces: usize = hashes.len();
        let pm: PieceManager = PieceManager {
            piece_length,
            total_length,
            hashes,
            state: vec![PieceState::Missing; num_pieces],
            availability: vec![0u16; num_pieces],
            partial: HashMap::new(),
            have_bitfield: Bitfield::new(num_pieces),
            completed_count: 0,
        };
        proof {
            assert(pm@.partial =~= Map::empty());
            assert(pm.state@ =~= Seq::new(hashes@.len(), |i: int| PieceState::Missing));
            assert(pm.availability@ =~= Seq::new(hashes@.len(), |i: int| 0u16));
            none_have(pm.state@);
        }
        pm
    }

    pub fn num_pieces(&self) -> (n: usize)
        ensures
            n == self@.hashes.len(),
    {
        self.hashes.len()
    }

    pub fn have_bitfield(&self) -> (bf: &Bitfield)
        ensures
            *bf == self.have_bitfield,
            bf@ == self@.have,
            self.well_formed() ==> forall|i: int| #[trigger]
                holds(bf@, i) <==> self@.state_of(i) is Have,
    {
        &self.have_bitfield
    }

    pub fn is_complete(&self) -> (res: bool)
        ensures
            res == (self@.completed == self@.hashes.len()),
            self.well_formed() ==> (res <==> forall|i: int|
                0 <= i < self@.state.len() ==> (#[trigger] self@.state[i]) is Have),
    {
        proof {
            all_there(self@.state);
        }
        self.completed_count == self.hashes.len()
    }

    /// How many pieces are there, and how many the torrent has.
    pub fn progress(&self) -> (res: (usize, usize))
        ensures
            res.0 == self@.completed,
            res.1 == self@.hashes.len(),
            self.well_formed() ==> res.0 == haves(self@.state),
    {
        (self.completed_count, self.hashes.len())
    }

    /// The size of a piece; the last one may be short.
    pub fn piece_len(&self, index: u32) -> (len: u32)
        requires
            self@.covers(index as int),
        ensures
            len == self@.len(index as int),
    {
        proof {
            assert(index * self.piece_length >= 0) by (nonlinear_arith);
        }
        let start: u64 = index as u64 * self.piece_length;
        let sum: u64 = start + self.piece_length;
        let end: u64 = if sum <= self.total_length {
            sum
        } else {
            self.total_length
        };
        (end - start) as u32
    }

    /// The number of blocks of a piece.
    pub fn block_count(&self, index: u32) -> (n: u32)
        requires
            self@.covers(index as int),
        ensures
            n == self@.blocks(index as int),
    {
        let len: u32 = self.piece_len(index);
        if len % BLOCK_SIZE == 0 {
            len / BLOCK_SIZE
        } else {
            len / BLOCK_SIZE + 1
        }
    }

    /// The number of bytes of the pieces that are there.
    pub fn downloaded_bytes(&self) -> (bytes: u64)
        requires
            self.well_formed(),
            self@.hashes.len() <= 0x1_0000_0000 || self@.downloaded(self@.hashes.len() as int)
                <= u64::MAX,
        ensures
            bytes == self@.downloaded(self@.hashes.len() as int),
    {
        proof {
            if self@.hashes.len() <= 0x1_0000_0000 {
                downloaded_fits(self@, self@.hashes.len() as int);
            }
        }
        let mut bytes: u64 = 0;
        let mut i: usize = 0;
        while i < self.hashes.len()
            invariant
                self.well_formed(),
                i <= self.hashes@.len(),
                self@.downloaded(self@.hashes.len() as int) <= u64::MAX,
                bytes == self@.downloaded(i as int),
            decreases self.hashes.len() - i,
        {
            proof {
                downloaded_grows(self@, i + 1, self@.hashes.len() as int);
            }
            if self.state[i] == PieceState::Have {
                proof {
                    let t: u32 = i as u32;
                    assert(t <= i);
                    earlier_covered(self@, t as int, i as int);
                }
                bytes += self.piece_len(i as u32) as u64;
            }
            i += 1;
        }
        bytes
    }

    /// Counts a peer with these pieces in.
    pub fn on_peer_bitfield(&mut self, peer_has: &Bitfield)
        requires
            old(self).well_formed(),
            forall|i: int| 0 <= i < old(self)@.hashes.len() ==> #[trigger] peer_has.readable(i),
        ensures
            final(self).well_formed(),
            final(self)@ == (Pieces { availability: old(self)@.joined(peer_has@), ..old(self)@ }),
    {
        let ghost before = self.availability@;
        let mut i: usize = 0;
        while i < self.num_pieces()
            invariant
                i <= self.hashes@.len(),
                forall|k: int| 0 <= k < self.hashes@.len() ==> #[trigger] peer_has.readable(k),
                before == old(self)@.availability,
                before.len() == self.hashes@.len(),
                self.availability@.len() == before.len(),
                *self == (PieceManager { availability: self.availability, ..*old(self) }),
                forall|k: int|
                    0 <= k < before.len() ==> #[trigger] self.availability@[k] == if k < i
                        && holds(peer_has@, k) {
                        more(before[k])
                    } else {
                        before[k]
                    },
            decreases self.hashes.len() - i,
        {
            assert(peer_has.readable(i as int));
            if peer_has.has(i) {
                let n: u16 = self.availability[i].saturating_add(1);
                self.availability.set(i, n);
            }
            i += 1;
        }
        assert(self.availability@ =~= old(self)@.joined(peer_has@));
        assert(self@ =~= Pieces { availability: old(self)@.joined(peer_has@), ..old(self)@ });
    }

    /// Counts a peer in that now has piece `index`.
    pub fn on_peer_have(&mut self, index: u32)
        requires
            old(self).well_formed(),
        ensures
            final(self).well_formed(),
            final(self)@ == (if index < old(self)@.hashes.len() {
                Pieces {
                    availability: old(self)@.availability.update(
                        index as int,
                        more(old(self)@.availability[index as int]),
                    ),
                    ..old(self)@
                }
            } else {
                old(self)@
            }),
    {
        let i: usize = index as usize;
        if i < self.availability.len() {
            let n: u16 = self.availability[i].saturating_add(1);
            self.availability.set(i, n);
        }
    }

    /// Counts a peer with these pieces out.
    pub fn on_peer_disconnect(&mut self, peer_has: &Bitfield)
        requires
            old(self).well_formed(),
            forall|i: int| 0 <= i < old(self)@.hashes.len() ==> #[trigger] peer_has.readable(i),
        ensures
            final(self).well_formed(),
            final(self)@ == (Pieces { availability: old(self)@.departed(peer_has@), ..old(self)@ }),
    {
        let ghost before = self.availability@;
        let mut i: usize = 0;
        while i < self.num_pieces()
            invariant
                i <= self.hashes@.len(),
                forall|k: int| 0 <= k < self.hashes@.len() ==> #[trigger] peer_has.readable(k),
                before == old(self)@.availability,
                before.len() == self.hashes@.len(),
                self.availability@.len() == before.len(),
                *self == (PieceManager { availability: self.availability, ..*old(self) }),
                forall|k: int|
                    0 <= k < before.len() ==> #[trigger] self.availability@[k] == if k < i
                        && holds(peer_has@, k) {
                        fewer(before[k])
                    } else {
                        before[k]
                    },
            decreases self.hashes.len() - i,
        {
            assert(peer_has.readable(i as int));
            if peer_has.has(i) {
                let n: u16 = self.availability[i].saturating_sub(1);
                self.availability.set(i, n);
            }
            i += 1;
        }
        assert(self.availability@ =~= old(self)@.departed(peer_has@));
        assert(self@ =~= Pieces { availability: old(self)@.departed(peer_has@), ..old(self)@ });
    }

    /// The missing pieces that the peer has.
    fn candidates(&self, peer_has: &Bitfield) -> (res: Vec<u32>)
        requires
            self@.aligned(),
            self.can_ask(*peer_has),
        ensures
            res@ == self@.candidates(peer_has@),
    {
        let n: u32 = self.num_pieces() as u32;
        let mut res: Vec<u32> = Vec::new();
        let mut i: u32 = 0;
        assert(n <= self@.hashes.len());
        while i < n
            invariant
                self@.aligned(),
                self.can_ask(*peer_has),
                n == self@.hashes.len() as u32,
                i <= n <= self@.hashes.len(),
                res@ == self@.wanted(peer_has@, i as int),
            decreases n - i,
        {
            if self.state[i as usize] == PieceState::Missing {
                assert(peer_has.readable(i as int));
                if peer_has.has(i as usize) {
                    res.push(i);
                }
            }
            i += 1;
        }
        res
    }

    /// Whether it can be asked of every missing piece whether the peer has it.
    pub open spec fn can_ask(&self, peer_has: Bitfield) -> bool {
        forall|i: int|
            0 <= i < self@.hashes.len() && self@.state[i] is Missing ==> #[trigger] peer_has.readable(i)
    }

    /// The pieces to pick from for a peer: while fewer than four pieces were completed, the
    /// missing pieces that the peer has; after that, the rarest among them.
    pub fn choices(&self, peer_has: &Bitfield) -> (res: Vec<u32>)
        requires
            self@.aligned(),
            self.can_ask(*peer_has),
        ensures
            res@ == self@.choices(peer_has@),
    {
        let candidates: Vec<u32> = self.candidates(peer_has);
        if self.completed_count < 4 {
            return candidates;
        }
        let ghost all = candidates@;
        let ghost model = self@;
        proof {
            wanted_in_range(model, peer_has@, (model.hashes.len() as u32) as int);
        }
        let mut lowest: u16 = u16::MAX;
        let mut i: usize = 0;
        while i < candidates.len()
            invariant
                self@.aligned(),
                model == self@,
                all == candidates@,
                i <= candidates.len(),
                forall|k: int| 0 <= k < all.len() ==> #[trigger] all[k] < model.state.len(),
                forall|k: int| 0 <= k < i ==> lowest <= model.availability[#[trigger] all[k] as int],
                i > 0 ==> exists|k: int|
                    0 <= k < i && lowest == model.availability[#[trigger] all[k] as int],
            decreases candidates.len() - i,
        {
            let ghost shown = lowest;
            let n: u16 = self.availability[candidates[i] as usize];
            assert(n == model.availability[all[i as int] as int]);
            if i == 0 || n < lowest {
                lowest = n;
            }
            i += 1;
        }
        let mut res: Vec<u32> = Vec::new();
        let ghost pred = |x: u32| model.rarest(all, x);
        let mut j: usize = 0;
        proof {
            reveal(Seq::filter);
            assert(all.take(0) =~= Seq::empty());
        }
        while j < candidates.len()
            invariant
                self@.aligned(),
                model == self@,
                all == candidates@,
                j <= candidates.len(),
                pred == (|x: u32| model.rarest(all, x)),
                forall|k: int| 0 <= k < all.len() ==> #[trigger] all[k] < model.state.len(),
                forall|k: int|
                    0 <= k < all.len() ==> lowest <= model.availability[#[trigger] all[k] as int],
                all.len() > 0 ==> exists|k: int|
                    0 <= k < all.len() && lowest == model.availability[#[trigger] all[k] as int],
                res@ == all.take(j as int).filter(pred),
            decreases candidates.len() - j,
        {
            let x: u32 = candidates[j];
            proof {
                assert(all[j as int] == x);
                assert(all.take(j + 1).drop_last() =~= all.take(j as int));
                assert(all.take(j + 1).last() == x);
                reveal(Seq::filter);
                let w = choose|k: int|
                    0 <= k < all.len() && lowest == model.availability[#[trigger] all[k] as int];
                assert(all.contains(all[w]));
                if model.availability[x as int] == lowest {
                    assert forall|y: u32| all.contains(y) implies model.availability[x as int]
                        <= #[trigger] model.availability[y as int] by {
                        let k = choose|k: int| 0 <= k < all.len() && all[k] == y;
                        assert(all[k] == y);
                    }
                    assert(model.rarest(all, x));
                } else {
                    assert(model.availability[all[w] as int] == lowest);
                    assert(!model.rarest(all, x));
                }
            }
            if self.availability[x as usize] == lowest {
                res.push(x);
            }
            j += 1;
        }
        assert(all.take(j as int) =~= all);
        res
    }

    /// Takes the first piece of an order in which pieces may be picked.
    pub fn claim_first(&mut self, order: &Vec<u32>) -> (picked: Option<u32>)
        requires
            order.len() > 0 ==> order[0] < old(self)@.state.len(),
        ensures
            old(self).well_formed() && (order.len() > 0 ==> old(self)@.state[order[0] as int] !is Have)
                ==> final(self).well_formed(),
            order.len() == 0 ==> picked is None && final(self)@ == old(self)@,
            order.len() > 0 ==> picked == Some(order[0]) && final(self)@ == old(self)@.with_state(
                order[0] as int,
                PieceState::InFlight,
            ),
    {
        if order.len() == 0 {
            return None;
        }
        let picked: u32 = order[0];
        proof {
            if self.well_formed() && self@.state[picked as int] !is Have {
                with_state_valid(self@, picked as int, PieceState::InFlight);
            }
        }
        self.state.set(picked as usize, PieceState::InFlight);
        assert(self@ =~= old(self)@.with_state(picked as int, PieceState::InFlight));
        Some(picked)
    }

    /// Rarest-first among the missing pieces that the peer has, random among ties. For the
    /// first few pieces, random among all of them.
    pub fn pick_piece(&mut self, peer_has: &Bitfield) -> (picked: Option<u32>)
        requires
            old(self)@.aligned(),
            old(self).can_ask(*peer_has),
        ensures
            old(self).well_formed() ==> final(self).well_formed(),
            picked is None <==> old(self)@.candidates(peer_has@).len() == 0,
            match picked {
                Some(i) => old(self)@.choices(peer_has@).contains(i) && final(self)@ == old(
                    self,
                )@.with_state(i as int, PieceState::InFlight),
                None => final(self)@ == old(self)@,
            },
    {
        let mut order: Vec<u32> = self.choices(peer_has);
        proof {
            choices_are_candidates(self@, peer_has@);
        }
        shuffle(&mut order);
        proof {
            let listed = self@.choices(peer_has@);
            vstd::seq_lib::to_multiset_len(listed);
            vstd::seq_lib::to_multiset_len(order@);
            if order@.len() > 0 {
                listed.to_multiset_ensures();
                order@.to_multiset_ensures();
                assert(order@.contains(order@[0]));
                assert(order@.to_multiset().count(order@[0]) > 0);
                assert(listed.contains(order@[0]));
                assert(self@.candidates(peer_has@).contains(order@[0]));
            }
        }
        self.claim_first(&order)
    }

    /// Releases a piece in flight back to missing, keeping any partial blocks so that a later
    /// peer can resume.
    pub fn abandon_piece(&mut self, index: u32)
        requires
            old(self).well_formed(),
        ensures
            final(self).well_formed(),
            final(self)@ == old(self)@.abandoned(index as int),
    {
        let i: usize = index as usize;
        if i < self.state.len() && self.state[i] == PieceState::InFlight {
            proof {
                with_state_valid(self@, i as int, PieceState::Missing);
            }
            self.state.set(i, PieceState::Missing);
            assert(self@ =~= old(self)@.with_state(i as int, PieceState::Missing));
        }
    }

    /// Marks a missing piece as in flight without selection.
    pub fn reclaim_piece(&mut self, index: u32)
        requires
            old(self).well_formed(),
        ensures
            final(self).well_formed(),
            final(self)@ == old(self)@.reclaimed(index as int),
    {
        let i: usize = index as usize;
        if i < self.state.len() && self.state[i] == PieceState::Missing {
            proof {
                with_state_valid(self@, i as int, PieceState::InFlight);
            }
            self.state.set(i, PieceState::InFlight);
            assert(self@ =~= old(self)@.with_state(i as int, PieceState::InFlight));
        }
    }

    pub fn has_piece(&self, index: u32) -> (res: bool)
        ensures
            res == (self@.state_of(index as int) is Have),
    {
        self.state(index) == PieceState::Have
    }

    pub fn state(&self, index: u32) -> (state: PieceState)
        ensures
            state == self@.state_of(index as int),
    {
        if (index as usize) < self.state.len() {
            self.state[index as usize]
        } else {
            PieceState::Missing
        }
    }
}

impl PieceManager {
    /// The first `max` blocks of a piece that have not been received.
    fn missing_blocks(&self, index: u32, max: usize) -> (out: Vec<BlockRequest>)
        requires
            self.well_formed(),
            self@.covers(index as int),
        ensures
            out@ == self@.needed(index).take(min(max as int, self@.needed(index).len() as int)),
    {
        let piece_len: u32 = self.piece_len(index);
        let nblocks: u32 = self.block_count(index);
        let mut out: Vec<BlockRequest> = Vec::new();
        let mut bi: u32 = 0;
        while bi < nblocks
            invariant_except_break
                out@ == self@.outstanding(index, bi as int),
                out.len() <= max,
            invariant
                self.well_formed(),
                bi <= nblocks,
                nblocks == self@.blocks(index as int),
                piece_len == self@.len(index as int),
            ensures
                out@ == self@.needed(index).take(min(max as int, self@.needed(index).len() as int)),
            decreases nblocks - bi,
        {
            if out.len() >= max {
                proof {
                    outstanding_grows(self@, index, bi as int, nblocks as int);
                }
                break;
            }
            let received: bool = match self.partial.get(&index) {
                Some(p) => {
                    proof {
                        assert(self@.partial.contains_key(index));
                        assert(self@.partial[index] == p@);
                        assert(p.received.num_pieces == p@.received.len());
                    }
                    p.received.has(bi as usize)
                },
                None => false,
            };
            if !received {
                let begin: u32 = bi * BLOCK_SIZE;
                let rest: u32 = piece_len - begin;
                let length: u32 = if rest <= BLOCK_SIZE {
                    rest
                } else {
                    BLOCK_SIZE
                };
                out.push(BlockRequest { index, begin, length });
            }
            bi += 1;
            proof {
                if bi == nblocks {
                    assert(self@.needed(index).take(self@.needed(index).len() as int)
                        =~= self@.needed(index));
                }
            }
        }
        out
    }

    /// The next outstanding block requests for a piece, up to `max`.
    pub fn next_blocks(&mut self, index: u32, max: usize) -> (out: Vec<BlockRequest>)
        requires
            old(self).well_formed(),
            max > 0 ==> old(self)@.covers(index as int),
        ensures
            final(self).well_formed(),
            final(self)@ == (if max == 0 {
                old(self)@
            } else {
                Pieces {
                    partial: old(self)@.partial.insert(index, old(self)@.assembly(index)),
                    ..old(self)@
                }
            }),
            out@ == old(self)@.needed(index).take(
                min(max as int, old(self)@.needed(index).len() as int),
            ),
    {
        let ghost before = self@;
        if max == 0 {
            assert(before.needed(index).take(0) =~= Seq::empty());
            return Vec::new();
        }
        if !self.partial.contains_key(&index) {
            let piece_len: u32 = self.piece_len(index);
            let nblocks: u32 = self.block_count(index);
            let fresh: PartialPiece = PartialPiece {
                buf: vec![0u8; piece_len as usize],
                received: Bitfield::new(nblocks as usize),
                blocks_left: nblocks,
            };
            proof {
                fresh_fits(before, index);
                assert(fresh@ =~= before.fresh(index));
            }
            self.partial.insert(index, fresh);
        }
        proof {
            assert(self@.partial =~= before.partial.insert(index, before.assembly(index)));
            assert(self@ =~= Pieces {
                partial: before.partial.insert(index, before.assembly(index)),
                ..before
            });
            same_outstanding(before, self@, index, before.blocks(index as int));
        }
        self.missing_blocks(index, max)
    }

    /// The blocks of a piece that have not been received.
    pub fn blocks_still_needed(&self, index: u32) -> (out: Vec<BlockRequest>)
        requires
            self.well_formed(),
            self@.covers(index as int),
        ensures
            out@ == self@.needed(index),
    {
        let out: Vec<BlockRequest> = self.missing_blocks(index, usize::MAX);
        proof {
            outstanding_bounded(self@, index, self@.blocks(index as int));
            assert(self@.needed(index).take(self@.needed(index).len() as int) =~= self@.needed(
                index,
            ));
        }
        out
    }

    /// Whether the end of a piece can be computed, so that it can be asked for its size.
    pub fn covers(&self, index: u32) -> (res: bool)
        ensures
            res == self@.covers(index as int),
    {
        proof {
            assert(index * self.piece_length >= 0) by (nonlinear_arith);
        }
        match (index as u64).checked_mul(self.piece_length) {
            Some(start) => match start.checked_add(self.piece_length) {
                Some(_) => start <= self.total_length,
                None => false,
            },
            None => false,
        }
    }

    /// Whether every piece lies inside the torrent, which is so if the last one does.
    pub fn covers_all(&self) -> (res: bool)
        requires
            self@.hashes.len() <= u32::MAX,
        ensures
            res == self@.all_covered(),
    {
        let n: usize = self.hashes.len();
        if n == 0 {
            return true;
        }
        let res: bool = self.covers((n - 1) as u32);
        proof {
            if res {
                assert forall|i: int| 0 <= i < n implies #[trigger] self@.covers(i) by {
                    earlier_covered(self@, i, n - 1);
                }
            } else {
                assert(!self@.covers(n - 1));
            }
        }
        res
    }

    /// Whether a block can be taken in: the size of its piece can be computed, and if it
    /// completes the piece, there is a digest to hold it against.
    pub fn can_take(&self, index: u32, begin: u32, data: &[u8]) -> (res: bool)
        requires
            self.well_formed(),
        ensures
            res == self@.takes(index, begin, data@),
    {
        if !self.covers(index) || data.len() > usize::MAX - begin as usize {
            return false;
        }
        if (index as usize) < self.hashes.len() {
            return true;
        }
        let piece_len: usize = self.piece_len(index) as usize;
        let nblocks: u32 = self.block_count(index);
        let block_index: u32 = begin / BLOCK_SIZE;
        if begin as usize + data.len() > piece_len || block_index >= nblocks {
            return true;
        }
        proof {
            fresh_fits(self@, index);
        }
        match self.partial.get(&index) {
            Some(p) => {
                proof {
                    assert(self@.partial.contains_key(index));
                    assert(self@.partial[index] == p@);
                    assert(p.received.num_pieces == p@.received.len());
                }
                p.received.has(block_index as usize) || p.blocks_left > 1
            },
            None => nblocks > 1,
        }
    }

    /// Takes in a block. Gives the bytes of the piece when that was the last block of it; they
    /// are not verified yet.
    pub fn accept_block(&mut self, index: u32, begin: u32, data: &[u8]) -> (res: Result<
        Option<Vec<u8>>,
        PieceError,
    >)
        requires
            old(self).well_formed(),
            old(self)@.covers(index as int),
            begin + data@.len() <= usize::MAX,
        ensures
            final(self).well_formed(),
            final(self)@ == old(self)@.accepted(index, old(self)@.fate(index, begin, data@)),
            match old(self)@.fate(index, begin, data@) {
                Fate::Bad => res == Err::<Option<Vec<u8>>, PieceError>(PieceError::BadBlock),
                Fate::Duplicate => res matches Ok(None),
                Fate::Assembling(_) => res matches Ok(None),
                Fate::Complete(buf) => res matches Ok(Some(bytes)) && bytes@ == buf,
            },
    {
        let ghost before = self@;
        let piece_len: usize = self.piece_len(index) as usize;
        if begin as usize + data.len() > piece_len {
            return Err(PieceError::BadBlock);
        }
        let nblocks: u32 = self.block_count(index);
        let block_index: u32 = begin / BLOCK_SIZE;
        if block_index >= nblocks {
            return Err(PieceError::BadBlock);
        }
        proof {
            fresh_fits(before, index);
        }
        let mut partial: PartialPiece = match self.partial.remove(&index) {
            Some(p) => p,
            None => PartialPiece {
                buf: vec![0u8; piece_len],
                received: Bitfield::new(nblocks as usize),
                blocks_left: nblocks,
            },
        };
        let ghost a = partial@;
        proof {
            assert(a =~= before.assembly(index));
            assert(before.fits(index, a));
            assert(partial.received.num_pieces == a.received.len());
            assert(self@.partial =~= before.partial.remove(index));
        }
        if partial.received.has(block_index as usize) {
            self.partial.insert(index, partial);
            proof {
                assert(before.partial.contains_key(index));
                assert(self@.partial =~= before.partial);
                assert(self@ =~= before);
            }
            return Ok(None);
        }
        write_at(&mut partial.buf, begin as usize, data);
        partial.received.set(block_index as usize);
        partial.blocks_left = partial.blocks_left.saturating_sub(1);
        proof {
            assert(partial@ =~= a.filled(begin as int, data@, block_index as int));
            tally_update(a.received, block_index as int);
            assert(before.fits(index, partial@));
        }
        if partial.blocks_left > 0 {
            self.partial.insert(index, partial);
            proof {
                assert(self@.partial =~= before.partial.insert(index, partial@));
                assert(self@ =~= Pieces { partial: before.partial.insert(index, partial@), ..before });
            }
            return Ok(None);
        }
        assert(self@ =~= Pieces { partial: before.partial.remove(index), ..before });
        Ok(Some(partial.buf))
    }

    /// Decides on a complete piece by its digest: it is there, or it is missing again. A piece
    /// that was there already counts once, and no longer if it is missing again.
    pub fn settle(&mut self, index: u32, buf: Vec<u8>, digest: [u8; 20]) -> (res: Result<
        Option<Vec<u8>>,
        PieceError,
    >)
        requires
            old(self).well_formed(),
            index < old(self)@.hashes.len(),
            old(self)@.covers(index as int),
        ensures
            final(self).well_formed(),
            final(self)@ == old(self)@.settled(
                index as int,
                digest@ == old(self)@.hashes[index as int],
            ),
            if digest@ == old(self)@.hashes[index as int] {
                res matches Ok(Some(bytes)) && bytes@ == buf@
            } else {
                res == Err::<Option<Vec<u8>>, PieceError>(PieceError::HashMismatch { index })
            },
    {
        let ghost before = self@;
        let right: bool = same_bytes(
            digest.as_slice(),
            self.hashes[index as usize].as_slice(),
        );
        proof {
            settled_valid(before, index as int, right);
        }
        let counted: bool = self.has_piece(index);
        proof {
            haves_update(before.state, index as int, PieceState::Have);
            haves_update(before.state, index as int, PieceState::Missing);
            all_there(before.state.update(index as int, PieceState::Have));
        }
        if !right {
            self.state.set(index as usize, PieceState::Missing);
            self.have_bitfield.clear(index as usize);
            if counted {
                self.completed_count -= 1;
            }
            assert(self@ =~= before.settled(index as int, false));
            return Err(PieceError::HashMismatch { index });
        }
        self.state.set(index as usize, PieceState::Have);
        self.have_bitfield.set(index as usize);
        if !counted {
            self.completed_count += 1;
        }
        assert(self@ =~= before.settled(index as int, true));
        Ok(Some(buf))
    }

    /// Takes in a block. Gives the bytes of the piece when it is complete and its SHA-1 digest
    /// is right, and a hash mismatch when it is full but corrupt, in which case it is missing
    /// again.
    pub fn on_block(&mut self, index: u32, begin: u32, data: &[u8]) -> (res: Result<
        Option<Vec<u8>>,
        PieceError,
    >)
        requires
            old(self).well_formed(),
            old(self)@.takes(index, begin, data@),
        ensures
            final(self).well_formed(),
            final(self)@ == old(self)@.after_block(index, begin, data@),
            match old(self)@.fate(index, begin, data@) {
                Fate::Bad => res == Err::<Option<Vec<u8>>, PieceError>(PieceError::BadBlock),
                Fate::Duplicate => res matches Ok(None),
                Fate::Assembling(_) => res matches Ok(None),
                Fate::Complete(buf) => if sha1_digest(buf) == old(self)@.hashes[index as int] {
                    res matches Ok(Some(bytes)) && bytes@ == buf
                } else {
                    res == Err::<Option<Vec<u8>>, PieceError>(PieceError::HashMismatch { index })
                },
            },
    {
        match self.accept_block(index, begin, data) {
            Err(e) => Err(e),
            Ok(None) => Ok(None),
            Ok(Some(buf)) => {
                let digest: [u8; 20] = sha1(buf.as_slice());
                self.settle(index, buf, digest)
            },
        }
    }
}

/// Writes `data` into `buf` from `at` on.
fn write_at(buf: &mut Vec<u8>, at: usize, data: &[u8])
    requires
        at + data@.len() <= old(buf)@.len(),
    ensures
        final(buf)@ == splice(old(buf)@, at as int, data@),
{
    let ghost before = buf@;
    let mut i: usize = 0;
    while i < data.len()
        invariant
            i <= data@.len(),
            before == old(buf)@,
            at + data@.len() <= before.len(),
            buf.len() == before.len(),
            forall|k: int|
                0 <= k < before.len() ==> #[trigger] buf@[k] == if at <= k < at + i {
                    data@[k - at]
                } else {
                    before[k]
                },
        decreases data.len() - i,
    {
        buf.set(at + i, data[i]);
        i += 1;
    }
    assert(buf@ =~= splice(before, at as int, data@));
}

/// The first blocks outstanding are a beginning of all that are.
proof fn outstanding_grows(p: Pieces, i: u32, j: int, k: int)
    requires
        j <= k,
    ensures
        p.outstanding(i, j).len() <= p.outstanding(i, k).len(),
        p.outstanding(i, j) == p.outstanding(i, k).take(p.outstanding(i, j).len() as int),
    decreases k,
{
    if j == k || k <= 0 {
        assert(p.outstanding(i, k).take(p.outstanding(i, k).len() as int) =~= p.outstanding(i, k));
    } else {
        outstanding_grows(p, i, j, k - 1);
        let n = p.outstanding(i, j).len() as int;
        assert(p.outstanding(i, k).take(n) =~= p.outstanding(i, k - 1).take(n));
    }
}

/// There are no more blocks outstanding than there are blocks.
proof fn outstanding_bounded(p: Pieces, i: u32, k: int)
    requires
        0 <= k,
    ensures
        p.outstanding(i, k).len() <= k,
    decreases k,
{
    if k > 0 {
        outstanding_bounded(p, i, k - 1);
    }
}

/// Which blocks are outstanding depends on the assembly of the piece alone.
pub proof fn same_outstanding(p: Pieces, q: Pieces, i: u32, k: int)
    requires
        p.assembly(i) == q.assembly(i),
        p.piece_length == q.piece_length,
        p.total_length == q.total_length,
    ensures
        p.outstanding(i, k) == q.outstanding(i, k),
    decreases k,
{
    if k > 0 {
        same_outstanding(p, q, i, k - 1);
    }
}

/// A piece without any block fits.
proof fn fresh_fits(p: Pieces, i: u32)
    ensures
        p.fits(i, p.fresh(i)),
{
    tally_none(p.fresh(i).received);
}

/// If no flag is set, none is counted.
pub proof fn tally_none(flags: Seq<bool>)
    requires
        forall|i: int| 0 <= i < flags.len() ==> !flags[i],
    ensures
        tally(flags) == 0,
    decreases flags.len(),
{
    if flags.len() > 0 {
        tally_none(flags.drop_last());
    }
}

/// Setting a flag that was not set counts one more.
pub proof fn tally_update(flags: Seq<bool>, i: int)
    requires
        0 <= i < flags.len(),
        !flags[i],
    ensures
        tally(flags.update(i, true)) == tally(flags) + 1,
        tally(flags) < flags.len(),
    decreases flags.len(),
{
    let after = flags.update(i, true);
    tally_bounded(flags.drop_last());
    if i == flags.len() - 1 {
        assert(after.drop_last() =~= flags.drop_last());
    } else {
        tally_update(flags.drop_last(), i);
        assert(after.drop_last() =~= flags.drop_last().update(i, true));
    }
}

/// No more flags are counted than there are.
pub proof fn tally_bounded(flags: Seq<bool>)
    ensures
        tally(flags) <= flags.len(),
    decreases flags.len(),
{
    if flags.len() > 0 {
        tally_bounded(flags.drop_last());
    }
}

/// Everything still fits together when a complete piece is decided on.
pub proof fn settled_valid(p: Pieces, i: int, right: bool)
    requires
        p.valid(),
        0 <= i < p.state.len(),
        p.covers(i),
    ensures
        p.settled(i, right).valid(),
{
    let q = p.settled(i, right);
    haves_update(p.state, i, PieceState::Have);
    haves_update(p.state, i, PieceState::Missing);
    assert forall|k: int| 0 <= k < q.state.len() implies (#[trigger] q.have[k] <==> q.state[k] is Have) by {
        assert(p.have[k] <==> p.state[k] is Have);
    }
    assert forall|k: int| 0 <= k < q.state.len() && (#[trigger] q.state[k]) is Have implies q.covers(
        k,
    ) by {
        if k != i {
            assert(p.state[k] is Have);
            assert(p.covers(k));
        }
    }
    assert forall|k: u32| #[trigger] q.partial.contains_key(k) implies q.covers(k as int) && q.fits(
        k,
        q.partial[k],
    ) by {
        assert(p.covers(k as int) && p.fits(k, p.partial[k]));
    }
}

/// What earlier pieces come to is part of what later ones come to.
proof fn downloaded_grows(p: Pieces, j: int, k: int)
    requires
        j <= k,
    ensures
        0 <= p.downloaded(j) <= p.downloaded(k),
    decreases k,
{
    if k > 0 {
        if j < k {
            downloaded_grows(p, j, k - 1);
        } else {
            downloaded_grows(p, k - 1, k - 1);
        }
    }
}

/// A piece before a covered one is covered.
proof fn earlier_covered(p: Pieces, i: int, j: int)
    requires
        0 <= i <= j,
        0 <= p.piece_length,
        p.covers(j),
    ensures
        p.covers(i),
{
    assert(i * p.piece_length <= j * p.piece_length) by (nonlinear_arith)
        requires
            0 <= i <= j,
            0 <= p.piece_length,
    ;
}

/// Candidates are missing pieces that the peer has.
pub proof fn wanted_in_range(p: Pieces, peer: Seq<bool>, k: int)
    requires
        k <= u32::MAX + 1,
    ensures
        forall|c: int|
            #![trigger p.wanted(peer, k)[c]]
            0 <= c < p.wanted(peer, k).len() ==> p.wanted(peer, k)[c] < k
                && p.state[p.wanted(peer, k)[c] as int] is Missing && holds(peer, 
                p.wanted(peer, k)[c] as int,
            ),
    decreases k,
{
    if k > 0 {
        wanted_in_range(p, peer, k - 1);
    }
}

/// What may be picked is a candidate, and there is something to pick if there is a candidate.
pub proof fn choices_are_candidates(p: Pieces, peer: Seq<bool>)
    requires
        p.aligned(),
    ensures
        forall|i: u32| #[trigger]
            p.choices(peer).contains(i) ==> p.candidates(peer).contains(i),
        forall|i: u32| #[trigger]
            p.candidates(peer).contains(i) ==> i < p.hashes.len() && p.state[i as int] is Missing
                && holds(peer, i as int),
        p.choices(peer).len() == 0 <==> p.candidates(peer).len() == 0,
{
    let all = p.candidates(peer);
    let n = (p.hashes.len() as u32) as int;
    wanted_in_range(p, peer, n);
    if p.completed >= 4 {
        let pred = |i: u32| p.rarest(all, i);
        broadcast use vstd::seq_lib::group_filter_ensures;

        assert forall|i: u32| p.choices(peer).contains(i) implies all.contains(i) by {
            all.lemma_filter_contains_rev(pred, i);
        }
        if all.len() > 0 {
            let w = rarest_exists(p, all, all.len() as int);
            assert(pred(all[w]));
            assert(p.choices(peer).contains(all[w]));
        }
    }
}

proof fn rarest_exists(p: Pieces, all: Seq<u32>, k: int) -> (w: int)
    requires
        0 < k <= all.len(),
    ensures
        0 <= w < k,
        forall|j: int|
            0 <= j < k ==> p.availability[all[w] as int] <= p.availability[#[trigger] all[j] as int],
        k == all.len() ==> p.rarest(all, all[w]),
    decreases k,
{
    let w = if k == 1 {
        0
    } else {
        let v = rarest_exists(p, all, k - 1);
        if p.availability[all[v] as int] <= p.availability[all[k - 1] as int] {
            v
        } else {
            k - 1
        }
    };
    if k == all.len() {
        assert forall|y: u32| all.contains(y) implies p.availability[all[w] as int]
            <= #[trigger] p.availability[y as int] by {
            let j = choose|j: int| 0 <= j < all.len() && all[j] == y;
            assert(all[j] == y);
        }
    }
    w
}

/// Everything still fits together when a piece is taken away or put in flight.
pub proof fn with_state_valid(p: Pieces, i: int, s: PieceState)
    requires
        p.valid(),
        0 <= i < p.state.len(),
        p.state[i] !is Have,
        s !is Have,
    ensures
        p.with_state(i, s).valid(),
{
    let q = p.with_state(i, s);
    haves_update(p.state, i, s);
    assert forall|k: int| 0 <= k < q.state.len() implies (#[trigger] q.have[k] <==> q.state[k] is Have) by {
        assert(p.have[k] <==> p.state[k] is Have);
    }
    assert forall|k: int| 0 <= k < q.state.len() && (#[trigger] q.state[k]) is Have implies q.covers(
        k,
    ) by {
        assert(p.state[k] is Have);
        assert(p.covers(k));
    }
    assert forall|k: u32| #[trigger] q.partial.contains_key(k) implies q.covers(k as int) && q.fits(
        k,
        q.partial[k],
    ) by {
        assert(p.covers(k as int) && p.fits(k, p.partial[k]));
    }
}

/// Changing the state of one piece changes how many are there by that piece.
pub proof fn haves_update(state: Seq<PieceState>, i: int, s: PieceState)
    requires
        0 <= i < state.len(),
    ensures
        haves(state.update(i, s)) == haves(state) - (if state[i] is Have {
            1int
        } else {
            0int
        }) + (if s is Have {
            1int
        } else {
            0int
        }),
    decreases state.len(),
{
    let after = state.update(i, s);
    if i == state.len() - 1 {
        assert(after.drop_last() =~= state.drop_last());
    } else {
        haves_update(state.drop_last(), i, s);
        assert(after.drop_last() =~= state.drop_last().update(i, s));
    }
}

proof fn none_have(state: Seq<PieceState>)
    requires
        forall|i: int| 0 <= i < state.len() ==> state[i] is Missing,
    ensures
        haves(state) == 0,
    decreases state.len(),
{
    if state.len() > 0 {
        none_have(state.drop_last());
    }
}

} // verus!
