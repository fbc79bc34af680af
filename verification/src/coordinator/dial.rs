//! Which addresses are dialed, and when.

use vstd::prelude::*;

use crate::pieces::min;

verus! {

/// Dials that may be under way at a time.
pub const MAX_DIALS: usize = 20;

/// How far a list of addresses has been dialed.
pub struct Dialer {
    /// How many addresses there are.
    pub total: usize,
    /// The next address to dial.
    pub next: usize,
    /// How many dials are under way.
    pub in_flight: usize,
    /// How many peers there may be.
    pub max_peers: usize,
}

impl Dialer {
    pub open spec fn well_formed(&self) -> bool {
        self.next <= self.total && self.in_flight <= MAX_DIALS && self.total <= self.max_peers
    }

    /// Whether, from `before` on, this is where dialing is once a dial came to its end with so
    /// many peers there, and `dialed` the addresses that are dialed: as many more as there are,
    /// as may be under way, and as there may be peers for.
    pub open spec fn dials_on(&self, before: Dialer, peers: int, dialed: (usize, usize)) -> bool {
        let left = if before.in_flight > 0 {
            before.in_flight - 1
        } else {
            0
        };
        let free = if peers + left < before.max_peers {
            before.max_peers - peers - left
        } else {
            0
        };
        let n = min(min(before.total - before.next, MAX_DIALS - left), free);
        &&& dialed.0 == before.next
        &&& dialed.1 == self.next
        &&& self.next == before.next + n
        &&& self.in_flight == left + n
    }

    /// Before the first dial. No more addresses are used than there may be peers.
    pub fn new(addresses: usize, max_peers: usize) -> (d: Self)
        ensures
            d.well_formed(),
            d.total == min(addresses as int, max_peers as int),
            d.next == 0,
            d.in_flight == 0,
            d.max_peers == max_peers,
    {
        let total: usize = if addresses <= max_peers {
            addresses
        } else {
            max_peers
        };
        Dialer { total, next: 0, in_flight: 0, max_peers }
    }

    /// Starts the first dials, as many as may be under way. Gives the addresses to dial, from
    /// the first up to the second.
    pub fn start(&mut self) -> (res: (usize, usize))
        requires
            old(self).well_formed(),
        ensures
            final(self).well_formed(),
            final(self).total == old(self).total,
            final(self).max_peers == old(self).max_peers,
            res.0 == old(self).next,
            res.1 == final(self).next,
            ({
                let n = min(
                    old(self).total - old(self).next,
                    MAX_DIALS - old(self).in_flight,
                );
                final(self).next == old(self).next + n && final(self).in_flight == old(
                    self,
                ).in_flight + n
            }),
    {
        let first: usize = self.next;
        while self.next < self.total && self.in_flight < MAX_DIALS
            invariant
                self.well_formed(),
                self.total == old(self).total,
                self.max_peers == old(self).max_peers,
                first == old(self).next,
                first <= self.next,
                self.in_flight - old(self).in_flight == self.next - first,
            decreases self.total - self.next,
        {
            self.next += 1;
            self.in_flight += 1;
        }
        (first, self.next)
    }

    /// Whether one more peer is taken in.
    pub fn takes_peer(&self, peers: usize) -> (res: bool)
        ensures
            res == (peers < self.max_peers),
    {
        peers < self.max_peers
    }

    /// Goes on when a dial came to its end, with so many peers there: dials as many more
    /// addresses as may be under way and as there may be peers for. Gives the addresses to
    /// dial, from the first up to the second.
    pub fn dial_ended(&mut self, peers: usize) -> (res: (usize, usize))
        requires
            old(self).well_formed(),
        ensures
            final(self).well_formed(),
            final(self).total == old(self).total,
            final(self).max_peers == old(self).max_peers,
            final(self).dials_on(*old(self), peers as int, res),
    {
        self.in_flight = self.in_flight.saturating_sub(1);
        let ghost left = self.in_flight as int;
        let first: usize = self.next;
        while self.next < self.total && self.in_flight < MAX_DIALS && peers < self.max_peers
            && self.in_flight < self.max_peers - peers
            invariant
                self.well_formed(),
                self.total == old(self).total,
                self.max_peers == old(self).max_peers,
                first == old(self).next,
                first <= self.next,
                0 <= left,
                left == (if old(self).in_flight > 0 {
                    old(self).in_flight - 1
                } else {
                    0
                }),
                self.in_flight - left == self.next - first,
                self.in_flight > left ==> peers + self.in_flight <= self.max_peers,
            decreases self.total - self.next,
        {
            self.next += 1;
            self.in_flight += 1;
        }
        (first, self.next)
    }
}

} // verus!
