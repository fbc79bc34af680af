//! Which connections are taken in, and when the download is over.

use vstd::prelude::*;

use crate::coordinator::dial::Dialer;
use crate::coordinator::{does_all, Action, Coordinator};
use crate::peer::connection::{Command, PeerId};
use crate::piece_laws::complete_means_all_there;
use crate::swarm::Deed;

verus! {

impl Coordinator {
    /// Whether there is room for one more peer.
    pub open spec fn has_room(&self, dialer: Dialer) -> bool {
        self@.peers.dom().len() < dialer.max_peers
    }

    /// Whether there are no more peers than there may be.
    pub open spec fn within(&self, dialer: Dialer) -> bool {
        self@.peers.dom().len() <= dialer.max_peers
    }

    /// Whether, from `before` on, `res` is what becomes of a connection: a new peer if there was
    /// room for it, which is told which pieces are there, and nothing otherwise.
    pub open spec fn takes_in(
        &self,
        before: Coordinator,
        dialer: Dialer,
        res: Option<(PeerId, Action)>,
    ) -> bool {
        if before.has_room(dialer) {
            &&& self@ == before@.with_newcomer(before.meta.num_pieces as nat)
            &&& self@.peers.dom().len() == before@.peers.dom().len() + 1
            &&& match res {
                Some((id, action)) => id == before@.next_id && !before@.peers.contains_key(id)
                    && action.does(
                    before.storage,
                    Deed::Send(id, Command::SendBitfield(before.pieces.have_bitfield.bits@)),
                ),
                None => false,
            }
        } else {
            self@ == before@ && res is None
        }
    }

    /// Takes in a peer that made a connection, if there is room for it. There are never more
    /// peers than there may be.
    pub fn peer_arrived(&mut self, dialer: &Dialer) -> (res: Option<(PeerId, Action)>)
        requires
            old(self).well_formed(),
            old(self).has_room(*dialer) ==> old(self)@.next_id < u64::MAX,
        ensures
            final(self).well_formed(),
            final(self).same_frame(old(self)),
            final(self).pieces == old(self).pieces,
            final(self).takes_in(*old(self), *dialer, res),
            old(self).within(*dialer) ==> final(self).within(*dialer),
    {
        let ghost before = self@;
        assert(before.peers.dom() =~= self.peers@.dom());
        if !dialer.takes_peer(self.peers.len()) {
            return None;
        }
        let arrived: (PeerId, Action) = self.register_peer();
        assert(self@.peers.dom() =~= before.peers.dom().insert(arrived.0));
        Some(arrived)
    }

    /// Goes on when a dial came to its end: takes in the peer if it answered and there is room
    /// for it, and dials on. Gives the addresses to dial, from the first up to the second.
    pub fn dial_came_back(&mut self, dialer: &mut Dialer, answered: bool) -> (res: (
        Option<(PeerId, Action)>,
        (usize, usize),
    ))
        requires
            old(self).well_formed(),
            old(dialer).well_formed(),
            answered && old(self).has_room(*old(dialer)) ==> old(self)@.next_id < u64::MAX,
        ensures
            final(self).well_formed(),
            final(self).same_frame(old(self)),
            final(self).pieces == old(self).pieces,
            final(dialer).well_formed(),
            if answered {
                final(self).takes_in(*old(self), *old(dialer), res.0)
            } else {
                final(self)@ == old(self)@ && res.0 is None
            },
            old(self).within(*old(dialer)) ==> final(self).within(*final(dialer)),
            final(dialer).max_peers == old(dialer).max_peers,
            final(dialer).total == old(dialer).total,
            final(dialer).dials_on(*old(dialer), final(self)@.peers.dom().len() as int, res.1),
    {
        let arrived: Option<(PeerId, Action)> = if answered {
            self.peer_arrived(dialer)
        } else {
            None
        };
        assert(self@.peers.dom() =~= self.peers@.dom());
        let more: (usize, usize) = dialer.dial_ended(self.peers.len());
        (arrived, more)
    }

    /// What is done when the download is complete: the tasks of all peers end. There is nothing
    /// to do before that.
    pub fn finish(&self) -> (res: Option<Vec<Action>>)
        requires
            self.well_formed(),
        ensures
            res is Some <==> self@.pieces.completed == self@.pieces.hashes.len(),
            res is Some <==> forall|i: int|
                0 <= i < self@.pieces.state.len() ==> (#[trigger] self@.pieces.state[i]) is Have,
            res matches Some(actions) ==> exists|order: Seq<u64>| #[trigger]
                self@.peer_order(order) && does_all(
                    actions@,
                    self.storage,
                    order.map_values(|id: u64| Deed::Send(id, Command::Shutdown)),
                ),
    {
        proof {
            complete_means_all_there(self@.pieces);
        }
        if self.pieces.is_complete() {
            Some(self.shutdown())
        } else {
            None
        }
    }
}

} // verus!
