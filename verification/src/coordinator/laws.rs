//! That the coordinator is seen as it is, does what is to be done, and dials within its bounds.

use vstd::prelude::*;

use crate::coordinator::dial::{Dialer, MAX_DIALS};
use crate::coordinator::{Action, Coordinator, PeerState};
use crate::disk::plan;
use crate::octets::four;
use crate::peer::connection::{message_for, CmdMsg};
use crate::peer::laws::messages_are_sent_as_their_bytes;
use crate::peer::message::Message;
use crate::storage::Storage;
use crate::swarm::Deed;

verus! {

/// What is known of a peer is seen as it is kept.
pub proof fn peers_are_seen_as_they_are(p: PeerState)
    ensures
        p@.has == p.bitfield@,
        p@.choking == p.peer_choking,
        p@.interested == p.peer_interested,
        p@.am_choking == p.am_choking,
        p@.window == p.downloaded_window,
        p@.assigned == p.assigned_piece,
        forall|n: (u32, u32)| #[trigger] p@.inflight.contains(n) <==> p.inflight@.contains(n),
{
}

/// The coordinator is seen as it is kept.
pub proof fn coordinators_are_seen_as_they_are(c: Coordinator, id: u64)
    ensures
        c@.pieces == c.pieces@,
        c@.peers.contains_key(id) <==> c.peers@.contains_key(id),
        c.peers@.contains_key(id) ==> c@.peers[id] == c.peers@[id]@,
        c@.next_id == c.next_peer_id,
        c@.ticks == c.choke_ticks,
        c@.optimistic == c.optimistic_unchoke,
        c@.uploaded == c.uploaded,
{
}

/// What is done is what is to be done: the command goes to the peer that it is for, the bytes of
/// a piece are written from where the piece starts in the torrent, a block is read from where it
/// starts in the piece, for the peer that asked for it, and what went wrong is reported.
pub proof fn actions_do_their_deeds(a: Action, storage: Storage, deed: Deed)
    requires
        a.does(storage, deed),
    ensures
        match a {
            Action::Send { id, cmd } => deed == Deed::Send(id, cmd@),
            Action::WritePiece { index, data, plan: how } => {
                let start = index * storage.piece_length;
                let planned = plan(
                    storage.spans(),
                    start,
                    start,
                    start + data@.len(),
                );
                deed == (Deed::Write { index, data: data@ }) && how.is(planned.0, planned.1)
            },
            Action::ReadBlock { id, index, begin, length, plan: how } => {
                let start = index * storage.piece_length + begin;
                let planned = plan(storage.spans(), start, start, start + length);
                deed == (Deed::Read { id, index, begin, length }) && how.is(planned.0, planned.1)
            },
            Action::HashMismatch { index } => deed == Deed::Mismatch(index),
            Action::BadBlock { id } => deed == Deed::Bad(id),
        },
{
}

/// A command to the task of a peer is carried out by the message of the protocol that does it,
/// byte for byte. A shutdown is carried out without one.
pub proof fn commands_are_sent_as_their_bytes(cmd: CmdMsg, m: Message)
    requires
        message_for(cmd@) == Some(m@),
    ensures
        ({
            let f = m@.frame();
            match cmd {
                CmdMsg::Choke => f == seq![0u8, 0, 0, 1, 0],
                CmdMsg::Unchoke => f == seq![0u8, 0, 0, 1, 1],
                CmdMsg::Interested => f == seq![0u8, 0, 0, 1, 2],
                CmdMsg::NotInterested => f == seq![0u8, 0, 0, 1, 3],
                CmdMsg::RequestBlock { index, begin, length } => f.len() == 17 && f[4] == 6 && four(
                    f,
                    5,
                ) == index && four(f, 9) == begin && four(f, 13) == length,
                CmdMsg::CancelBlock { index, begin, length } => f.len() == 17 && f[4] == 8 && four(
                    f,
                    5,
                ) == index && four(f, 9) == begin && four(f, 13) == length,
                CmdMsg::Have(index) => f.len() == 9 && f[4] == 4 && four(f, 5) == index,
                CmdMsg::SendBitfield(bits) => f.len() == 5 + bits@.len() && f[4] == 5 && f.skip(5)
                    == bits@,
                CmdMsg::SendPiece { index, begin, block } => f.len() == 13 + block@.len() && f[4]
                    == 7 && four(f, 5) == index && four(f, 9) == begin && f.skip(13) == block@,
                CmdMsg::Shutdown => false,
            }
        }),
{
    messages_are_sent_as_their_bytes(m);
    let f = m@.frame();
    match cmd {
        CmdMsg::RequestBlock { .. } => {
            assert(f[4] == f.take(5)[4]);
        },
        CmdMsg::CancelBlock { .. } => {
            assert(f[4] == f.take(5)[4]);
        },
        CmdMsg::Have(_) => {
            assert(f[4] == f.take(5)[4]);
        },
        _ => {},
    }
}

/// Every command but a shutdown is carried out by a message.
pub proof fn commands_are_carried_out(cmd: CmdMsg)
    ensures
        message_for(cmd@) is None <==> cmd is Shutdown,
        cmd@ is Shutdown <==> cmd is Shutdown,
{
}

/// A connection becomes a peer exactly if there are fewer peers than there may be. The peer gets
/// the next number and is sent the bytes of what is there.
pub proof fn connections_become_peers(
    before: Coordinator,
    after: Coordinator,
    dialer: Dialer,
    res: Option<(u64, Action)>,
)
    requires
        after.takes_in(before, dialer, res),
    ensures
        res is Some <==> before@.peers.dom().len() < dialer.max_peers,
        res is None ==> after@ == before@,
        res matches Some((id, action)) ==> {
            &&& id == before.next_peer_id
            &&& after@.peers.contains_key(id)
            &&& after@.peers.dom().len() == before@.peers.dom().len() + 1
            &&& action matches Action::Send { id: to, cmd: CmdMsg::SendBitfield(bits) } && to == id
                && bits@ == before.pieces.have_bitfield.bits@
        },
{
}

/// When a dial came to its end, the next addresses are dialed in order, as many as possible: in
/// the end there are no more addresses, or as many dials are under way as may be, or there would
/// be more peers than there may be if all of them answered. Never are more dials under way than
/// may be, and none is started that there is no room for.
pub proof fn dialing_goes_on_within_bounds(
    before: Dialer,
    after: Dialer,
    peers: int,
    dialed: (usize, usize),
)
    requires
        before.well_formed(),
        0 <= peers,
        after.dials_on(before, peers, dialed),
    ensures
        dialed.0 == before.next,
        dialed.1 == after.next,
        before.next <= after.next <= before.total,
        after.in_flight <= MAX_DIALS,
        after.next - before.next == after.in_flight - if before.in_flight > 0 {
            before.in_flight - 1
        } else {
            0
        },
        after.next > before.next ==> peers + after.in_flight <= before.max_peers,
        after.next == before.total || after.in_flight == MAX_DIALS || peers + after.in_flight
            >= before.max_peers,
{
}

} // verus!
