//! What passes between the coordinator and the task of a peer.

use vstd::prelude::*;

use crate::peer::message::{Message, Wire};
use crate::piece::Bitfield;
use crate::swarm::Event;

verus! {

/// Handle for a connected peer, assigned by the coordinator.
pub type PeerId = u64;

/// From the coordinator to the task of a peer.
#[derive(Debug)]
pub enum CmdMsg {
    Choke,
    Unchoke,
    Interested,
    NotInterested,
    RequestBlock { index: u32, begin: u32, length: u32 },
    CancelBlock { index: u32, begin: u32, length: u32 },
    Have(u32),
    SendBitfield(Vec<u8>),
    /// Upload: send a block to the peer.
    SendPiece { index: u32, begin: u32, block: Vec<u8> },
    Shutdown,
}

/// From the task of a peer to the coordinator.
#[derive(Debug)]
pub enum PeerMsg {
    Connected { id: PeerId, peer_id: [u8; 20] },
    Disconnected { id: PeerId },
    Bitfield { id: PeerId, bits: Bitfield },
    Have { id: PeerId, index: u32 },
    BlockReceived { id: PeerId, index: u32, begin: u32, data: Vec<u8> },
    RequestFromPeer { id: PeerId, index: u32, begin: u32, length: u32 },
    Choked { id: PeerId },
    Unchoked { id: PeerId },
    Interested { id: PeerId },
    NotInterested { id: PeerId },
}

/// What a command says.
#[verifier::ext_equal]
pub enum Command {
    Choke,
    Unchoke,
    Interested,
    NotInterested,
    RequestBlock { index: u32, begin: u32, length: u32 },
    CancelBlock { index: u32, begin: u32, length: u32 },
    Have(u32),
    SendBitfield(Seq<u8>),
    SendPiece { index: u32, begin: u32, block: Seq<u8> },
    Shutdown,
}

impl PeerMsg {
    /// What the peer did or said.
    pub open spec fn event(&self) -> Event {
        match self {
            PeerMsg::Connected { id, .. } => Event::Connected { id: *id },
            PeerMsg::Disconnected { id } => Event::Disconnected { id: *id },
            PeerMsg::Bitfield { id, bits } => Event::Bitfield { id: *id, bits: bits@ },
            PeerMsg::Have { id, index } => Event::Have { id: *id, index: *index },
            PeerMsg::BlockReceived { id, index, begin, data } => Event::BlockReceived {
                id: *id,
                index: *index,
                begin: *begin,
                data: data@,
            },
            PeerMsg::RequestFromPeer { id, index, begin, length } => Event::RequestFromPeer {
                id: *id,
                index: *index,
                begin: *begin,
                length: *length,
            },
            PeerMsg::Choked { id } => Event::Choked { id: *id },
            PeerMsg::Unchoked { id } => Event::Unchoked { id: *id },
            PeerMsg::Interested { id } => Event::Interested { id: *id },
            PeerMsg::NotInterested { id } => Event::NotInterested { id: *id },
        }
    }
}

impl CmdMsg {
    pub open spec fn view(&self) -> Command {
        match self {
            CmdMsg::Choke => Command::Choke,
            CmdMsg::Unchoke => Command::Unchoke,
            CmdMsg::Interested => Command::Interested,
            CmdMsg::NotInterested => Command::NotInterested,
            CmdMsg::RequestBlock { index, begin, length } => Command::RequestBlock {
                index: *index,
                begin: *begin,
                length: *length,
            },
            CmdMsg::CancelBlock { index, begin, length } => Command::CancelBlock {
                index: *index,
                begin: *begin,
                length: *length,
            },
            CmdMsg::Have(index) => Command::Have(*index),
            CmdMsg::SendBitfield(bits) => Command::SendBitfield(bits@),
            CmdMsg::SendPiece { index, begin, block } => Command::SendPiece {
                index: *index,
                begin: *begin,
                block: block@,
            },
            CmdMsg::Shutdown => Command::Shutdown,
        }
    }
}

impl PeerMsg {
    /// Whether new requests are sent out after this, so that pieces are measured.
    pub fn refills(&self) -> (res: bool)
        ensures
            res == self.event().refills(),
    {
        match self {
            PeerMsg::Connected { .. } => false,
            PeerMsg::RequestFromPeer { .. } => false,
            PeerMsg::Interested { .. } => false,
            PeerMsg::NotInterested { .. } => false,
            _ => true,
        }
    }
}

/// The message that carries out a command. A shutdown is carried out without one.
pub open spec fn message_for(cmd: Command) -> Option<Wire> {
    match cmd {
        Command::Choke => Some(Wire::Choke),
        Command::Unchoke => Some(Wire::Unchoke),
        Command::Interested => Some(Wire::Interested),
        Command::NotInterested => Some(Wire::NotInterested),
        Command::RequestBlock { index, begin, length } => Some(
            Wire::Request { index, begin, length },
        ),
        Command::CancelBlock { index, begin, length } => Some(Wire::Cancel { index, begin, length }),
        Command::Have(index) => Some(Wire::Have(index)),
        Command::SendBitfield(bits) => Some(Wire::Bitfield(bits)),
        Command::SendPiece { index, begin, block } => Some(Wire::Piece { index, begin, block }),
        Command::Shutdown => None,
    }
}

/// The message to send for a command, or nothing if the task is to end.
pub fn command_message(cmd: CmdMsg) -> (res: Option<Message>)
    ensures
        match message_for(cmd@) {
            Some(w) => res matches Some(m) && m@ == w,
            None => res is None,
        },
        match cmd {
            CmdMsg::Choke => res == Some(Message::Choke),
            CmdMsg::Unchoke => res == Some(Message::Unchoke),
            CmdMsg::Interested => res == Some(Message::Interested),
            CmdMsg::NotInterested => res == Some(Message::NotInterested),
            CmdMsg::RequestBlock { index, begin, length } => res == Some(
                Message::Request { index, begin, length },
            ),
            CmdMsg::CancelBlock { index, begin, length } => res == Some(
                Message::Cancel { index, begin, length },
            ),
            CmdMsg::Have(index) => res == Some(Message::Have(index)),
            CmdMsg::SendBitfield(bits) => res == Some(Message::Bitfield(bits)),
            CmdMsg::SendPiece { index, begin, block } => res == Some(
                Message::Piece { index, begin, block },
            ),
            CmdMsg::Shutdown => res is None,
        },
{
    match cmd {
        CmdMsg::Choke => Some(Message::Choke),
        CmdMsg::Unchoke => Some(Message::Unchoke),
        CmdMsg::Interested => Some(Message::Interested),
        CmdMsg::NotInterested => Some(Message::NotInterested),
        CmdMsg::RequestBlock { index, begin, length } => Some(
            Message::Request { index, begin, length },
        ),
        CmdMsg::CancelBlock { index, begin, length } => Some(
            Message::Cancel { index, begin, length },
        ),
        CmdMsg::Have(index) => Some(Message::Have(index)),
        CmdMsg::SendBitfield(bits) => Some(Message::Bitfield(bits)),
        CmdMsg::SendPiece { index, begin, block } => Some(Message::Piece { index, begin, block }),
        CmdMsg::Shutdown => None,
    }
}

/// What the coordinator is told of a message from peer `id`. Keep-alives, ports and cancels
/// tell it nothing.
pub fn handle_message(id: PeerId, num_pieces: usize, msg: Message) -> (res: Option<PeerMsg>)
    ensures
        match msg@ {
            Wire::KeepAlive => res is None,
            Wire::Port(_) => res is None,
            Wire::Cancel { .. } => res is None,
            Wire::Choke => res == Some(PeerMsg::Choked { id }),
            Wire::Unchoke => res == Some(PeerMsg::Unchoked { id }),
            Wire::Interested => res == Some(PeerMsg::Interested { id }),
            Wire::NotInterested => res == Some(PeerMsg::NotInterested { id }),
            Wire::Have(index) => res == Some(PeerMsg::Have { id, index }),
            Wire::Bitfield(bytes) => res matches Some(PeerMsg::Bitfield { id: i, bits }) && i == id
                && bits.read_from(bytes, num_pieces as int),
            Wire::Request { index, begin, length } => res == Some(
                PeerMsg::RequestFromPeer { id, index, begin, length },
            ),
            Wire::Piece { index, begin, block } => res matches Some(
                PeerMsg::BlockReceived { id: i, index: n, begin: b, data },
            ) && i == id && n == index && b == begin && data@ == block,
        },
        match msg {
            Message::KeepAlive | Message::Port(_) | Message::Cancel { .. } => res is None,
            Message::Choke => res == Some(PeerMsg::Choked { id }),
            Message::Unchoke => res == Some(PeerMsg::Unchoked { id }),
            Message::Interested => res == Some(PeerMsg::Interested { id }),
            Message::NotInterested => res == Some(PeerMsg::NotInterested { id }),
            Message::Have(index) => res == Some(PeerMsg::Have { id, index }),
            Message::Bitfield(_) => res is Some,
            Message::Request { index, begin, length } => res == Some(
                PeerMsg::RequestFromPeer { id, index, begin, length },
            ),
            Message::Piece { .. } => res is Some,
        },
{
    match msg {
        Message::KeepAlive => None,
        Message::Port(_) => None,
        Message::Cancel { .. } => None,
        Message::Choke => Some(PeerMsg::Choked { id }),
        Message::Unchoke => Some(PeerMsg::Unchoked { id }),
        Message::Interested => Some(PeerMsg::Interested { id }),
        Message::NotInterested => Some(PeerMsg::NotInterested { id }),
        Message::Have(index) => Some(PeerMsg::Have { id, index }),
        Message::Bitfield(bits) => Some(
            PeerMsg::Bitfield { id, bits: Bitfield::from_bytes(bits, num_pieces) },
        ),
        Message::Piece { index, begin, block } => Some(
            PeerMsg::BlockReceived { id, index, begin, data: block },
        ),
        Message::Request { index, begin, length } => Some(
            PeerMsg::RequestFromPeer { id, index, begin, length },
        ),
    }
}

} // verus!
