//! Messages between peers and how they are framed.

use bytes::BytesMut;
use vstd::prelude::*;
use vstd::string::*;

use crate::buffer::{
    buffer_advance, buffer_deref, buffer_extend, buffer_new, buffer_put_u16, buffer_put_u32,
    buffer_put_u8, buffer_split_to, buffered,
};
use crate::error::{Error, Result};
use crate::octets::{be, be_len, be_round_trip, be_value, copy_range, read_u16, read_u32, spans};
use crate::text::{decimal, push_decimal};

verus! {

#[derive(Debug, Clone, PartialEq, Eq)]
pub enum Message {
    KeepAlive,
    Choke,
    Unchoke,
    Interested,
    NotInterested,
    Have(u32),
    Bitfield(Vec<u8>),
    Request { index: u32, begin: u32, length: u32 },
    Piece { index: u32, begin: u32, block: Vec<u8> },
    Cancel { index: u32, begin: u32, length: u32 },
    Port(u16),
}

/// What a message says.
#[verifier::ext_equal]
pub enum Wire {
    KeepAlive,
    Choke,
    Unchoke,
    Interested,
    NotInterested,
    Have(u32),
    Bitfield(Seq<u8>),
    Request { index: u32, begin: u32, length: u32 },
    Piece { index: u32, begin: u32, block: Seq<u8> },
    Cancel { index: u32, begin: u32, length: u32 },
    Port(u16),
}

/// The three numbers that name a block.
pub open spec fn block_name(index: u32, begin: u32, length: u32) -> Seq<u8> {
    be(index as int, 4) + be(begin as int, 4) + be(length as int, 4)
}

impl Wire {
    /// The kind of a message and what it carries.
    pub open spec fn payload(self) -> Seq<u8> {
        match self {
            Wire::KeepAlive => Seq::empty(),
            Wire::Choke => seq![0u8],
            Wire::Unchoke => seq![1u8],
            Wire::Interested => seq![2u8],
            Wire::NotInterested => seq![3u8],
            Wire::Have(index) => seq![4u8] + be(index as int, 4),
            Wire::Bitfield(bits) => seq![5u8] + bits,
            Wire::Request { index, begin, length } => seq![6u8] + block_name(index, begin, length),
            Wire::Piece { index, begin, block } => seq![7u8] + (be(index as int, 4) + be(
                begin as int,
                4,
            ) + block),
            Wire::Cancel { index, begin, length } => seq![8u8] + block_name(index, begin, length),
            Wire::Port(port) => seq![9u8] + be(port as int, 2),
        }
    }

    /// The length that is written in front of the payload. It counts in 32 bits.
    pub open spec fn declared(self) -> int {
        match self {
            Wire::KeepAlive => 0,
            Wire::Choke => 1,
            Wire::Unchoke => 1,
            Wire::Interested => 1,
            Wire::NotInterested => 1,
            Wire::Have(_) => 5,
            Wire::Bitfield(bits) => 1 + (bits.len() as u32),
            Wire::Request { .. } => 13,
            Wire::Piece { block, .. } => 9 + (block.len() as u32),
            Wire::Cancel { .. } => 13,
            Wire::Port(_) => 3,
        }
    }

    /// How many bytes the payload has.
    pub open spec fn size(self) -> nat {
        match self {
            Wire::KeepAlive => 0,
            Wire::Choke => 1,
            Wire::Unchoke => 1,
            Wire::Interested => 1,
            Wire::NotInterested => 1,
            Wire::Have(_) => 5,
            Wire::Bitfield(bits) => 1 + bits.len(),
            Wire::Request { .. } => 13,
            Wire::Piece { block, .. } => 9 + block.len(),
            Wire::Cancel { .. } => 13,
            Wire::Port(_) => 3,
        }
    }

    /// A message as it is sent: its length and its payload.
    pub open spec fn frame(self) -> Seq<u8> {
        be(self.declared(), 4) + self.payload()
    }
}

/// What a payload says, or the text of what is wrong with it.
pub open spec fn wire_of(p: Seq<u8>) -> std::result::Result<Wire, Seq<char>> {
    if p.len() == 0 {
        Ok(Wire::KeepAlive)
    } else if p[0] == 0 {
        Ok(Wire::Choke)
    } else if p[0] == 1 {
        Ok(Wire::Unchoke)
    } else if p[0] == 2 {
        Ok(Wire::Interested)
    } else if p[0] == 3 {
        Ok(Wire::NotInterested)
    } else if p[0] == 4 {
        if p.len() < 5 {
            Err("short have"@)
        } else {
            Ok(Wire::Have(be_value(p.subrange(1, 5)) as u32))
        }
    } else if p[0] == 5 {
        Ok(Wire::Bitfield(p.skip(1)))
    } else if p[0] == 6 || p[0] == 8 {
        if p.len() < 13 {
            Err("short request/cancel"@)
        } else {
            let index = be_value(p.subrange(1, 5)) as u32;
            let begin = be_value(p.subrange(5, 9)) as u32;
            let length = be_value(p.subrange(9, 13)) as u32;
            if p[0] == 6 {
                Ok(Wire::Request { index, begin, length })
            } else {
                Ok(Wire::Cancel { index, begin, length })
            }
        }
    } else if p[0] == 7 {
        if p.len() < 9 {
            Err("short piece"@)
        } else {
            Ok(
                Wire::Piece {
                    index: be_value(p.subrange(1, 5)) as u32,
                    begin: be_value(p.subrange(5, 9)) as u32,
                    block: p.skip(9),
                },
            )
        }
    } else if p[0] == 9 {
        if p.len() < 3 {
            Err("short port"@)
        } else {
            Ok(Wire::Port(be_value(p.subrange(1, 3)) as u16))
        }
    } else {
        Err("unknown message id "@ + decimal(p[0] as nat))
    }
}

impl Message {
    pub open spec fn view(&self) -> Wire {
        match self {
            Message::KeepAlive => Wire::KeepAlive,
            Message::Choke => Wire::Choke,
            Message::Unchoke => Wire::Unchoke,
            Message::Interested => Wire::Interested,
            Message::NotInterested => Wire::NotInterested,
            Message::Have(index) => Wire::Have(*index),
            Message::Bitfield(bits) => Wire::Bitfield(bits@),
            Message::Request { index, begin, length } => Wire::Request {
                index: *index,
                begin: *begin,
                length: *length,
            },
            Message::Piece { index, begin, block } => Wire::Piece {
                index: *index,
                begin: *begin,
                block: block@,
            },
            Message::Cancel { index, begin, length } => Wire::Cancel {
                index: *index,
                begin: *begin,
                length: *length,
            },
            Message::Port(port) => Wire::Port(*port),
        }
    }

    /// Whether the length of this message can be written down.
    pub fn can_encode(&self) -> (res: bool)
        ensures
            res == (self@.declared() <= u32::MAX),
    {
        match self {
            Message::Bitfield(bits) => bits.len() as u32 <= u32::MAX - 1,
            Message::Piece { block, .. } => block.len() as u32 <= u32::MAX - 9,
            _ => true,
        }
    }

    /// This message as it is sent.
    pub fn encode(&self) -> (bytes: Vec<u8>)
        requires
            self@.declared() <= u32::MAX,
            4 + self@.size() <= isize::MAX,
        ensures
            bytes@ == self@.frame(),
    {
        let mut buf: BytesMut = buffer_new();
        self.write_to(&mut buf);
        let bytes: Vec<u8> = vstd::slice::slice_to_vec(buffer_deref(&buf));
        assert(bytes@ =~= self@.frame());
        bytes
    }

    /// Appends this message as it is sent.
    pub fn write_to(&self, buf: &mut BytesMut)
        requires
            self@.declared() <= u32::MAX,
            buffered(*old(buf)).len() + 4 + self@.size() <= isize::MAX,
        ensures
            buffered(*final(buf)) == buffered(*old(buf)) + self@.frame(),
    {
        broadcast use be_len;

        let ghost before = buffered(*buf);
        match self {
            Message::KeepAlive => {
                buffer_put_u32(buf, 0);
            },
            Message::Choke => {
                buffer_put_u32(buf, 1);
                buffer_put_u8(buf, 0);
            },
            Message::Unchoke => {
                buffer_put_u32(buf, 1);
                buffer_put_u8(buf, 1);
            },
            Message::Interested => {
                buffer_put_u32(buf, 1);
                buffer_put_u8(buf, 2);
            },
            Message::NotInterested => {
                buffer_put_u32(buf, 1);
                buffer_put_u8(buf, 3);
            },
            Message::Have(index) => {
                buffer_put_u32(buf, 5);
                buffer_put_u8(buf, 4);
                buffer_put_u32(buf, *index);
            },
            Message::Bitfield(bits) => {
                buffer_put_u32(buf, 1 + bits.len() as u32);
                buffer_put_u8(buf, 5);
                buffer_extend(buf, bits.as_slice());
            },
            Message::Request { index, begin, length } => {
                buffer_put_u32(buf, 13);
                buffer_put_u8(buf, 6);
                buffer_put_u32(buf, *index);
                buffer_put_u32(buf, *begin);
                buffer_put_u32(buf, *length);
            },
            Message::Piece { index, begin, block } => {
                buffer_put_u32(buf, 9 + block.len() as u32);
                buffer_put_u8(buf, 7);
                buffer_put_u32(buf, *index);
                buffer_put_u32(buf, *begin);
                buffer_extend(buf, block.as_slice());
            },
            Message::Cancel { index, begin, length } => {
                buffer_put_u32(buf, 13);
                buffer_put_u8(buf, 8);
                buffer_put_u32(buf, *index);
                buffer_put_u32(buf, *begin);
                buffer_put_u32(buf, *length);
            },
            Message::Port(port) => {
                buffer_put_u32(buf, 3);
                buffer_put_u8(buf, 9);
                buffer_put_u16(buf, *port);
            },
        }
        assert(buffered(*buf) =~= before + self@.frame());
    }

    /// The message of a payload: its kind and what it carries.
    pub fn decode(payload_with_id: &[u8]) -> (res: Result<Message>)
        ensures
            match wire_of(payload_with_id@) {
                Ok(w) => res matches Ok(m) && m@ == w,
                Err(text) => res matches Err(e) && e.is_peer(text),
            },
    {
        let p: &[u8] = payload_with_id;
        if p.len() == 0 {
            return Ok(Message::KeepAlive);
        }
        let id: u8 = p[0];
        if id == 0 {
            Ok(Message::Choke)
        } else if id == 1 {
            Ok(Message::Unchoke)
        } else if id == 2 {
            Ok(Message::Interested)
        } else if id == 3 {
            Ok(Message::NotInterested)
        } else if id == 4 {
            if p.len() < 5 {
                return Err(Error::Peer("short have".to_owned()));
            }
            Ok(Message::Have(read_u32(p, 1)))
        } else if id == 5 {
            let bits: Vec<u8> = copy_range(p, 1, p.len());
            assert(bits@ =~= p@.skip(1));
            Ok(Message::Bitfield(bits))
        } else if id == 6 || id == 8 {
            if p.len() < 13 {
                return Err(Error::Peer("short request/cancel".to_owned()));
            }
            let index: u32 = read_u32(p, 1);
            let begin: u32 = read_u32(p, 5);
            let length: u32 = read_u32(p, 9);
            if id == 6 {
                Ok(Message::Request { index, begin, length })
            } else {
                Ok(Message::Cancel { index, begin, length })
            }
        } else if id == 7 {
            if p.len() < 9 {
                return Err(Error::Peer("short piece".to_owned()));
            }
            let index: u32 = read_u32(p, 1);
            let begin: u32 = read_u32(p, 5);
            let block: Vec<u8> = copy_range(p, 9, p.len());
            assert(block@ =~= p@.skip(9));
            Ok(Message::Piece { index, begin, block })
        } else if id == 9 {
            if p.len() < 3 {
                return Err(Error::Peer("short port".to_owned()));
            }
            Ok(Message::Port(read_u16(p, 1)))
        } else {
            let mut text: String = "unknown message id ".to_owned();
            push_decimal(&mut text, id as u64);
            Err(Error::Peer(text))
        }
    }
}

/// How long frames are.
pub proof fn frame_lengths(w: Wire)
    ensures
        w.payload().len() == w.size(),
        w.frame().len() == 4 + w.size(),
{
    broadcast use be_len;

}

/// What taking the first frame off a stream comes to.
pub enum Taken {
    /// The frame is not all there yet.
    Partial,
    /// The payload of the frame and what follows it.
    Frame(Seq<u8>, Seq<u8>),
}

/// The first frame of a stream.
pub open spec fn take_frame(src: Seq<u8>) -> Taken {
    if src.len() < 4 {
        Taken::Partial
    } else {
        let length = be_value(src.take(4));
        if src.len() < 4 + length {
            Taken::Partial
        } else {
            Taken::Frame(src.subrange(4, 4 + length), src.skip(4 + length))
        }
    }
}

/// Cuts a stream of bytes into messages.
pub struct MessageCodec;

impl MessageCodec {
    /// Takes the first message off `src`, once all of it is there. A frame with a bad payload
    /// is taken off too.
    pub fn decode(&mut self, src: &mut BytesMut) -> (res: Result<Option<Message>>)
        ensures
            match take_frame(buffered(*old(src))) {
                Taken::Partial => buffered(*final(src)) == buffered(*old(src)) && res matches Ok(None),
                Taken::Frame(payload, rest) => buffered(*final(src)) == rest && match wire_of(
                    payload,
                ) {
                    Ok(w) => res matches Ok(Some(m)) && m@ == w,
                    Err(text) => res matches Err(e) && e.is_peer(text),
                },
            },
    {
        let ghost all = buffered(*src);
        let bytes: &[u8] = buffer_deref(src);
        if bytes.len() < 4 {
            return Ok(None);
        }
        let length: u32 = read_u32(bytes, 0);
        assert(all.subrange(0, 4) =~= all.take(4));
        if length as u64 > (bytes.len() - 4) as u64 {
            return Ok(None);
        }
        let length: usize = length as usize;
        buffer_advance(src, 4);
        let payload: BytesMut = buffer_split_to(src, length);
        proof {
            assert(buffered(payload) =~= all.subrange(4, 4 + length));
            assert(buffered(*src) =~= all.skip(4 + length));
        }
        match Message::decode(buffer_deref(&payload)) {
            Ok(m) => Ok(Some(m)),
            Err(e) => Err(e),
        }
    }

    /// Appends a message to `dst`.
    pub fn encode(&mut self, item: Message, dst: &mut BytesMut) -> (res: Result<()>)
        requires
            item@.declared() <= u32::MAX,
            buffered(*old(dst)).len() + 4 + item@.size() <= isize::MAX,
        ensures
            res is Ok,
            buffered(*final(dst)) == buffered(*old(dst)) + item@.frame(),
    {
        item.write_to(dst);
        Ok(())
    }
}

/// A payload says what it was made from.
pub proof fn payload_round_trips(w: Wire)
    ensures
        wire_of(w.payload()) == Ok::<Wire, Seq<char>>(w),
{
    broadcast use be_len;

    let p = w.payload();
    spans();
    match w {
        Wire::Have(index) => {
            be_round_trip(index as int, 4);
            assert(p.subrange(1, 5) =~= be(index as int, 4));
        },
        Wire::Bitfield(bits) => {
            assert(p.skip(1) =~= bits);
        },
        Wire::Request { index, begin, length } => {
            be_round_trip(index as int, 4);
            be_round_trip(begin as int, 4);
            be_round_trip(length as int, 4);
            assert(p.subrange(1, 5) =~= be(index as int, 4));
            assert(p.subrange(5, 9) =~= be(begin as int, 4));
            assert(p.subrange(9, 13) =~= be(length as int, 4));
        },
        Wire::Piece { index, begin, block } => {
            be_round_trip(index as int, 4);
            be_round_trip(begin as int, 4);
            assert(p.subrange(1, 5) =~= be(index as int, 4));
            assert(p.subrange(5, 9) =~= be(begin as int, 4));
            assert(p.skip(9) =~= block);
        },
        Wire::Cancel { index, begin, length } => {
            be_round_trip(index as int, 4);
            be_round_trip(begin as int, 4);
            be_round_trip(length as int, 4);
            assert(p.subrange(1, 5) =~= be(index as int, 4));
            assert(p.subrange(5, 9) =~= be(begin as int, 4));
            assert(p.subrange(9, 13) =~= be(length as int, 4));
        },
        Wire::Port(port) => {
            be_round_trip(port as int, 2);
            assert(p.subrange(1, 3) =~= be(port as int, 2));
        },
        _ => {},
    }
}

/// Whether the length of a message counts all of its payload.
pub open spec fn sendable(w: Wire) -> bool {
    w.payload().len() <= u32::MAX
}

/// A message that fits declares the length of its payload.
proof fn declares_payload(w: Wire)
    requires
        sendable(w),
    ensures
        w.declared() == w.payload().len(),
{
    frame_lengths(w);
}

/// What was sent comes off the stream first, and what was sent after it stays.
pub proof fn frame_comes_off(w: Wire, rest: Seq<u8>)
    requires
        sendable(w),
    ensures
        take_frame(w.frame() + rest) == Taken::Frame(w.payload(), rest),
        wire_of(w.payload()) == Ok::<Wire, Seq<char>>(w),
{
    payload_round_trips(w);
    declares_payload(w);
    frame_lengths(w);
    spans();
    let n = w.payload().len() as int;
    be_round_trip(n, 4);
    let src = w.frame() + rest;
    assert(src.take(4) =~= be(n, 4));
    assert(src.subrange(4, 4 + n) =~= w.payload());
    assert(src.skip(4 + n) =~= rest);
}

/// Nothing comes off the stream before all of a message is there.
pub proof fn partial_frame_waits(w: Wire, k: int)
    requires
        sendable(w),
        0 <= k < w.frame().len(),
    ensures
        take_frame(w.frame().take(k)) is Partial,
{
    declares_payload(w);
    frame_lengths(w);
    spans();
    be_round_trip(w.declared(), 4);
    if k >= 4 {
        assert(w.frame().take(k).take(4) =~= be(w.declared(), 4));
    }
}

/// The frames of messages, one after another.
pub open spec fn stream(ws: Seq<Wire>) -> Seq<u8>
    decreases ws.len(),
{
    if ws.len() == 0 {
        Seq::empty()
    } else {
        ws[0].frame() + stream(ws.drop_first())
    }
}

/// The messages that come off a stream until it holds no whole frame or a bad one.
pub open spec fn received(src: Seq<u8>) -> Seq<Wire>
    decreases src.len(),
{
    match take_frame(src) {
        Taken::Partial => Seq::empty(),
        Taken::Frame(payload, rest) => if rest.len() < src.len() {
            match wire_of(payload) {
                Ok(w) => seq![w] + received(rest),
                Err(_) => Seq::empty(),
            }
        } else {
            Seq::empty()
        },
    }
}

/// Messages come off a stream as they were sent, all of them and in order.
pub proof fn stream_round_trips(ws: Seq<Wire>)
    requires
        forall|i: int| 0 <= i < ws.len() ==> sendable(#[trigger] ws[i]),
    ensures
        received(stream(ws)) == ws,
    decreases ws.len(),
{
    if ws.len() > 0 {
        let rest = ws.drop_first();
        assert forall|i: int| 0 <= i < rest.len() implies sendable(#[trigger] rest[i]) by {
            assert(rest[i] == ws[i + 1]);
        }
        stream_round_trips(rest);
        frame_comes_off(ws[0], stream(rest));
        frame_lengths(ws[0]);
        assert(seq![ws[0]] + rest =~= ws);
    } else {
        assert(received(Seq::empty()) =~= ws);
    }
}

} // verus!
