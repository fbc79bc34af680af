//! Trackers over UDP: requests, replies, and when to try again.

use vstd::prelude::*;
use vstd::string::*;

use crate::error::{Error, Result};
use crate::octets::{be, be_value, push_bytes, push_u16, push_u32, push_u64, read_u32, read_u64};
use crate::random::random_u32;
use crate::text::{from_utf8_lossy, lossy_text};
use crate::tracker::{
    compact_peers, endpoints, has_prefix, parse_compact_peers, AnnounceEvent, PeerAddr,
};

verus! {

pub const PROTOCOL_ID: u64 = 0x417_2710_1980;

pub const ACTION_CONNECT: u32 = 0;

pub const ACTION_ANNOUNCE: u32 = 1;

pub const ACTION_ERROR: u32 = 3;

pub const MAX_ATTEMPTS: u32 = 3;

/// The seconds to wait for a reply: 3, 6, then 12.
pub open spec fn wait_seconds(attempt: int) -> int {
    if attempt <= 0 {
        3
    } else if attempt == 1 {
        6
    } else {
        12
    }
}

/// The seconds to wait for a reply to an attempt.
pub fn retry_wait(attempt: u32) -> (seconds: u64)
    ensures
        seconds == wait_seconds(attempt as int),
{
    let shift: u32 = if attempt <= 2 {
        attempt
    } else {
        2
    };
    proof {
        assert(3u64 << 0u32 == 3) by (bit_vector);
        assert(3u64 << 1u32 == 6) by (bit_vector);
        assert(3u64 << 2u32 == 12) by (bit_vector);
    }
    3u64 << shift
}

/// The text before the first slash.
pub open spec fn before_slash(s: Seq<char>) -> Seq<char>
    decreases s.len(),
{
    if s.len() == 0 || s[0] == '/' {
        Seq::empty()
    } else {
        seq![s[0]] + before_slash(s.drop_first())
    }
}

/// The host and port of a tracker URL.
pub fn host_port(announce_url: &str) -> (res: Result<String>)
    ensures
        if "udp://"@.is_prefix_of(announce_url@) {
            res matches Ok(s) && s@ == before_slash(announce_url@.skip(6))
        } else {
            res matches Err(e) && e.is_tracker("not a udp url: "@ + announce_url@)
        },
{
    proof {
        reveal_strlit("udp://");
    }
    if !has_prefix(announce_url, "udp://") {
        let mut text: String = "not a udp url: ".to_owned();
        text.append(announce_url);
        return Err(Error::Tracker(text));
    }
    let ghost rest = announce_url@.skip(6);
    let n: usize = announce_url.unicode_len();
    let mut end: usize = 6;
    proof {
        assert(announce_url@.subrange(6, 6) =~= Seq::empty());
        assert(before_slash(rest) =~= announce_url@.subrange(6, 6) + before_slash(announce_url@.skip(6)));
    }
    while end < n && announce_url.get_char(end) != '/'
        invariant
            6 <= end <= n,
            n == announce_url@.len(),
            rest == announce_url@.skip(6),
            before_slash(rest) == announce_url@.subrange(6, end as int) + before_slash(
                announce_url@.skip(end as int),
            ),
        decreases n - end,
    {
        proof {
            let tail = announce_url@.skip(end as int);
            assert(tail[0] == announce_url@[end as int]);
            assert(tail.drop_first() =~= announce_url@.skip(end + 1));
            assert(announce_url@.subrange(6, end as int) + (seq![tail[0]] + before_slash(
                announce_url@.skip(end + 1),
            )) =~= announce_url@.subrange(6, end + 1) + before_slash(announce_url@.skip(end + 1)));
        }
        end += 1;
    }
    proof {
        let tail = announce_url@.skip(end as int);
        if end < n {
            assert(tail[0] == announce_url@[end as int]);
        }
        assert(before_slash(rest) =~= announce_url@.subrange(6, end as int));
    }
    Ok(announce_url.substring_char(6, end).to_owned())
}

/// The address to use among those of a host: the first that is IPv4, or else the first.
pub open spec fn preferred(v4: Seq<bool>) -> Option<int>
    decreases v4.len(),
{
    match first_set(v4, 0) {
        Some(i) => Some(i),
        None => if v4.len() > 0 {
            Some(0)
        } else {
            None
        },
    }
}

/// The first flag from `from` on that is set.
pub open spec fn first_set(flags: Seq<bool>, from: int) -> Option<int>
    decreases flags.len() - from,
{
    if from < 0 || from >= flags.len() {
        None
    } else if flags[from] {
        Some(from)
    } else {
        first_set(flags, from + 1)
    }
}

/// Which address to use among those of a host, given which of them are IPv4: the first such,
/// since a socket of the other family is a common source of errors.
pub fn choose_addr(v4: &Vec<bool>) -> (res: Option<usize>)
    ensures
        match preferred(v4@) {
            Some(i) => (res matches Some(k) && k == i) && i < v4@.len(),
            None => res is None,
        },
{
    let mut i: usize = 0;
    while i < v4.len()
        invariant
            i <= v4@.len(),
            first_set(v4@, 0) == first_set(v4@, i as int),
        decreases v4.len() - i,
    {
        if v4[i] {
            return Some(i);
        }
        i += 1;
    }
    if v4.len() > 0 {
        Some(0)
    } else {
        None
    }
}

/// The address to bind a socket to for an address of the given family.
pub fn bind_addr(v4: bool) -> (res: &'static str)
    ensures
        res@ == if v4 {
            "0.0.0.0:0"@
        } else {
            "[::]:0"@
        },
{
    if v4 {
        "0.0.0.0:0"
    } else {
        "[::]:0"
    }
}

/// A connect request.
pub open spec fn connect_bytes(transaction_id: u32) -> Seq<u8> {
    be(PROTOCOL_ID as int, 8) + be(ACTION_CONNECT as int, 4) + be(transaction_id as int, 4)
}

/// The connect request with a transaction id.
pub fn connect_request(transaction_id: u32) -> (req: Vec<u8>)
    ensures
        req@ == connect_bytes(transaction_id),
{
    let mut req: Vec<u8> = Vec::new();
    push_u64(&mut req, PROTOCOL_ID);
    push_u32(&mut req, ACTION_CONNECT);
    push_u32(&mut req, transaction_id);
    assert(req@ =~= connect_bytes(transaction_id));
    req
}

/// A connect request with a random transaction id, which is given too.
pub fn new_connect_request() -> (res: (u32, Vec<u8>))
    ensures
        res.1@ == connect_bytes(res.0),
{
    let transaction_id: u32 = random_u32();
    (transaction_id, connect_request(transaction_id))
}

/// An announce request.
pub open spec fn announce_bytes(
    connection_id: u64,
    transaction_id: u32,
    info_hash: Seq<u8>,
    peer_id: Seq<u8>,
    downloaded: u64,
    left: u64,
    uploaded: u64,
    event: AnnounceEvent,
    key: u32,
    port: u16,
) -> Seq<u8> {
    be(connection_id as int, 8) + be(ACTION_ANNOUNCE as int, 4) + be(transaction_id as int, 4)
        + info_hash + peer_id + be(downloaded as int, 8) + be(left as int, 8) + be(
        uploaded as int,
        8,
    ) + be(event.number() as int, 4) + be(0, 4) + be(key as int, 4) + be(u32::MAX as int, 4) + be(
        port as int,
        2,
    )
}

/// The announce request with the given ids. The tracker takes the address from the packet, and
/// gives as many peers as it wants.
pub fn announce_request(
    connection_id: u64,
    transaction_id: u32,
    info_hash: &[u8; 20],
    peer_id: &[u8; 20],
    downloaded: u64,
    left: u64,
    uploaded: u64,
    event: AnnounceEvent,
    key: u32,
    port: u16,
) -> (req: Vec<u8>)
    ensures
        req@ == announce_bytes(
            connection_id,
            transaction_id,
            info_hash@,
            peer_id@,
            downloaded,
            left,
            uploaded,
            event,
            key,
            port,
        ),
{
    let mut req: Vec<u8> = Vec::new();
    push_u64(&mut req, connection_id);
    push_u32(&mut req, ACTION_ANNOUNCE);
    push_u32(&mut req, transaction_id);
    push_bytes(&mut req, info_hash.as_slice());
    push_bytes(&mut req, peer_id.as_slice());
    push_u64(&mut req, downloaded);
    push_u64(&mut req, left);
    push_u64(&mut req, uploaded);
    push_u32(&mut req, event.as_udp());
    push_u32(&mut req, 0);
    push_u32(&mut req, key);
    push_u32(&mut req, u32::MAX);
    push_u16(&mut req, port);
    assert(req@ =~= announce_bytes(
        connection_id,
        transaction_id,
        info_hash@,
        peer_id@,
        downloaded,
        left,
        uploaded,
        event,
        key,
        port,
    ));
    req
}

/// A random number that tells this client's announces from those of others.
pub fn new_key() -> u32 {
    random_u32()
}

/// An announce request with a random transaction id, which is given too.
pub fn new_announce_request(
    connection_id: u64,
    info_hash: &[u8; 20],
    peer_id: &[u8; 20],
    downloaded: u64,
    left: u64,
    uploaded: u64,
    event: AnnounceEvent,
    key: u32,
    port: u16,
) -> (res: (u32, Vec<u8>))
    ensures
        res.1@ == announce_bytes(
            connection_id,
            res.0,
            info_hash@,
            peer_id@,
            downloaded,
            left,
            uploaded,
            event,
            key,
            port,
        ),
{
    let transaction_id: u32 = random_u32();
    (
        transaction_id,
        announce_request(
            connection_id,
            transaction_id,
            info_hash,
            peer_id,
            downloaded,
            left,
            uploaded,
            event,
            key,
            port,
        ),
    )
}

/// What came of waiting for a reply.
pub enum Reply {
    Received(Vec<u8>),
    /// The socket failed; the text of the error.
    Failed(String),
    TimedOut,
}

/// What to do after that.
pub enum Step<T> {
    /// Send another request.
    Retry,
    Finish(Result<T>),
}

/// The connection id in a reply to a connect request.
pub open spec fn connection_of(reply: Seq<u8>, transaction_id: u32) -> Option<int> {
    if reply.len() >= 16 && be_value(reply.subrange(0, 4)) == ACTION_CONNECT && be_value(
        reply.subrange(4, 8),
    ) == transaction_id {
        Some(be_value(reply.subrange(8, 16)))
    } else {
        None
    }
}

/// Decides after attempt number `attempt` to connect.
pub fn connect_step(attempt: u32, transaction_id: u32, reply: Reply) -> (step: Step<u64>)
    ensures
        match (reply, step) {
            (Reply::Failed(text), Step::Finish(Err(e))) => e.is_tracker(text@),
            (Reply::Failed(_), _) => false,
            (Reply::Received(bytes), Step::Finish(Ok(id))) => connection_of(bytes@, transaction_id)
                == Some(id as int),
            (Reply::TimedOut, Step::Finish(Ok(_))) => false,
            (_, Step::Retry) => unanswered(reply, transaction_id) && attempt + 1 < MAX_ATTEMPTS,
            (_, Step::Finish(Err(e))) => unanswered(reply, transaction_id) && attempt + 1
                >= MAX_ATTEMPTS && e.is_tracker("udp connect timed out"@),
        },
{
    match reply {
        Reply::Failed(text) => Step::Finish(Err(Error::Tracker(text))),
        Reply::Received(bytes) => {
            if bytes.len() >= 16 && read_u32(bytes.as_slice(), 0) == ACTION_CONNECT && read_u32(
                bytes.as_slice(),
                4,
            ) == transaction_id {
                return Step::Finish(Ok(read_u64(bytes.as_slice(), 8)));
            }
            give_up_or_retry(attempt, "udp connect timed out")
        },
        Reply::TimedOut => give_up_or_retry(attempt, "udp connect timed out"),
    }
}

/// Whether a connect request is still without its answer.
pub open spec fn unanswered(reply: Reply, transaction_id: u32) -> bool {
    match reply {
        Reply::Received(bytes) => connection_of(bytes@, transaction_id) is None,
        Reply::Failed(_) => false,
        Reply::TimedOut => true,
    }
}

fn give_up_or_retry<T>(attempt: u32, text: &str) -> (step: Step<T>)
    ensures
        match step {
            Step::Retry => attempt + 1 < MAX_ATTEMPTS,
            Step::Finish(Ok(_)) => false,
            Step::Finish(Err(e)) => attempt + 1 >= MAX_ATTEMPTS && e.is_tracker(text@),
        },
{
    if attempt < MAX_ATTEMPTS - 1 {
        Step::Retry
    } else {
        Step::Finish(Err(Error::Tracker(text.to_owned())))
    }
}

/// What a reply to an announce request says.
pub enum Said {
    /// Nothing for this request.
    Nothing,
    /// The tracker reports an error; its text.
    Error(Seq<char>),
    /// The compact peer list.
    Peers(Seq<u8>),
}

/// What a reply says to the request with the given transaction id.
pub open spec fn said(reply: Seq<u8>, transaction_id: u32) -> Said {
    if reply.len() < 20 {
        Said::Nothing
    } else if be_value(reply.subrange(0, 4)) == ACTION_ERROR {
        Said::Error("udp tracker error: "@ + lossy_text(reply.skip(8)))
    } else if be_value(reply.subrange(0, 4)) == ACTION_ANNOUNCE && be_value(reply.subrange(4, 8))
        == transaction_id {
        Said::Peers(reply.skip(20))
    } else {
        Said::Nothing
    }
}

/// What came of waiting says to the request with the given transaction id.
pub open spec fn reply_said(reply: Reply, transaction_id: u32) -> Said {
    match reply {
        Reply::Received(bytes) => said(bytes@, transaction_id),
        Reply::Failed(text) => Said::Error(text@),
        Reply::TimedOut => Said::Nothing,
    }
}

/// Decides after attempt number `attempt` to announce.
pub fn announce_step(attempt: u32, transaction_id: u32, reply: Reply) -> (step: Step<Vec<PeerAddr>>)
    ensures
        match reply_said(reply, transaction_id) {
            Said::Error(text) => step matches Step::Finish(Err(e)) && e.is_tracker(text),
            Said::Peers(data) => step matches Step::Finish(Ok(peers)) && endpoints(peers@)
                == compact_peers(data, data.len() as int / 6),
            Said::Nothing => if attempt + 1 < MAX_ATTEMPTS {
                step is Retry
            } else {
                step matches Step::Finish(Err(e)) && e.is_tracker("udp announce timed out"@)
            },
        },
{
    match reply {
        Reply::Failed(text) => Step::Finish(Err(Error::Tracker(text))),
        Reply::Received(bytes) => {
            if bytes.len() >= 20 {
                let action: u32 = read_u32(bytes.as_slice(), 0);
                if action == ACTION_ERROR {
                    let mut text: String = "udp tracker error: ".to_owned();
                    let tail: &[u8] = vstd::slice::slice_subrange(bytes.as_slice(), 8, bytes.len());
                    assert(tail@ =~= bytes@.skip(8));
                    text.append(from_utf8_lossy(tail).as_str());
                    return Step::Finish(Err(Error::Tracker(text)));
                }
                if action == ACTION_ANNOUNCE && read_u32(bytes.as_slice(), 4) == transaction_id {
                    let tail: &[u8] = vstd::slice::slice_subrange(bytes.as_slice(), 20, bytes.len());
                    assert(tail@ =~= bytes@.skip(20));
                    return Step::Finish(Ok(parse_compact_peers(tail)));
                }
            }
            give_up_or_retry(attempt, "udp announce timed out")
        },
        Reply::TimedOut => give_up_or_retry(attempt, "udp announce timed out"),
    }
}

} // verus!
