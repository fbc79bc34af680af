//! The bytes of the UDP tracker protocol, and what is made of replies.

use vstd::prelude::*;

use crate::octets::{be, be_len, eight, four, places, two, written_places};
use crate::text::lossy_text;
use crate::tracker::udp::{
    announce_bytes, before_slash, connect_bytes, connection_of, first_set, preferred,
    reply_said, said, unanswered, wait_seconds, Reply, Said, MAX_ATTEMPTS,
};
use crate::tracker::{compact_peers, AnnounceEvent, PeerAddr};

verus! {

/// A connect request is read back at the places of the protocol: the number of the protocol in
/// eight bytes, the action 0 in four, and the transaction id in four.
pub proof fn connect_requests_are_read_back(transaction_id: u32)
    ensures
        ({
            let req = connect_bytes(transaction_id);
            &&& req.len() == 16
            &&& eight(req, 0) == 0x41727101980
            &&& four(req, 8) == 0
            &&& four(req, 12) == transaction_id
        }),
{
    broadcast use be_len;

    let req = connect_bytes(transaction_id);
    assert(req.subrange(0, 8) =~= be(0x41727101980, 8));
    assert(req.subrange(8, 12) =~= be(0, 4));
    assert(req.subrange(12, 16) =~= be(transaction_id as int, 4));
    written_places(req, 0, 0x41727101980);
    written_places(req, 8, 0);
    written_places(req, 12, transaction_id as int);
}

/// An announce request is read back at the places of the protocol: every argument stands in its
/// own bytes, the action is 1, the event is 0 for none, 1 for completed, 2 for started and 3 for
/// stopped, the address is left to the tracker, and so is the number of peers.
pub proof fn announce_requests_are_read_back(
    connection_id: u64,
    transaction_id: u32,
    info_hash: Seq<u8>,
    peer_id: Seq<u8>,
    downloaded: u64,
    left: u64,
    uploaded: u64,
    event: AnnounceEvent,
    key: u32,
    port: u16,
)
    requires
        info_hash.len() == 20,
        peer_id.len() == 20,
    ensures
        ({
            let req = announce_bytes(
                connection_id,
                transaction_id,
                info_hash,
                peer_id,
                downloaded,
                left,
                uploaded,
                event,
                key,
                port,
            );
            &&& req.len() == 98
            &&& eight(req, 0) == connection_id
            &&& four(req, 8) == 1
            &&& four(req, 12) == transaction_id
            &&& req.subrange(16, 36) == info_hash
            &&& req.subrange(36, 56) == peer_id
            &&& eight(req, 56) == downloaded
            &&& eight(req, 64) == left
            &&& eight(req, 72) == uploaded
            &&& four(req, 80) == match event {
                AnnounceEvent::Periodic => 0int,
                AnnounceEvent::Completed => 1,
                AnnounceEvent::Started => 2,
                AnnounceEvent::Stopped => 3,
            }
            &&& four(req, 84) == 0
            &&& four(req, 88) == key
            &&& four(req, 92) == 0xFFFF_FFFF
            &&& two(req, 96) == port
        }),
{
    broadcast use be_len;

    let req = announce_bytes(
        connection_id,
        transaction_id,
        info_hash,
        peer_id,
        downloaded,
        left,
        uploaded,
        event,
        key,
        port,
    );
    let number = match event {
        AnnounceEvent::Periodic => 0int,
        AnnounceEvent::Completed => 1,
        AnnounceEvent::Started => 2,
        AnnounceEvent::Stopped => 3,
    };
    assert(req.subrange(0, 8) =~= be(connection_id as int, 8));
    assert(req.subrange(8, 12) =~= be(1, 4));
    assert(req.subrange(12, 16) =~= be(transaction_id as int, 4));
    assert(req.subrange(16, 36) =~= info_hash);
    assert(req.subrange(36, 56) =~= peer_id);
    assert(req.subrange(56, 64) =~= be(downloaded as int, 8));
    assert(req.subrange(64, 72) =~= be(left as int, 8));
    assert(req.subrange(72, 80) =~= be(uploaded as int, 8));
    assert(req.subrange(80, 84) =~= be(number, 4));
    assert(req.subrange(84, 88) =~= be(0, 4));
    assert(req.subrange(88, 92) =~= be(key as int, 4));
    assert(req.subrange(92, 96) =~= be(0xFFFF_FFFF, 4));
    assert(req.subrange(96, 98) =~= be(port as int, 2));
    written_places(req, 0, connection_id as int);
    written_places(req, 8, 1);
    written_places(req, 12, transaction_id as int);
    written_places(req, 56, downloaded as int);
    written_places(req, 64, left as int);
    written_places(req, 72, uploaded as int);
    written_places(req, 80, number);
    written_places(req, 84, 0);
    written_places(req, 88, key as int);
    written_places(req, 92, 0xFFFF_FFFF);
    written_places(req, 96, port as int);
}

/// A reply gives a connection id exactly if it has sixteen bytes or more, is for action 0 and
/// carries the transaction id of the request. The id stands in the eight bytes after that.
pub proof fn connection_ids_stand_in_replies(reply: Seq<u8>, transaction_id: u32)
    ensures
        match connection_of(reply, transaction_id) {
            Some(id) => reply.len() >= 16 && four(reply, 0) == 0 && four(reply, 4) == transaction_id
                && id == eight(reply, 8),
            None => reply.len() < 16 || four(reply, 0) != 0 || four(reply, 4) != transaction_id,
        },
{
    if reply.len() >= 16 {
        places(reply, 0);
        places(reply, 4);
        places(reply, 8);
    }
}

/// A reply to an announce says something only if it has twenty bytes or more. For action 3 it is
/// an error, whose text starts at the ninth byte. For action 1, with the transaction id of the
/// request, it is the compact list from the twenty-first byte on.
pub proof fn announce_replies_are_read(reply: Seq<u8>, transaction_id: u32)
    ensures
        match said(reply, transaction_id) {
            Said::Error(text) => reply.len() >= 20 && four(reply, 0) == 3 && text
                == "udp tracker error: "@ + lossy_text(reply.subrange(8, reply.len() as int)),
            Said::Peers(data) => reply.len() >= 20 && four(reply, 0) == 1 && four(reply, 4)
                == transaction_id && data == reply.subrange(20, reply.len() as int),
            Said::Nothing => reply.len() < 20 || four(reply, 0) != 3 && (four(reply, 0) != 1 || four(
                reply,
                4,
            ) != transaction_id),
        },
{
    if reply.len() >= 20 {
        places(reply, 0);
        places(reply, 4);
        assert(reply.skip(8) =~= reply.subrange(8, reply.len() as int));
        assert(reply.skip(20) =~= reply.subrange(20, reply.len() as int));
    }
}

/// What came of waiting is read as what it is: a reply by its bytes, a failure of the socket as an
/// error with its text, and no reply as nothing. A connect request is still to be answered unless
/// its answer came or the socket failed.
pub proof fn outcomes_are_read(reply: Reply, transaction_id: u32)
    ensures
        match reply {
            Reply::Received(bytes) => {
                &&& reply_said(reply, transaction_id) == said(bytes@, transaction_id)
                &&& unanswered(reply, transaction_id) <==> bytes@.len() < 16 || four(bytes@, 0) != 0
                    || four(bytes@, 4) != transaction_id
            },
            Reply::Failed(text) => reply_said(reply, transaction_id) == Said::Error(text@)
                && !unanswered(reply, transaction_id),
            Reply::TimedOut => reply_said(reply, transaction_id) == Said::Nothing && unanswered(
                reply,
                transaction_id,
            ),
        },
{
    if let Reply::Received(bytes) = reply {
        connection_ids_stand_in_replies(bytes@, transaction_id);
    }
}

/// Each group of six bytes of a compact list stands for one peer, in the order of the list: four
/// bytes of address and two of port, the most significant first. A group with port 0 stands for
/// none, and so do bytes that are left over.
pub proof fn groups_of_six_are_peers(data: Seq<u8>, k: int)
    requires
        0 <= k,
        6 * k + 6 <= data.len(),
    ensures
        compact_peers(data, 0).len() == 0,
        ({
            let port = two(data, 6 * k + 4);
            let first = compact_peers(data, k);
            let more = compact_peers(data, k + 1);
            if port == 0 {
                more == first
            } else {
                &&& more.len() == first.len() + 1
                &&& more.drop_last() == first
                &&& more.last().ip == seq![
                    data[6 * k],
                    data[6 * k + 1],
                    data[6 * k + 2],
                    data[6 * k + 3],
                ]
                &&& more.last().port == port
            }
        }),
{
    let group = data.subrange(6 * k, 6 * (k + 1));
    places(data, 6 * k + 4);
    assert(group.skip(4) =~= data.subrange(6 * k + 4, 6 * k + 6));
    assert(group.take(4) =~= seq![data[6 * k], data[6 * k + 1], data[6 * k + 2], data[6 * k + 3]]);
    let first = compact_peers(data, k);
    let more = compact_peers(data, k + 1);
    if two(data, 6 * k + 4) != 0 {
        assert(more.drop_last() =~= first);
    }
}

/// An address is seen as its four bytes and its port.
pub proof fn addresses_are_seen_as_they_are(p: PeerAddr)
    ensures
        p@.ip.len() == 4,
        p@.ip[0] == p.ip[0] && p@.ip[1] == p.ip[1] && p@.ip[2] == p.ip[2] && p@.ip[3] == p.ip[3],
        p@.port == p.port,
{
}

/// The first wait is three seconds, and each of the next two is twice the one before. After that
/// it stays. There are three attempts.
pub proof fn waits_double(attempt: int)
    requires
        0 <= attempt,
    ensures
        MAX_ATTEMPTS == 3,
        wait_seconds(0) == 3,
        wait_seconds(attempt + 1) == if attempt < 2 {
            2 * wait_seconds(attempt)
        } else {
            wait_seconds(attempt)
        },
{
}

/// Of the addresses of a host the first IPv4 one is used, and the first of all if none is IPv4.
pub proof fn first_ipv4_is_preferred(v4: Seq<bool>)
    ensures
        match preferred(v4) {
            None => v4.len() == 0,
            Some(i) => {
                &&& 0 <= i < v4.len()
                &&& v4[i] ==> forall|k: int| 0 <= k < i ==> !v4[k]
                &&& !v4[i] ==> i == 0 && forall|k: int| 0 <= k < v4.len() ==> !v4[k]
            },
        },
{
    first_is_first(v4, 0);
}

proof fn first_is_first(flags: Seq<bool>, from: int)
    requires
        0 <= from,
    ensures
        match first_set(flags, from) {
            None => forall|k: int| from <= k < flags.len() ==> !flags[k],
            Some(i) => from <= i < flags.len() && flags[i] && forall|k: int|
                from <= k < i ==> !flags[k],
        },
    decreases flags.len() - from,
{
    if from < flags.len() && !flags[from] {
        first_is_first(flags, from + 1);
    }
}

/// The host and port of a URL end at the first slash, or with the URL.
pub proof fn hosts_end_at_a_slash(s: Seq<char>)
    ensures
        ({
            let host = before_slash(s);
            &&& host.len() <= s.len()
            &&& host == s.take(host.len() as int)
            &&& forall|k: int| 0 <= k < host.len() ==> host[k] != '/'
            &&& host.len() < s.len() ==> s[host.len() as int] == '/'
        }),
    decreases s.len(),
{
    if s.len() > 0 && s[0] != '/' {
        let rest = s.drop_first();
        hosts_end_at_a_slash(rest);
        let tail = before_slash(rest);
        let host = before_slash(s);
        assert(host =~= s.take(host.len() as int)) by {
            assert forall|k: int| 0 <= k < host.len() implies host[k] == s[k] by {
                if k > 0 {
                    assert(host[k] == tail[k - 1]);
                    assert(tail[k - 1] == rest[k - 1]);
                }
            }
        }
        assert forall|k: int| 0 <= k < host.len() implies host[k] != '/' by {
            if k > 0 {
                assert(host[k] == tail[k - 1]);
            }
        }
        if host.len() < s.len() {
            assert(rest[tail.len() as int] == s[host.len() as int]);
        }
    } else {
        assert(before_slash(s) =~= s.take(0));
    }
}

} // verus!
