//! What holds of announces as a whole.

use vstd::prelude::*;

use crate::octets::{be, be_len, be_round_trip, spans};
use crate::sequences::push_contains;
use crate::torrent::MetaFacts;
use crate::tracker::http::{escaped, hex_digit, percent_encoded, unreserved};
use crate::tracker::udp::{
    announce_bytes, connect_bytes, connection_of, said, Said, ACTION_ANNOUNCE, ACTION_CONNECT,
};
use crate::tracker::{
    compact_peers, endpoint_of, first_usable, listed, tiers_to_ask, usable, usable_urls,
    AnnounceEvent, Endpoint,
};

verus! {

/// Whether an address can stand in a compact list.
pub open spec fn is_compact(peer: Endpoint) -> bool {
    peer.ip.len() == 4 && 0 < peer.port <= u16::MAX
}

/// A compact peer list.
pub open spec fn compact_list(peers: Seq<Endpoint>) -> Seq<u8>
    decreases peers.len(),
{
    if peers.len() == 0 {
        Seq::empty()
    } else {
        compact_list(peers.drop_last()) + peers.last().ip + be(peers.last().port, 2)
    }
}

/// The addresses of a compact list are those that it was made of, in order.
pub proof fn compact_peers_round_trip(peers: Seq<Endpoint>)
    requires
        forall|i: int| 0 <= i < peers.len() ==> is_compact(#[trigger] peers[i]),
    ensures
        compact_list(peers).len() == 6 * peers.len(),
        compact_peers(compact_list(peers), peers.len() as int) == peers,
    decreases peers.len(),
{
    broadcast use be_len;

    if peers.len() > 0 {
        let first = peers.drop_last();
        let last = peers.last();
        assert forall|i: int| 0 <= i < first.len() implies is_compact(#[trigger] first[i]) by {
            assert(first[i] == peers[i]);
        }
        assert(is_compact(peers[peers.len() - 1]));
        compact_peers_round_trip(first);
        let n = peers.len() as int;
        let before = compact_list(first);
        let data = compact_list(peers);
        let group = data.subrange(6 * (n - 1), 6 * n);
        assert(group.take(4) =~= last.ip);
        assert(group.skip(4) =~= be(last.port, 2));
        spans();
        be_round_trip(last.port, 2);
        assert(endpoint_of(group) =~= last);
        assert(data.take(before.len() as int) =~= before);
        same_groups(before, data, n - 1);
        assert(first.push(last) =~= peers);
    }
}

/// Groups of six bytes stand for the same addresses whatever follows them.
proof fn same_groups(a: Seq<u8>, b: Seq<u8>, k: int)
    requires
        0 <= k,
        6 * k <= a.len(),
        a.len() <= b.len(),
        a == b.take(a.len() as int),
    ensures
        compact_peers(a, k) == compact_peers(b, k),
    decreases k,
{
    if k > 0 {
        same_groups(a, b, k - 1);
        assert(a.subrange(6 * (k - 1), 6 * k) =~= b.subrange(6 * (k - 1), 6 * k));
    }
}

/// Requests to UDP trackers have the lengths of the protocol.
pub proof fn requests_have_their_lengths(
    connection_id: u64,
    transaction_id: u32,
    info_hash: Seq<u8>,
    peer_id: Seq<u8>,
    downloaded: u64,
    left: u64,
    uploaded: u64,
    event: AnnounceEvent,
    key: u32,
    port: u16,
)
    requires
        info_hash.len() == 20,
        peer_id.len() == 20,
    ensures
        connect_bytes(transaction_id).len() == 16,
        announce_bytes(
            connection_id,
            transaction_id,
            info_hash,
            peer_id,
            downloaded,
            left,
            uploaded,
            event,
            key,
            port,
        ).len() == 98,
{
    broadcast use be_len;

}

/// The reply to a connect request gives its connection id back, and only to that request.
pub proof fn connection_is_read(connection_id: u64, transaction_id: u32, other: u32)
    ensures
        connection_of(
            be(ACTION_CONNECT as int, 4) + be(transaction_id as int, 4) + be(
                connection_id as int,
                8,
            ),
            other,
        ) == if other == transaction_id {
            Some(connection_id as int)
        } else {
            None
        },
{
    broadcast use be_len;

    let reply = be(ACTION_CONNECT as int, 4) + be(transaction_id as int, 4) + be(
        connection_id as int,
        8,
    );
    assert(reply.subrange(0, 4) =~= be(ACTION_CONNECT as int, 4));
    assert(reply.subrange(4, 8) =~= be(transaction_id as int, 4));
    assert(reply.subrange(8, 16) =~= be(connection_id as int, 8));
    spans();
    be_round_trip(ACTION_CONNECT as int, 4);
    be_round_trip(transaction_id as int, 4);
    be_round_trip(connection_id as int, 8);
}

/// The reply to an announce request gives the peers that the tracker put into it, and only to
/// that request. Twelve bytes of other numbers stand in front of them.
pub proof fn peers_are_read(transaction_id: u32, other: u32, numbers: Seq<u8>, peers: Seq<Endpoint>)
    requires
        numbers.len() == 12,
        forall|i: int| 0 <= i < peers.len() ==> is_compact(#[trigger] peers[i]),
    ensures
        ({
            let data = compact_list(peers);
            let reply = be(ACTION_ANNOUNCE as int, 4) + be(transaction_id as int, 4) + numbers + data;
            &&& other == transaction_id ==> said(reply, other) == Said::Peers(data)
            &&& other != transaction_id ==> said(reply, other) == Said::Nothing
            &&& compact_peers(data, data.len() as int / 6) == peers
        }),
{
    broadcast use be_len;

    let data = compact_list(peers);
    let reply = be(ACTION_ANNOUNCE as int, 4) + be(transaction_id as int, 4) + numbers + data;
    assert(reply.subrange(0, 4) =~= be(ACTION_ANNOUNCE as int, 4));
    assert(reply.subrange(4, 8) =~= be(transaction_id as int, 4));
    assert(reply.skip(20) =~= data);
    spans();
    be_round_trip(ACTION_ANNOUNCE as int, 4);
    be_round_trip(transaction_id as int, 4);
    compact_peers_round_trip(peers);
    assert(data.len() as int / 6 == peers.len());
}

/// The main tracker of a torrent is among those to ask, and the tiers of the torrent are all to
/// be asked, in their order.
pub proof fn no_tracker_is_left_out(meta: MetaFacts)
    ensures
        listed(tiers_to_ask(meta), meta.announce),
        meta.announce_list.is_suffix_of(tiers_to_ask(meta)),
        tiers_to_ask(meta).len() <= meta.announce_list.len() + 1,
{
    let tiers = tiers_to_ask(meta);
    if meta.announce_list.len() == 0 || !listed(meta.announce_list, meta.announce) {
        assert(tiers[0][0] == meta.announce);
        assert(tiers.skip(1) =~= meta.announce_list);
    } else {
        assert(tiers.skip(0) =~= meta.announce_list);
    }
}

/// The trackers that are asked are those of the tier that can be asked, and no others.
pub proof fn usable_trackers_are_asked(tier: Seq<Seq<char>>, url: Seq<char>)
    ensures
        usable_urls(tier).contains(url) <==> tier.contains(url) && usable(url),
    decreases tier.len(),
{
    if tier.len() > 0 {
        let first = tier.drop_last();
        let last = tier.last();
        usable_trackers_are_asked(first, url);
        assert(first.push(last) =~= tier);
        push_contains(first, last);
        push_contains(usable_urls(first), last);
        assert(first.push(last).contains(url) <==> first.contains(url) || url == last);
        assert(usable_urls(first).push(last).contains(url) <==> usable_urls(first).contains(url)
            || url == last);
    }
}

/// WebSocket trackers are never asked.
pub proof fn websocket_trackers_are_skipped(url: Seq<char>)
    requires
        "ws://"@.is_prefix_of(url) || "wss://"@.is_prefix_of(url),
    ensures
        !usable(url),
{
    reveal_strlit("ws://");
    reveal_strlit("wss://");
    reveal_strlit("udp://");
    reveal_strlit("http://");
    reveal_strlit("https://");
    assert(url[0] == 'w') by {
        if "ws://"@.is_prefix_of(url) {
            assert("ws://"@[0] == url.subrange(0, 5)[0]);
        } else {
            assert("wss://"@[0] == url.subrange(0, 6)[0]);
        }
    }
    if "udp://"@.is_prefix_of(url) {
        assert("udp://"@[0] == url.subrange(0, 6)[0]);
    }
    if "http://"@.is_prefix_of(url) {
        assert("http://"@[0] == url.subrange(0, 7)[0]);
    }
    if "https://"@.is_prefix_of(url) {
        assert("https://"@[0] == url.subrange(0, 8)[0]);
    }
}

/// The next tier to ask is the first that has a tracker that can be asked: those before it
/// have none, and if there is no such tier none has any.
pub proof fn tiers_are_asked_in_order(tiers: Seq<Seq<Seq<char>>>)
    ensures
        match first_usable(tiers) {
            Some(k) => 0 <= k < tiers.len() && usable_urls(tiers[k]).len() > 0 && forall|i: int|
                0 <= i < k ==> usable_urls(#[trigger] tiers[i]).len() == 0,
            None => forall|i: int|
                0 <= i < tiers.len() ==> usable_urls(#[trigger] tiers[i]).len() == 0,
        },
    decreases tiers.len(),
{
    if tiers.len() > 0 && usable_urls(tiers[0]).len() == 0 {
        let rest = tiers.drop_first();
        tiers_are_asked_in_order(rest);
        assert forall|i: int|
            0 <= i < tiers.len() && (match first_usable(tiers) {
                Some(k) => i < k,
                None => true,
            }) implies usable_urls(#[trigger] tiers[i]).len() == 0 by {
            if i > 0 {
                assert(tiers[i] == rest[i - 1]);
            }
        }
    }
}

/// The number that a hexadecimal digit stands for.
pub open spec fn hex_value(c: char) -> int {
    if '0' <= c <= '9' {
        c as int - 48
    } else {
        c as int - 55
    }
}

/// The bytes that stand in a URL.
pub open spec fn percent_decoded(text: Seq<char>) -> Seq<u8>
    decreases text.len(),
{
    if text.len() == 0 {
        Seq::empty()
    } else if text[0] == '%' && text.len() >= 3 {
        seq![(16 * hex_value(text[1]) + hex_value(text[2])) as u8] + percent_decoded(text.skip(3))
    } else {
        seq![text[0] as u8] + percent_decoded(text.skip(1))
    }
}

/// Decoding gives the bytes back that were encoded.
pub proof fn percent_encoding_round_trips(bytes: Seq<u8>)
    ensures
        percent_decoded(percent_encoded(bytes)) == bytes,
    decreases bytes.len(),
{
    if bytes.len() > 0 {
        let b = bytes[0];
        let rest = bytes.drop_first();
        percent_encoding_round_trips(rest);
        encoded_in_front(bytes);
        let text = percent_encoded(bytes);
        let tail = percent_encoded(rest);
        if unreserved(b) {
            assert(text[0] == b as char);
            assert(text.skip(1) =~= tail);
            assert(text[0] as u8 == b);
        } else {
            let hi = b as int / 16;
            let lo = b as int % 16;
            assert(text[0] == '%' && text[1] == hex_digit(hi) && text[2] == hex_digit(lo));
            assert(text.skip(3) =~= tail);
            assert(hex_value(hex_digit(hi)) == hi);
            assert(hex_value(hex_digit(lo)) == lo);
            assert(16 * hi + lo == b);
        }
        assert(seq![b] + rest =~= bytes);
    }
}

/// The encoding of bytes starts with that of the first one.
pub proof fn encoded_in_front(bytes: Seq<u8>)
    requires
        bytes.len() > 0,
    ensures
        percent_encoded(bytes) == escaped(bytes[0]) + percent_encoded(bytes.drop_first()),
    decreases bytes.len(),
{
    if bytes.len() == 1 {
        assert(bytes.drop_last() =~= Seq::empty());
        assert(bytes.drop_first() =~= Seq::empty());
        assert(percent_encoded(bytes) =~= escaped(bytes[0]));
        assert(percent_encoded(bytes) =~= escaped(bytes[0]) + percent_encoded(bytes.drop_first()));
    } else {
        encoded_in_front(bytes.drop_last());
        assert(bytes.drop_last().drop_first() =~= bytes.drop_first().drop_last());
        assert(percent_encoded(bytes) =~= escaped(bytes[0]) + percent_encoded(bytes.drop_first()));
    }
}

/// Nothing in encoded bytes ends a parameter or the query: every character stands for itself or
/// is a percent sign.
pub proof fn percent_encoding_is_plain(bytes: Seq<u8>, k: int)
    requires
        0 <= k < percent_encoded(bytes).len(),
    ensures
        percent_encoded(bytes)[k] == '%' || exists|b: u8|
            unreserved(b) && #[trigger] (b as char) == percent_encoded(bytes)[k],
    decreases bytes.len(),
{
    if bytes.len() > 0 {
        let first = percent_encoded(bytes.drop_last());
        let b = bytes.last();
        if k < first.len() {
            percent_encoding_is_plain(bytes.drop_last(), k);
            assert(percent_encoded(bytes)[k] == first[k]);
        } else {
            let c = percent_encoded(bytes)[k];
            assert(c == escaped(b)[k - first.len()]);
            if unreserved(b) {
                assert(b as char == c);
            } else if c != '%' {
                let d = c as u8;
                assert(48 <= d <= 57 || 65 <= d <= 70);
                assert(unreserved(d) && d as char == c);
            }
        }
    }
}

} // verus!
