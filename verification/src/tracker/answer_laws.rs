//! What is made of the answer of an HTTP tracker, and which trackers are asked.

use vstd::prelude::*;
use vstd::utf8::{encode_utf8_decode_utf8, encode_utf8_valid_utf8};

use crate::grammar::Value;
use crate::metainfo_laws::{got_under, reads, stands_under, text_is_read};
use crate::text::{decimal, signed_decimal};
use crate::torrent::{number_at, text_at, MetaFacts};
use crate::tracker::http::{answer_of, listed_peer, listed_peers, Answer};
use crate::tracker::query_laws::{denotes, numerals_denote};
use crate::tracker::{compact_peers, tiers_to_ask, usable, usable_urls, Endpoint};

verus! {

/// An answer with a text under `failure reason` is an error with that text, whatever else it
/// says.
pub proof fn failures_are_told(v: Value, w: Value, reason: Seq<char>)
    requires
        stands_under(v, "failure reason"@, w),
        reads(w, reason),
    ensures
        answer_of(v) == Err::<Answer, Seq<char>>(reason),
{
    got_under(v, "failure reason"@);
    encode_utf8_valid_utf8(reason);
    encode_utf8_decode_utf8(reason);
}

/// The peers of an answer without such a text stand under `peers`: bytes are a compact list, a
/// list is one address for each item, and anything else is an error.
pub proof fn peers_stand_in_answers(v: Value)
    requires
        forall|w: Value, t: Seq<char>|
            !(#[trigger] stands_under(v, "failure reason"@, w) && #[trigger] reads(w, t)),
    ensures
        (forall|w: Value| !#[trigger] stands_under(v, "peers"@, w)) ==> answer_of(v) == Err::<
            Answer,
            Seq<char>,
        >("missing peers"@),
        forall|w: Value| #[trigger]
            stands_under(v, "peers"@, w) ==> match w {
                Value::Bytes(data) => answer_of(v) == Ok::<Answer, Seq<char>>(
                    Answer::Compact(compact_peers(data, data.len() as int / 6)),
                ),
                Value::List(items) => match answer_of(v) {
                    Ok(Answer::Listed(texts)) => texts.len() == items.len() && forall|k: int|
                        0 <= k < items.len() ==> is_address(#[trigger] items[k], texts[k]),
                    Ok(_) => false,
                    Err(text) => exists|k: int|
                        0 <= k < items.len() && lacks(#[trigger] items[k], text),
                },
                _ => answer_of(v) == Err::<Answer, Seq<char>>("unrecognized peers format"@),
            },
{
    got_under(v, "failure reason"@);
    got_under(v, "peers"@);
    if let Some(reason) = text_at(v, "failure reason"@) {
        let w = v.get("failure reason"@)->0;
        text_is_read(w, reason);
        assert(stands_under(v, "failure reason"@, w) && reads(w, reason));
    }
    if let Some(w) = v.get("peers"@) {
        if let Value::List(items) = w {
            listed_in_order(items);
        }
    }
}

/// Whether a text is the address of an item: the text under `ip`, a colon, and the decimal
/// numeral of the number under `port`, of which 16 bits count.
pub open spec fn is_address(v: Value, text: Seq<char>) -> bool {
    exists|a: Value, b: Value, ip: Seq<char>, port: Seq<char>|
        #![trigger stands_under(v, "ip"@, a), stands_under(v, "port"@, b), reads(a, ip), ip + seq![':'] + port]
        stands_under(v, "ip"@, a) && reads(a, ip) && stands_under(v, "port"@, b) && text == ip + seq![
            ':',
        ] + port && (b matches Value::Number(n) && (0 <= n <= u16::MAX ==> denotes(port, n as nat)))
}

/// Whether an item is no address, and a text says what it lacks.
pub open spec fn lacks(v: Value, text: Seq<char>) -> bool {
    ||| text == "peer missing ip"@ && forall|w: Value, t: Seq<char>|
        !(#[trigger] stands_under(v, "ip"@, w) && #[trigger] reads(w, t))
    ||| text == "peer missing port"@ && forall|w: Value| #[trigger]
        stands_under(v, "port"@, w) ==> !(w is Number)
}

proof fn listed_in_order(items: Seq<Value>)
    ensures
        match listed_peers(items) {
            Ok(texts) => texts.len() == items.len() && forall|k: int|
                0 <= k < items.len() ==> is_address(#[trigger] items[k], texts[k]),
            Err(text) => exists|k: int| 0 <= k < items.len() && lacks(#[trigger] items[k], text),
        },
    decreases items.len(),
{
    if items.len() > 0 {
        let first = items.drop_last();
        listed_in_order(first);
        match listed_peers(first) {
            Err(text) => {
                let k = choose|k: int| 0 <= k < first.len() && lacks(#[trigger] first[k], text);
                assert(items[k] == first[k]);
            },
            Ok(texts) => {
                let v = items.last();
                one_address(v);
                assert(items[items.len() - 1] == v);
                if let Ok(text) = listed_peer(v) {
                    let all = texts.push(text);
                    assert forall|k: int| 0 <= k < items.len() implies is_address(
                        #[trigger] items[k],
                        all[k],
                    ) by {
                        if k < first.len() {
                            assert(items[k] == first[k]);
                        }
                    }
                }
            },
        }
    }
}

proof fn one_address(v: Value)
    ensures
        match listed_peer(v) {
            Ok(text) => is_address(v, text),
            Err(text) => lacks(v, text),
        },
{
    got_under(v, "ip"@);
    got_under(v, "port"@);
    match text_at(v, "ip"@) {
        None => {
            assert forall|w: Value, t: Seq<char>| !(#[trigger] stands_under(v, "ip"@, w)
                && #[trigger] reads(w, t)) by {
                encode_utf8_valid_utf8(t);
            }
        },
        Some(ip) => {
            let a = v.get("ip"@)->0;
            text_is_read(a, ip);
            if let Some(n) = number_at(v, "port"@) {
                let b = v.get("port"@)->0;
                let port = decimal((n as u16) as nat);
                numerals_denote((n as u16) as nat);
                assert(stands_under(v, "ip"@, a) && reads(a, ip) && stands_under(v, "port"@, b));
                let text = ip + seq![':'] + port;
                assert(listed_peer(v) == Ok::<Seq<char>, Seq<char>>(text));
            }
        },
    }
}

/// An address as text is its four numbers between dots, a colon, and its port.
pub proof fn addresses_are_written_out(e: Endpoint) -> (parts: (
    Seq<char>,
    Seq<char>,
    Seq<char>,
    Seq<char>,
    Seq<char>,
))
    requires
        e.ip.len() == 4,
        0 <= e.port,
    ensures
        denotes(parts.0, e.ip[0] as nat),
        denotes(parts.1, e.ip[1] as nat),
        denotes(parts.2, e.ip[2] as nat),
        denotes(parts.3, e.ip[3] as nat),
        denotes(parts.4, e.port as nat),
        e.text() == parts.0 + seq!['.'] + parts.1 + seq!['.'] + parts.2 + seq!['.'] + parts.3 + seq![
            ':',
        ] + parts.4,
{
    numerals_denote(e.ip[0] as nat);
    numerals_denote(e.ip[1] as nat);
    numerals_denote(e.ip[2] as nat);
    numerals_denote(e.ip[3] as nat);
    numerals_denote(e.port as nat);
    (
        decimal(e.ip[0] as nat),
        decimal(e.ip[1] as nat),
        decimal(e.ip[2] as nat),
        decimal(e.ip[3] as nat),
        decimal(e.port as nat),
    )
}

/// A numeral with a sign has a minus sign in front exactly if its number is negative, and the
/// rest denotes how large it is.
pub proof fn signed_numerals_denote(n: int)
    ensures
        n >= 0 ==> denotes(signed_decimal(n), n as nat),
        n < 0 ==> signed_decimal(n).len() > 0 && signed_decimal(n)[0] == '-' && denotes(
            signed_decimal(n).skip(1),
            (-n) as nat,
        ),
{
    if n < 0 {
        numerals_denote((-n) as nat);
        assert(signed_decimal(n).skip(1) =~= decimal((-n) as nat));
    } else {
        numerals_denote(n as nat);
    }
}

/// The trackers of a tier that are asked keep their order.
pub proof fn trackers_keep_their_order(tier: Seq<Seq<char>>, url: Seq<char>)
    ensures
        usable_urls(Seq::empty()).len() == 0,
        usable_urls(tier.push(url)) == if usable(url) {
            usable_urls(tier).push(url)
        } else {
            usable_urls(tier)
        },
{
    assert(tier.push(url).drop_last() =~= tier);
}

/// If the main tracker is in one of the tiers of the torrent, these tiers are asked as they are.
/// Otherwise it is asked first, by itself, and then they are.
pub proof fn main_tracker_comes_first_or_in_its_tier(meta: MetaFacts)
    ensures
        ({
            let tiers = tiers_to_ask(meta);
            let own = meta.announce_list;
            if exists|i: int, j: int|
                #![trigger own[i][j]]
                0 <= i < own.len() && 0 <= j < own[i].len() && own[i][j] == meta.announce {
                tiers == own
            } else {
                &&& tiers.len() == own.len() + 1
                &&& tiers[0].len() == 1
                &&& tiers[0][0] == meta.announce
                &&& forall|i: int| 0 <= i < own.len() ==> tiers[i + 1] == #[trigger] own[i]
            }
        }),
{
}

/// Trackers over UDP, HTTP and HTTPS are asked, and no others.
pub proof fn three_protocols_are_spoken(url: Seq<char>)
    ensures
        usable(url) <==> {
            ||| url.len() >= 6 && url.take(6) == "udp://"@
            ||| url.len() >= 7 && url.take(7) == "http://"@
            ||| url.len() >= 8 && url.take(8) == "https://"@
        },
{
    reveal_strlit("udp://");
    reveal_strlit("http://");
    reveal_strlit("https://");
    assert(url.len() >= 6 ==> url.subrange(0, 6) =~= url.take(6));
    assert(url.len() >= 7 ==> url.subrange(0, 7) =~= url.take(7));
    assert(url.len() >= 8 ==> url.subrange(0, 8) =~= url.take(8));
}

} // verus!
