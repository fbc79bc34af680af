//! Trackers over HTTP: the URL to ask, and what the answer says.

use vstd::prelude::*;
use vstd::string::*;

use crate::bencoding::{values, Bencodable};
use crate::error::{Error, Result};
use crate::grammar::{decode_bytes, Scan, Value};
use crate::text::{decimal, digit, push_decimal};
use crate::torrent::{number_at, text_at};
use crate::tracker::{compact_peers, endpoints, parse_compact_peers, AnnounceEvent, Endpoint, PeerAddr};
use crate::metainfo::views;

verus! {

/// Whether a byte stands for itself in a URL.
pub open spec fn unreserved(b: u8) -> bool {
    65 <= b <= 90 || 97 <= b <= 122 || 48 <= b <= 57 || b == 45 || b == 95 || b == 46 || b == 126
}

/// The upper-case hexadecimal digit of a number below sixteen.
pub open spec fn hex_digit(n: int) -> char {
    if n < 10 {
        digit(n)
    } else {
        (55 + n) as char
    }
}

/// A byte in a URL.
pub open spec fn escaped(b: u8) -> Seq<char> {
    if unreserved(b) {
        seq![b as char]
    } else {
        seq!['%', hex_digit(b as int / 16), hex_digit(b as int % 16)]
    }
}

/// Bytes in a URL.
pub open spec fn percent_encoded(bytes: Seq<u8>) -> Seq<char>
    decreases bytes.len(),
{
    if bytes.len() == 0 {
        Seq::empty()
    } else {
        percent_encoded(bytes.drop_last()) + escaped(bytes.last())
    }
}

fn hex_char(n: u8) -> (c: char)
    requires
        n < 16,
    ensures
        c == hex_digit(n as int),
{
    if n < 10 {
        (48 + n) as char
    } else {
        (55 + n) as char
    }
}

/// Raw bytes as they stand in a URL.
pub fn percent_encode_bytes(bytes: &[u8]) -> (out: String)
    ensures
        out@ == percent_encoded(bytes@),
{
    let mut out: String = String::new();
    let mut i: usize = 0;
    assert(bytes@.take(0) =~= Seq::empty());
    while i < bytes.len()
        invariant
            i <= bytes@.len(),
            out@ == percent_encoded(bytes@.take(i as int)),
        decreases bytes.len() - i,
    {
        let ghost before = out@;
        let b: u8 = bytes[i];
        assert(bytes@.take(i + 1).drop_last() =~= bytes@.take(i as int));
        assert(bytes@.take(i + 1).last() == b);
        if 65 <= b && b <= 90 || 97 <= b && b <= 122 || 48 <= b && b <= 57 || b == 45 || b == 95 || b
            == 46 || b == 126 {
            out.push(b as char);
        } else {
            out.push('%');
            out.push(hex_char(b / 16));
            out.push(hex_char(b % 16));
        }
        assert(out@ =~= before + escaped(b));
        i += 1;
    }
    assert(bytes@.take(i as int) =~= bytes@);
    out
}

/// The name of an event in a query.
pub open spec fn event_text(event: AnnounceEvent) -> Seq<char> {
    match event {
        AnnounceEvent::Periodic => Seq::empty(),
        AnnounceEvent::Started => "&event="@ + "started"@,
        AnnounceEvent::Completed => "&event="@ + "completed"@,
        AnnounceEvent::Stopped => "&event="@ + "stopped"@,
    }
}

/// The query of an announce.
pub open spec fn query(
    info_hash: Seq<u8>,
    peer_id: Seq<u8>,
    port: nat,
    downloaded: nat,
    left: nat,
    uploaded: nat,
    event: AnnounceEvent,
) -> Seq<char> {
    "info_hash="@ + percent_encoded(info_hash) + "&peer_id="@ + percent_encoded(peer_id) + "&port="@
        + decimal(port) + "&uploaded="@ + decimal(uploaded) + "&downloaded="@ + decimal(downloaded)
        + "&left="@ + decimal(left) + "&compact=1&numwant=50"@ + event_text(event)
}

/// What separates a query from the URL in front of it.
pub open spec fn separator(url: Seq<char>) -> char {
    if url.contains('?') {
        '&'
    } else {
        '?'
    }
}

fn contains_char(s: &str, c: char) -> (res: bool)
    ensures
        res == s@.contains(c),
{
    let n: usize = s.unicode_len();
    let mut i: usize = 0;
    while i < n
        invariant
            i <= n,
            n == s@.len(),
            forall|k: int| 0 <= k < i ==> s@[k] != c,
        decreases n - i,
    {
        if s.get_char(i) == c {
            assert(s@[i as int] == c);
            return true;
        }
        i += 1;
    }
    false
}

/// The URL of an announce.
pub fn request_url(
    announce_url: &str,
    info_hash: &[u8; 20],
    peer_id: &[u8; 20],
    port: u16,
    downloaded: u64,
    left: u64,
    uploaded: u64,
    event: AnnounceEvent,
) -> (url: String)
    ensures
        url@ == announce_url@ + seq![separator(announce_url@)] + query(
            info_hash@,
            peer_id@,
            port as nat,
            downloaded as nat,
            left as nat,
            uploaded as nat,
            event,
        ),
{
    let mut url: String = announce_url.to_owned();
    url.push(
        if contains_char(announce_url, '?') {
            '&'
        } else {
            '?'
        },
    );
    let ghost head = url@;
    url.append("info_hash=");
    url.append(percent_encode_bytes(info_hash.as_slice()).as_str());
    url.append("&peer_id=");
    url.append(percent_encode_bytes(peer_id.as_slice()).as_str());
    url.append("&port=");
    push_decimal(&mut url, port as u64);
    url.append("&uploaded=");
    push_decimal(&mut url, uploaded);
    url.append("&downloaded=");
    push_decimal(&mut url, downloaded);
    url.append("&left=");
    push_decimal(&mut url, left);
    url.append("&compact=1&numwant=50");
    let ghost whole = url@;
    if let Some(name) = event.as_http_str() {
        url.append("&event=");
        url.append(name);
    }
    proof {
        assert(url@ =~= whole + event_text(event));
        assert(head =~= announce_url@ + seq![separator(announce_url@)]);
        assert(url@ =~= head + query(
            info_hash@,
            peer_id@,
            port as nat,
            downloaded as nat,
            left as nat,
            uploaded as nat,
            event,
        ));
    }
    url
}

/// The peers of an answer.
pub enum Peers {
    /// Addresses from a compact list.
    Compact(Vec<PeerAddr>),
    /// Addresses as text, host and port, still to be parsed.
    Listed(Vec<String>),
}

/// The peers of an answer, in mathematics.
pub enum Answer {
    Compact(Seq<Endpoint>),
    Listed(Seq<Seq<char>>),
}

impl Peers {
    pub open spec fn view(&self) -> Answer {
        match self {
            Peers::Compact(peers) => Answer::Compact(endpoints(peers@)),
            Peers::Listed(texts) => Answer::Listed(views(texts@)),
        }
    }
}

/// The address of a peer in a list, or the text of what is wrong with it. The port counts in
/// 16 bits.
pub open spec fn listed_peer(v: Value) -> std::result::Result<Seq<char>, Seq<char>> {
    match text_at(v, "ip"@) {
        None => Err("peer missing ip"@),
        Some(ip) => match number_at(v, "port"@) {
            None => Err("peer missing port"@),
            Some(port) => Ok(ip + seq![':'] + decimal((port as u16) as nat)),
        },
    }
}

/// The addresses of the peers in a list, or what is wrong with the first bad one.
pub open spec fn listed_peers(items: Seq<Value>) -> std::result::Result<Seq<Seq<char>>, Seq<char>>
    decreases items.len(),
{
    if items.len() == 0 {
        Ok(Seq::empty())
    } else {
        match listed_peers(items.drop_last()) {
            Err(text) => Err(text),
            Ok(first) => match listed_peer(items.last()) {
                Err(text) => Err(text),
                Ok(peer) => Ok(first.push(peer)),
            },
        }
    }
}

/// What a decoded answer says, or the text of the error.
pub open spec fn answer_of(v: Value) -> std::result::Result<Answer, Seq<char>> {
    match text_at(v, "failure reason"@) {
        Some(reason) => Err(reason),
        None => match v.get("peers"@) {
            None => Err("missing peers"@),
            Some(peers) => match peers {
                Value::Bytes(data) => Ok(
                    Answer::Compact(compact_peers(data, data.len() as int / 6)),
                ),
                Value::List(items) => match listed_peers(items) {
                    Ok(texts) => Ok(Answer::Listed(texts)),
                    Err(text) => Err(text),
                },
                _ => Err("unrecognized peers format"@),
            },
        },
    }
}

fn read_listed_peer(v: &Bencodable) -> (res: Result<String>)
    ensures
        match listed_peer(v.value()) {
            Ok(t) => res matches Ok(s) && s@ == t,
            Err(text) => res matches Err(e) && e.is_tracker(text),
        },
{
    let mut text: String = match v.get("ip") {
        Some(w) => match w.as_str() {
            Some(ip) => ip,
            None => return Err(Error::Tracker("peer missing ip".to_owned())),
        },
        None => return Err(Error::Tracker("peer missing ip".to_owned())),
    };
    let port: u16 = match v.get("port") {
        Some(w) => match w.as_int() {
            Some(n) => n as u16,
            None => return Err(Error::Tracker("peer missing port".to_owned())),
        },
        None => return Err(Error::Tracker("peer missing port".to_owned())),
    };
    let ghost ip = text@;
    text.push(':');
    push_decimal(&mut text, port as u64);
    assert(text@ =~= ip + seq![':'] + decimal(port as nat));
    Ok(text)
}

fn read_listed_peers(items: &Vec<Bencodable>) -> (res: Result<Vec<String>>)
    ensures
        match listed_peers(values(items@)) {
            Ok(ts) => res matches Ok(texts) && views(texts@) == ts,
            Err(text) => res matches Err(e) && e.is_tracker(text),
        },
{
    let ghost all = values(items@);
    let mut out: Vec<String> = Vec::new();
    let mut i: usize = 0;
    assert(all.take(0) =~= Seq::empty());
    assert(views(out@) =~= Seq::empty());
    while i < items.len()
        invariant
            i <= items@.len(),
            all == values(items@),
            listed_peers(all.take(i as int)) == Ok::<Seq<Seq<char>>, Seq<char>>(views(out@)),
        decreases items.len() - i,
    {
        let ghost before = out@;
        assert(all.take(i + 1).drop_last() =~= all.take(i as int));
        assert(all.take(i + 1).last() == items@[i as int].value());
        match read_listed_peer(&items[i]) {
            Ok(text) => {
                out.push(text);
                assert(views(out@) =~= views(before).push(text@));
            },
            Err(e) => {
                proof {
                    bad_peer_stops(all, i + 1);
                }
                return Err(e);
            },
        }
        i += 1;
    }
    assert(all.take(i as int) =~= all);
    Ok(out)
}

/// What is wrong with the first peers is wrong with all of them.
proof fn bad_peer_stops(items: Seq<Value>, k: int)
    requires
        0 <= k <= items.len(),
        listed_peers(items.take(k)) is Err,
    ensures
        listed_peers(items) == listed_peers(items.take(k)),
    decreases items.len(),
{
    if k == items.len() {
        assert(items.take(k) =~= items);
    } else {
        assert(items.drop_last().take(k) =~= items.take(k));
        bad_peer_stops(items.drop_last(), k);
    }
}

/// What a decoded answer says.
pub fn read_answer(decoded: &Bencodable) -> (res: Result<Peers>)
    ensures
        match answer_of(decoded.value()) {
            Ok(a) => res matches Ok(peers) && peers@ == a,
            Err(text) => res matches Err(e) && e.is_tracker(text),
        },
{
    if let Some(v) = decoded.get("failure reason") {
        if let Some(reason) = v.as_str() {
            return Err(Error::Tracker(reason));
        }
    }
    let peers: &Bencodable = match decoded.get("peers") {
        Some(v) => v,
        None => return Err(Error::Tracker("missing peers".to_owned())),
    };
    if let Some(bytes) = peers.as_bytes() {
        return Ok(Peers::Compact(parse_compact_peers(bytes)));
    }
    if let Some(list) = peers.as_list() {
        return match read_listed_peers(list) {
            Ok(texts) => Ok(Peers::Listed(texts)),
            Err(e) => Err(e),
        };
    }
    Err(Error::Tracker("unrecognized peers format".to_owned()))
}

/// What the body of an answer says. There is no result if the body ends inside a value.
pub fn read_body(body: Vec<u8>) -> (res: Option<Result<Peers>>)
    ensures
        match decode_bytes(body@) {
            Scan::Overrun => res is None,
            Scan::Invalid(_) => res matches Some(Err(e)) && e.is_tracker("InvalidInput"@),
            Scan::Read(v, _) => match answer_of(v) {
                Ok(a) => res matches Some(Ok(peers)) && peers@ == a,
                Err(text) => res matches Some(Err(e)) && e.is_tracker(text),
            },
        },
{
    match Bencodable::try_decode(body) {
        None => None,
        Some(Err(_)) => Some(Err(Error::Tracker("InvalidInput".to_owned()))),
        Some(Ok(decoded)) => Some(read_answer(&decoded)),
    }
}

} // verus!
