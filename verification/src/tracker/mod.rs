//! Trackers: whom to ask for peers, in which order, and what to make of the answers.

pub mod answer_laws;
pub mod http;
pub mod laws;
pub mod query_laws;
pub mod udp;
pub mod udp_laws;

use vstd::prelude::*;
use vstd::string::*;

use crate::error::{Error, Result};
use crate::metainfo::{list_views, views, MetaInfo};
use crate::octets::{be_value, read_u16};
use crate::text::{decimal, push_decimal};
use crate::torrent::MetaFacts;

verus! {

#[derive(Debug, Clone, Copy, PartialEq, Eq, Structural)]
pub enum AnnounceEvent {
    /// Nothing happened; one of the announces in between.
    Periodic,
    Started,
    Completed,
    Stopped,
}

impl AnnounceEvent {
    pub fn as_http_str(self) -> (res: Option<&'static str>)
        ensures
            match self {
                AnnounceEvent::Periodic => res is None,
                AnnounceEvent::Started => res matches Some(s) && s@ == "started"@,
                AnnounceEvent::Completed => res matches Some(s) && s@ == "completed"@,
                AnnounceEvent::Stopped => res matches Some(s) && s@ == "stopped"@,
            },
    {
        match self {
            AnnounceEvent::Periodic => None,
            AnnounceEvent::Started => Some("started"),
            AnnounceEvent::Completed => Some("completed"),
            AnnounceEvent::Stopped => Some("stopped"),
        }
    }

    /// The number of this event in the UDP protocol.
    pub open spec fn number(self) -> u32 {
        match self {
            AnnounceEvent::Periodic => 0,
            AnnounceEvent::Completed => 1,
            AnnounceEvent::Started => 2,
            AnnounceEvent::Stopped => 3,
        }
    }

    pub fn as_udp(self) -> (n: u32)
        ensures
            n == self.number(),
    {
        match self {
            AnnounceEvent::Periodic => 0,
            AnnounceEvent::Completed => 1,
            AnnounceEvent::Started => 2,
            AnnounceEvent::Stopped => 3,
        }
    }
}

/// The address of a peer: IPv4 and port.
#[derive(Debug, Clone, Copy, PartialEq, Eq)]
pub struct PeerAddr {
    pub ip: [u8; 4],
    pub port: u16,
}

/// An address in mathematics.
#[verifier::ext_equal]
pub struct Endpoint {
    pub ip: Seq<u8>,
    pub port: int,
}

impl Endpoint {
    /// The address as text.
    pub open spec fn text(self) -> Seq<char> {
        decimal(self.ip[0] as nat) + seq!['.'] + decimal(self.ip[1] as nat) + seq!['.'] + decimal(
            self.ip[2] as nat,
        ) + seq!['.'] + decimal(self.ip[3] as nat) + seq![':'] + decimal(self.port as nat)
    }
}

impl PeerAddr {
    pub open spec fn view(&self) -> Endpoint {
        Endpoint { ip: self.ip@, port: self.port as int }
    }

    /// The address as text.
    pub fn to_string(&self) -> (text: String)
        ensures
            text@ == self@.text(),
    {
        let mut text: String = String::new();
        push_decimal(&mut text, self.ip[0] as u64);
        text.push('.');
        push_decimal(&mut text, self.ip[1] as u64);
        text.push('.');
        push_decimal(&mut text, self.ip[2] as u64);
        text.push('.');
        push_decimal(&mut text, self.ip[3] as u64);
        text.push(':');
        push_decimal(&mut text, self.port as u64);
        assert(text@ =~= self@.text());
        text
    }
}

/// The addresses that peers stand for.
pub open spec fn endpoints(peers: Seq<PeerAddr>) -> Seq<Endpoint> {
    peers.map_values(|p: PeerAddr| p@)
}

/// The address in six bytes.
pub open spec fn endpoint_of(group: Seq<u8>) -> Endpoint {
    Endpoint { ip: group.take(4), port: be_value(group.skip(4)) }
}

/// The addresses in the first `k` groups of six bytes. A port of zero is no address.
pub open spec fn compact_peers(data: Seq<u8>, k: int) -> Seq<Endpoint>
    decreases k,
{
    if k <= 0 {
        Seq::empty()
    } else {
        let peer = endpoint_of(data.subrange(6 * (k - 1), 6 * k));
        if peer.port == 0 {
            compact_peers(data, k - 1)
        } else {
            compact_peers(data, k - 1).push(peer)
        }
    }
}

/// Parses a compact peer list: repeated groups of six bytes, IPv4 and port.
pub fn parse_compact_peers(data: &[u8]) -> (peers: Vec<PeerAddr>)
    ensures
        endpoints(peers@) == compact_peers(data@, data@.len() as int / 6),
{
    let n: usize = data.len() / 6;
    let mut peers: Vec<PeerAddr> = Vec::new();
    let mut i: usize = 0;
    assert(endpoints(peers@) =~= Seq::empty());
    while i < n
        invariant
            i <= n,
            n == data@.len() as int / 6,
            data.len() == data@.len(),
            endpoints(peers@) == compact_peers(data@, i as int),
        decreases n - i,
    {
        let at: usize = 6 * i;
        let ip: [u8; 4] = [data[at], data[at + 1], data[at + 2], data[at + 3]];
        let port: u16 = read_u16(data, at + 4);
        let ghost group = data@.subrange(6 * i, 6 * (i + 1));
        let ghost before = peers@;
        let peer: PeerAddr = PeerAddr { ip, port };
        proof {
            assert(group.skip(4) =~= data@.subrange(at + 4, at + 6));
            assert(ip@ =~= group.take(4));
            assert(peer@ == endpoint_of(group));
        }
        if port != 0 {
            peers.push(peer);
            assert(endpoints(peers@) =~= endpoints(before).push(peer@));
        }
        i += 1;
    }
    peers
}

/// Whether a text starts with another.
pub fn has_prefix(s: &str, prefix: &str) -> (res: bool)
    ensures
        res == prefix@.is_prefix_of(s@),
{
    let n: usize = prefix.unicode_len();
    if s.unicode_len() < n {
        return false;
    }
    let mut i: usize = 0;
    while i < n
        invariant
            i <= n,
            n == prefix@.len(),
            n <= s@.len(),
            forall|k: int| 0 <= k < i ==> prefix@[k] == s@[k],
        decreases n - i,
    {
        if s.get_char(i) != prefix.get_char(i) {
            assert(prefix@[i as int] != s@[i as int]);
            return false;
        }
        i += 1;
    }
    true
}

/// Whether a tracker can be asked: the protocol is UDP, HTTP or HTTPS.
pub open spec fn usable(url: Seq<char>) -> bool {
    "udp://"@.is_prefix_of(url) || "http://"@.is_prefix_of(url) || "https://"@.is_prefix_of(url)
}

/// The trackers of a tier that can be asked.
pub open spec fn usable_urls(tier: Seq<Seq<char>>) -> Seq<Seq<char>>
    decreases tier.len(),
{
    if tier.len() == 0 {
        Seq::empty()
    } else if usable(tier.last()) {
        usable_urls(tier.drop_last()).push(tier.last())
    } else {
        usable_urls(tier.drop_last())
    }
}

/// Whether a tracker is in one of the tiers.
pub open spec fn listed(tiers: Seq<Seq<Seq<char>>>, url: Seq<char>) -> bool {
    exists|i: int, j: int|
        #![trigger tiers[i][j]]
        0 <= i < tiers.len() && 0 <= j < tiers[i].len() && tiers[i][j] == url
}

/// The tiers to ask in order: those of the torrent, with its main tracker in a tier of its own
/// in front if it is in none of them.
pub open spec fn tiers_to_ask(meta: MetaFacts) -> Seq<Seq<Seq<char>>> {
    if meta.announce_list.len() > 0 && listed(meta.announce_list, meta.announce) {
        meta.announce_list
    } else {
        seq![seq![meta.announce]] + meta.announce_list
    }
}

/// What is left to download.
pub fn bytes_left(total_length: u64, downloaded: u64) -> (left: u64)
    ensures
        left == if downloaded < total_length {
            total_length - downloaded
        } else {
            0
        },
{
    total_length.saturating_sub(downloaded)
}

fn copy_texts(texts: &Vec<String>) -> (res: Vec<String>)
    ensures
        views(res@) == views(texts@),
{
    let mut res: Vec<String> = Vec::new();
    let mut i: usize = 0;
    while i < texts.len()
        invariant
            i <= texts@.len(),
            res@.len() == i,
            forall|k: int| 0 <= k < i ==> (#[trigger] res@[k])@ == texts@[k]@,
        decreases texts.len() - i,
    {
        res.push(texts[i].clone());
        i += 1;
    }
    assert(views(res@) =~= views(texts@));
    res
}

/// Whether `url` is among texts.
fn contains_text(texts: &Vec<String>, url: &String) -> (res: bool)
    ensures
        res == exists|j: int| 0 <= j < texts@.len() && #[trigger] texts@[j]@ == url@,
{
    let mut i: usize = 0;
    while i < texts.len()
        invariant
            i <= texts@.len(),
            forall|k: int| 0 <= k < i ==> #[trigger] texts@[k]@ != url@,
        decreases texts.len() - i,
    {
        if texts[i] == *url {
            assert(texts@[i as int]@ == url@);
            return true;
        }
        i += 1;
    }
    false
}

/// The course of an announce: which tiers are still to be asked, and the last error.
pub struct Announcing {
    pub tiers: Vec<Vec<String>>,
    pub next: usize,
    pub last_err: Error,
}

impl Announcing {
    /// The tiers that are still to be asked.
    pub open spec fn ahead(&self) -> Seq<Seq<Seq<char>>> {
        list_views(self.tiers@).skip(self.next as int)
    }

    /// Before the first tier.
    pub fn new(meta: &MetaInfo) -> (a: Self)
        ensures
            a.next <= a.tiers@.len(),
            a.ahead() == tiers_to_ask(meta@),
            a.last_err.is_tracker("no usable trackers"@),
    {
        let ghost facts = meta@;
        let ghost own = list_views(meta.announce_list@);
        let mut found: bool = false;
        let mut i: usize = 0;
        while i < meta.announce_list.len()
            invariant
                i <= meta.announce_list@.len(),
                own == list_views(meta.announce_list@),
                found == exists|t: int, u: int|
                    #![trigger own[t][u]]
                    0 <= t < i && 0 <= u < own[t].len() && own[t][u] == meta.announce@,
            decreases meta.announce_list.len() - i,
        {
            let here: bool = contains_text(&meta.announce_list[i], &meta.announce);
            proof {
                assert(own[i as int] == views(meta.announce_list@[i as int]@));
                if here {
                    let j = choose|j: int|
                        0 <= j < meta.announce_list@[i as int]@.len()
                            && #[trigger] meta.announce_list@[i as int]@[j]@ == meta.announce@;
                    assert(own[i as int][j] == meta.announce@);
                }
                if exists|t: int, u: int|
                    #![trigger own[t][u]]
                    0 <= t < i + 1 && 0 <= u < own[t].len() && own[t][u] == meta.announce@ {
                    let (t, u) = choose|t: int, u: int|
                        #![trigger own[t][u]]
                        0 <= t < i + 1 && 0 <= u < own[t].len() && own[t][u] == meta.announce@;
                    if t == i {
                        assert(meta.announce_list@[i as int]@[u]@ == meta.announce@);
                    }
                }
            }
            if here {
                found = true;
            }
            i += 1;
        }
        let mut tiers: Vec<Vec<String>> = Vec::new();
        if meta.announce_list.len() == 0 || !found {
            let mut first: Vec<String> = Vec::new();
            first.push(meta.announce.clone());
            proof {
                assert(views(first@) =~= seq![meta.announce@]);
            }
            tiers.push(first);
        }
        let ghost head = tiers@;
        let ghost lead = list_views(head);
        proof {
            if head.len() > 0 {
                assert(lead =~= seq![seq![meta.announce@]]);
            } else {
                assert(lead =~= Seq::empty());
            }
            assert(own.take(0) =~= Seq::empty());
            assert(list_views(tiers@) =~= lead + own.take(0));
        }
        let mut j: usize = 0;
        while j < meta.announce_list.len()
            invariant
                j <= meta.announce_list@.len(),
                own == list_views(meta.announce_list@),
                list_views(tiers@) == lead + own.take(j as int),
            decreases meta.announce_list.len() - j,
        {
            let ghost before = tiers@;
            let tier: Vec<String> = copy_texts(&meta.announce_list[j]);
            tiers.push(tier);
            proof {
                assert(own.take(j + 1) =~= own.take(j as int).push(views(tier@)));
                assert(list_views(tiers@) =~= list_views(before).push(views(tier@)));
            }
            j += 1;
        }
        proof {
            assert(own.take(j as int) =~= own);
            assert(list_views(tiers@).skip(0) =~= list_views(tiers@));
            assert(found == listed(own, meta.announce@));
            assert(lead + own =~= tiers_to_ask(facts));
        }
        Announcing { tiers, next: 0, last_err: Error::Tracker("no usable trackers".to_owned()) }
    }

    /// The trackers to ask next, all at once: those of the next tier that has any that can be
    /// asked.
    pub fn next_tier(&mut self) -> (res: Option<Vec<String>>)
        requires
            old(self).next <= old(self).tiers@.len(),
        ensures
            final(self).next <= final(self).tiers@.len(),
            final(self).last_err == old(self).last_err,
            match first_usable(old(self).ahead()) {
                Some(k) => (res matches Some(urls) && views(urls@) == usable_urls(
                    old(self).ahead()[k],
                )) && final(self).ahead() == old(self).ahead().skip(k + 1),
                None => res is None && final(self).ahead() == Seq::<Seq<Seq<char>>>::empty(),
            },
    {
        let ghost all = list_views(self.tiers@);
        let ghost first = self.next as int;
        let ghost ahead = self.ahead();
        assert(ahead =~= all.skip(first));
        while self.next < self.tiers.len()
            invariant
                0 <= first <= self.next <= self.tiers@.len(),
                self.tiers == old(self).tiers,
                self.last_err == old(self).last_err,
                all == list_views(self.tiers@),
                ahead == all.skip(first),
                ahead == old(self).ahead(),
                forall|k: int|
                    0 <= k < self.next - first ==> usable_urls(#[trigger] ahead[k]).len() == 0,
            decreases self.tiers.len() - self.next,
        {
            let at: usize = self.next;
            assert(ahead[at - first] == views(self.tiers@[at as int]@));
            let urls: Vec<String> = filter_usable(&self.tiers[at]);
            self.next = at + 1;
            if urls.len() > 0 {
                proof {
                    let k = at - first;
                    first_usable_is(ahead, k);
                    assert(views(urls@).len() == urls@.len());
                    assert(self.ahead() =~= ahead.skip(k + 1));
                }
                return Some(urls);
            }
            assert(views(urls@).len() == 0);
        }
        proof {
            no_usable(ahead);
            assert(self.ahead() =~= Seq::<Seq<Seq<char>>>::empty());
        }
        None
    }

    /// Takes in the reply of a tracker. Gives the peers if there are any, and remembers the
    /// error otherwise.
    pub fn on_reply<P>(&mut self, reply: Result<Vec<P>>) -> (res: Option<Vec<P>>)
        ensures
            final(self).tiers == old(self).tiers,
            final(self).next == old(self).next,
            match reply {
                Ok(peers) => if peers@.len() > 0 {
                    res == Some(peers) && final(self).last_err == old(self).last_err
                } else {
                    res is None && final(self).last_err.is_tracker("tracker returned no peers"@)
                },
                Err(e) => res is None && final(self).last_err == e,
            },
    {
        match reply {
            Ok(peers) => {
                if peers.len() > 0 {
                    Some(peers)
                } else {
                    self.last_err = Error::Tracker("tracker returned no peers".to_owned());
                    None
                }
            },
            Err(e) => {
                self.last_err = e;
                None
            },
        }
    }

    /// The error of an announce to which no tracker gave peers.
    pub fn into_error(self) -> (e: Error)
        ensures
            e == self.last_err,
    {
        self.last_err
    }
}

/// The first tier with a tracker that can be asked.
pub open spec fn first_usable(tiers: Seq<Seq<Seq<char>>>) -> Option<int>
    decreases tiers.len(),
{
    if tiers.len() == 0 {
        None
    } else if usable_urls(tiers[0]).len() > 0 {
        Some(0)
    } else {
        match first_usable(tiers.drop_first()) {
            Some(k) => Some(k + 1),
            None => None,
        }
    }
}

proof fn first_usable_is(tiers: Seq<Seq<Seq<char>>>, k: int)
    requires
        0 <= k < tiers.len(),
        usable_urls(tiers[k]).len() > 0,
        forall|i: int| 0 <= i < k ==> usable_urls(#[trigger] tiers[i]).len() == 0,
    ensures
        first_usable(tiers) == Some(k),
    decreases tiers.len(),
{
    if k > 0 {
        assert(usable_urls(tiers[0]).len() == 0);
        let rest = tiers.drop_first();
        assert forall|i: int| 0 <= i < k - 1 implies usable_urls(#[trigger] rest[i]).len() == 0 by {
            assert(rest[i] == tiers[i + 1]);
        }
        first_usable_is(rest, k - 1);
    }
}

proof fn no_usable(tiers: Seq<Seq<Seq<char>>>)
    requires
        forall|i: int| 0 <= i < tiers.len() ==> usable_urls(#[trigger] tiers[i]).len() == 0,
    ensures
        first_usable(tiers) is None,
    decreases tiers.len(),
{
    if tiers.len() > 0 {
        assert(usable_urls(tiers[0]).len() == 0);
        let rest = tiers.drop_first();
        assert forall|i: int| 0 <= i < rest.len() implies usable_urls(#[trigger] rest[i]).len() == 0 by {
            assert(rest[i] == tiers[i + 1]);
        }
        no_usable(rest);
    }
}

/// The trackers of a tier that can be asked.
fn filter_usable(tier: &Vec<String>) -> (res: Vec<String>)
    ensures
        views(res@) == usable_urls(views(tier@)),
{
    let ghost all = views(tier@);
    let mut res: Vec<String> = Vec::new();
    let mut i: usize = 0;
    assert(all.take(0) =~= Seq::empty());
    assert(views(res@) =~= Seq::empty());
    while i < tier.len()
        invariant
            i <= tier@.len(),
            all == views(tier@),
            views(res@) == usable_urls(all.take(i as int)),
        decreases tier.len() - i,
    {
        let ghost before = res@;
        let url: &str = tier[i].as_str();
        assert(all.take(i + 1).drop_last() =~= all.take(i as int));
        assert(all.take(i + 1).last() == url@);
        if has_prefix(url, "udp://") || has_prefix(url, "http://") || has_prefix(url, "https://") {
            res.push(url.to_owned());
            assert(views(res@) =~= views(before).push(url@));
        }
        i += 1;
    }
    assert(all.take(i as int) =~= all);
    res
}

/// Whether a tracker is asked over UDP.
pub fn is_udp(url: &str) -> (res: bool)
    ensures
        res == "udp://"@.is_prefix_of(url@),
{
    has_prefix(url, "udp://")
}

} // verus!
