use tempest::bencoding::{Bencodable, Dict};
use tempest::error::Error;
use tempest::metainfo::{Info, Layout, MetaInfo};
use tempest::tracker::http::{percent_encode_bytes, read_answer, read_body, request_url, Peers};
use tempest::tracker::udp::{
    announce_request, announce_step, bind_addr, choose_addr, connect_request, connect_step,
    host_port, new_announce_request, new_connect_request, new_key, retry_wait, Reply, Step,
    MAX_ATTEMPTS, PROTOCOL_ID,
};
use tempest::tracker::{
    bytes_left, has_prefix, is_udp, parse_compact_peers, AnnounceEvent, Announcing, PeerAddr,
};

#[test]
fn parse_compact_peers_basic() {
    let data = [127, 0, 0, 1, 0x1A, 0xE1, 10, 0, 0, 2, 0x1A, 0xE0];
    let peers = parse_compact_peers(&data);
    assert_eq!(peers.len(), 2);
    assert_eq!(peers[0].to_string(), "127.0.0.1:6881");
    assert_eq!(peers[1].to_string(), "10.0.0.2:6880");
}

fn tracker_error<T>(res: Result<T, Error>) -> String {
    match res {
        Err(Error::Tracker(text)) => text,
        _ => panic!("no tracker error"),
    }
}

#[test]
fn peers_without_a_port_and_short_groups_are_dropped() {
    let data = [1, 2, 3, 4, 0, 0, 5, 6, 7, 8, 0, 1, 9, 9];
    assert_eq!(parse_compact_peers(&data), vec![PeerAddr { ip: [5, 6, 7, 8], port: 1 }]);
    assert_eq!(parse_compact_peers(&[]), vec![]);
}

#[test]
fn events_have_their_names_and_numbers() {
    let all = [
        (AnnounceEvent::Periodic, None, 0),
        (AnnounceEvent::Completed, Some("completed"), 1),
        (AnnounceEvent::Started, Some("started"), 2),
        (AnnounceEvent::Stopped, Some("stopped"), 3),
    ];
    for (event, name, number) in all {
        assert_eq!(event.as_http_str(), name);
        assert_eq!(event.as_udp(), number);
    }
}

#[test]
fn what_is_left_does_not_go_below_zero() {
    assert_eq!(bytes_left(10, 4), 6);
    assert_eq!(bytes_left(4, 10), 0);
}

#[test]
fn prefixes_are_found() {
    assert!(has_prefix("udp://x", "udp://"));
    assert!(!has_prefix("udp:/", "udp://"));
    assert!(!has_prefix("wss://x", "ws://"));
    assert!(is_udp("udp://host:1"));
    assert!(!is_udp("http://host"));
}

fn meta(announce: &str, tiers: Vec<Vec<&str>>) -> MetaInfo {
    MetaInfo {
        announce: announce.to_owned(),
        announce_list: tiers
            .into_iter()
            .map(|t| t.into_iter().map(|u| u.to_owned()).collect())
            .collect(),
        info: Info {
            name: "n".to_owned(),
            piece_length: 1,
            piece_hashes: vec![],
            layout: Layout::Single { length: 0 },
        },
        info_hash: [0u8; 20],
        total_length: 0,
        num_pieces: 0,
    }
}

fn tiers_of(meta: &MetaInfo) -> Vec<Vec<String>> {
    let mut a = Announcing::new(meta);
    let mut out = Vec::new();
    while let Some(urls) = a.next_tier() {
        out.push(urls);
    }
    out
}

#[test]
fn the_main_tracker_comes_first_unless_it_is_listed() {
    assert_eq!(tiers_of(&meta("udp://m", vec![])), vec![vec!["udp://m".to_owned()]]);
    assert_eq!(
        tiers_of(&meta("udp://m", vec![vec!["http://a"], vec!["https://b", "udp://c"]])),
        vec![
            vec!["udp://m".to_owned()],
            vec!["http://a".to_owned()],
            vec!["https://b".to_owned(), "udp://c".to_owned()],
        ]
    );
    assert_eq!(
        tiers_of(&meta("udp://m", vec![vec!["http://a"], vec!["udp://m"]])),
        vec![vec!["http://a".to_owned()], vec!["udp://m".to_owned()]]
    );
}

#[test]
fn trackers_of_other_kinds_are_skipped() {
    let m = meta("wss://m", vec![vec!["ws://a", "udp://b"], vec!["wss://c"], vec!["http://d"]]);
    assert_eq!(tiers_of(&m), vec![vec!["udp://b".to_owned()], vec!["http://d".to_owned()]]);
    let mut none = Announcing::new(&meta("wss://m", vec![]));
    assert!(none.next_tier().is_none());
    assert_eq!(tracker_error::<()>(Err(none.into_error())), "no usable trackers");
}

#[test]
fn the_first_peers_win_and_the_last_error_is_kept() {
    let mut a = Announcing::new(&meta("udp://m", vec![]));
    assert_eq!(a.on_reply::<u8>(Ok(vec![])), None);
    assert_eq!(a.on_reply::<u8>(Ok(vec![7])), Some(vec![7]));
    assert_eq!(tracker_error::<()>(Err(a.into_error())), "tracker returned no peers");
    let mut a = Announcing::new(&meta("udp://m", vec![]));
    assert_eq!(a.on_reply::<u8>(Err(Error::Tracker("gone".to_owned()))), None);
    assert_eq!(tracker_error::<()>(Err(a.into_error())), "gone");
}

#[test]
fn bytes_are_percent_encoded() {
    assert_eq!(percent_encode_bytes(b"AZaz09-_.~"), "AZaz09-_.~");
    assert_eq!(percent_encode_bytes(&[0, 0x1f, b' ', b'/', b'%', 0xab, 0xff]), "%00%1F%20%2F%25%AB%FF");
    assert_eq!(percent_encode_bytes(&[]), "");
}

#[test]
fn the_url_carries_the_announce() {
    let url = request_url(
        "http://t/announce",
        &[b'a'; 20],
        &[0xff; 20],
        6881,
        1,
        2,
        3,
        AnnounceEvent::Started,
    );
    let mut expected = "http://t/announce?info_hash=aaaaaaaaaaaaaaaaaaaa&peer_id=".to_owned();
    expected.push_str(&"%FF".repeat(20));
    expected.push_str(
        "&port=6881&uploaded=3&downloaded=1&left=2&compact=1&numwant=50&event=started",
    );
    assert_eq!(url, expected);

    let url = request_url(
        "http://t/a?key=1",
        &[b'a'; 20],
        &[b'b'; 20],
        1,
        0,
        u64::MAX,
        0,
        AnnounceEvent::Periodic,
    );
    assert_eq!(
        url,
        "http://t/a?key=1&info_hash=aaaaaaaaaaaaaaaaaaaa&peer_id=bbbbbbbbbbbbbbbbbbbb&port=1\
         &uploaded=0&downloaded=0&left=18446744073709551615&compact=1&numwant=50"
    );
}

fn text(s: &str) -> Bencodable {
    Bencodable::String(s.into())
}

fn dict(entries: Vec<(&str, Bencodable)>) -> Bencodable {
    let mut d = Dict::new();
    for (k, v) in entries {
        d.insert(k.to_owned(), v);
    }
    Bencodable::Dict(d)
}

fn listed(answer: &Bencodable) -> Vec<String> {
    match read_answer(answer) {
        Ok(Peers::Listed(texts)) => texts,
        _ => panic!("not listed"),
    }
}

#[test]
fn compact_answers_are_read() {
    let body = b"d8:intervali1800e5:peers6:\x01\x02\x03\x04\x1a\xe1e".to_vec();
    match read_body(body) {
        Some(Ok(Peers::Compact(peers))) => {
            assert_eq!(peers, vec![PeerAddr { ip: [1, 2, 3, 4], port: 6881 }]);
        }
        _ => panic!("not compact"),
    }
}

#[test]
fn listed_answers_are_read() {
    let answer = dict(vec![(
        "peers",
        Bencodable::List(vec![
            dict(vec![("ip", text("1.2.3.4")), ("port", Bencodable::Number(6881))]),
            dict(vec![("ip", text("::1")), ("port", Bencodable::Number(65536 + 7))]),
        ]),
    )]);
    assert_eq!(listed(&answer), vec!["1.2.3.4:6881".to_owned(), "::1:7".to_owned()]);
}

#[test]
fn bad_answers_are_refused() {
    let failure = dict(vec![("failure reason", text("no torrent")), ("peers", text(""))]);
    assert_eq!(tracker_error(read_answer(&failure)), "no torrent");
    assert_eq!(tracker_error(read_answer(&dict(vec![]))), "missing peers");
    let odd = dict(vec![("peers", Bencodable::Number(1))]);
    assert_eq!(tracker_error(read_answer(&odd)), "unrecognized peers format");
    let no_ip = dict(vec![("peers", Bencodable::List(vec![dict(vec![])]))]);
    assert_eq!(tracker_error(read_answer(&no_ip)), "peer missing ip");
    let no_port = dict(vec![(
        "peers",
        Bencodable::List(vec![dict(vec![("ip", text("1.1.1.1"))])]),
    )]);
    assert_eq!(tracker_error(read_answer(&no_port)), "peer missing port");
    assert_eq!(tracker_error(read_body(b"x".to_vec()).unwrap()), "InvalidInput");
    assert!(read_body(b"d5:peers".to_vec()).is_none());
}

#[test]
fn waits_grow_and_stop_growing() {
    assert_eq!(retry_wait(0), 3);
    assert_eq!(retry_wait(1), 6);
    assert_eq!(retry_wait(2), 12);
    assert_eq!(retry_wait(90), 12);
    assert_eq!(MAX_ATTEMPTS, 3);
}

#[test]
fn host_and_port_come_from_the_url() {
    assert_eq!(host_port("udp://t.example:80/announce").unwrap(), "t.example:80");
    assert_eq!(host_port("udp://t.example:80").unwrap(), "t.example:80");
    assert_eq!(host_port("udp:///x").unwrap(), "");
    assert_eq!(tracker_error(host_port("http://t")), "not a udp url: http://t");
}

#[test]
fn the_first_v4_address_is_preferred() {
    assert_eq!(choose_addr(&vec![false, true, true]), Some(1));
    assert_eq!(choose_addr(&vec![false, false]), Some(0));
    assert_eq!(choose_addr(&vec![]), None);
    assert_eq!(bind_addr(true), "0.0.0.0:0");
    assert_eq!(bind_addr(false), "[::]:0");
}

#[test]
fn connect_requests_have_their_bytes() {
    assert_eq!(PROTOCOL_ID, 0x41727101980);
    assert_eq!(
        connect_request(0x01020304),
        vec![0, 0, 4, 0x17, 0x27, 0x10, 0x19, 0x80, 0, 0, 0, 0, 1, 2, 3, 4]
    );
    let (id, req) = new_connect_request();
    assert_eq!(req, connect_request(id));
}

#[test]
fn announce_requests_have_their_bytes() {
    let hash = [0xaa; 20];
    let peer = [0xbb; 20];
    let req =
        announce_request(1, 2, &hash, &peer, 3, 4, 5, AnnounceEvent::Completed, 6, 0x1ae1);
    let mut expected = vec![0, 0, 0, 0, 0, 0, 0, 1, 0, 0, 0, 1, 0, 0, 0, 2];
    expected.extend_from_slice(&hash);
    expected.extend_from_slice(&peer);
    expected.extend_from_slice(&[0, 0, 0, 0, 0, 0, 0, 3]);
    expected.extend_from_slice(&[0, 0, 0, 0, 0, 0, 0, 4]);
    expected.extend_from_slice(&[0, 0, 0, 0, 0, 0, 0, 5]);
    expected.extend_from_slice(&[0, 0, 0, 1, 0, 0, 0, 0, 0, 0, 0, 6]);
    expected.extend_from_slice(&[0xff, 0xff, 0xff, 0xff, 0x1a, 0xe1]);
    assert_eq!(req, expected);
    assert_eq!(req.len(), 98);
    let (id, again) =
        new_announce_request(1, &hash, &peer, 3, 4, 5, AnnounceEvent::Completed, 6, 0x1ae1);
    assert_eq!(
        again,
        announce_request(1, id, &hash, &peer, 3, 4, 5, AnnounceEvent::Completed, 6, 0x1ae1)
    );
}

#[test]
fn random_numbers_differ() {
    let keys: Vec<u32> = (0..4).map(|_| new_key()).collect();
    assert!(keys.iter().any(|k| *k != keys[0]));
}

fn connect_reply(transaction_id: u32) -> Vec<u8> {
    let mut reply = vec![0, 0, 0, 0];
    reply.extend_from_slice(&transaction_id.to_be_bytes());
    reply.extend_from_slice(&[1, 2, 3, 4, 5, 6, 7, 8]);
    reply
}

#[test]
fn connect_replies_give_the_connection() {
    match connect_step(0, 9, Reply::Received(connect_reply(9))) {
        Step::Finish(Ok(id)) => assert_eq!(id, 0x0102030405060708),
        _ => panic!("not connected"),
    }
}

#[test]
fn connecting_is_tried_again_and_given_up() {
    assert!(matches!(connect_step(0, 9, Reply::TimedOut), Step::Retry));
    assert!(matches!(connect_step(1, 9, Reply::Received(connect_reply(8))), Step::Retry));
    assert!(matches!(connect_step(1, 9, Reply::Received(vec![0; 15])), Step::Retry));
    match connect_step(2, 9, Reply::TimedOut) {
        Step::Finish(res) => assert_eq!(tracker_error(res), "udp connect timed out"),
        Step::Retry => panic!("again"),
    }
    match connect_step(0, 9, Reply::Failed("refused".to_owned())) {
        Step::Finish(res) => assert_eq!(tracker_error(res), "refused"),
        Step::Retry => panic!("again"),
    }
}

fn announce_reply(action: u32, transaction_id: u32, tail: &[u8]) -> Vec<u8> {
    let mut reply = action.to_be_bytes().to_vec();
    reply.extend_from_slice(&transaction_id.to_be_bytes());
    reply.extend_from_slice(&[0; 12]);
    reply.extend_from_slice(tail);
    reply
}

#[test]
fn announce_replies_give_the_peers() {
    let reply = announce_reply(1, 5, &[10, 0, 0, 1, 0, 80]);
    match announce_step(0, 5, Reply::Received(reply)) {
        Step::Finish(Ok(peers)) => {
            assert_eq!(peers, vec![PeerAddr { ip: [10, 0, 0, 1], port: 80 }]);
        }
        _ => panic!("no peers"),
    }
}

#[test]
fn announcing_is_tried_again_and_given_up() {
    assert!(matches!(announce_step(0, 5, Reply::TimedOut), Step::Retry));
    let foreign = announce_reply(1, 6, &[10, 0, 0, 1, 0, 80]);
    assert!(matches!(announce_step(1, 5, Reply::Received(foreign)), Step::Retry));
    assert!(matches!(announce_step(1, 5, Reply::Received(vec![0; 19])), Step::Retry));
    match announce_step(2, 5, Reply::Received(vec![])) {
        Step::Finish(res) => assert_eq!(tracker_error(res), "udp announce timed out"),
        Step::Retry => panic!("again"),
    }
    match announce_step(0, 5, Reply::Failed("gone".to_owned())) {
        Step::Finish(res) => assert_eq!(tracker_error(res), "gone"),
        Step::Retry => panic!("again"),
    }
}

#[test]
fn trackers_report_errors() {
    let mut reply = vec![0, 0, 0, 3, 0, 0, 0, 1];
    reply.extend_from_slice(b"torrent gone");
    match announce_step(0, 5, Reply::Received(reply)) {
        Step::Finish(res) => assert_eq!(tracker_error(res), "udp tracker error: torrent gone"),
        Step::Retry => panic!("again"),
    }
    let mut reply = vec![0, 0, 0, 3, 0, 0, 0, 1];
    reply.extend_from_slice(b"torrent \xff gone");
    match announce_step(0, 5, Reply::Received(reply)) {
        Step::Finish(res) => {
            assert_eq!(tracker_error(res), "udp tracker error: torrent \u{fffd} gone")
        }
        Step::Retry => panic!("again"),
    }
}
