use sha1::{Digest, Sha1};
use tempest::bencoding::{Bencodable, Dict};
use tempest::metainfo::{
    info_dict_span, read_string, skip_value, Info, Layout, MetaError, MetaInfo,
};

#[test]
fn test_skip_value_nested() {
    let raw = b"d3:fooli1ei2ee3:bari42ee".to_vec();
    let span = info_dict_span(&raw);
    // no "info" key present
    assert!(span.is_none());
}

fn digest(bytes: &[u8]) -> [u8; 20] {
    let mut hasher = Sha1::new();
    hasher.update(bytes);
    hasher.finalize().into()
}

fn text(s: &str) -> Bencodable {
    Bencodable::String(s.into())
}

fn dict(entries: Vec<(&str, Bencodable)>) -> Bencodable {
    let mut d = Dict::new();
    for (k, v) in entries {
        d.insert(k.to_owned(), v);
    }
    Bencodable::Dict(d)
}

fn hashes() -> String {
    let mut s = "A".repeat(20);
    s.push_str(&"B".repeat(20));
    s
}

fn single_info() -> Bencodable {
    dict(vec![
        ("name", text("file.bin")),
        ("piece length", Bencodable::Number(16384)),
        ("pieces", text(&hashes())),
        ("length", Bencodable::Number(20000)),
    ])
}

fn file(length: i64, path: Vec<&str>) -> Bencodable {
    dict(vec![
        ("length", Bencodable::Number(length)),
        ("path", Bencodable::List(path.into_iter().map(text).collect())),
    ])
}

fn multi_info() -> Bencodable {
    dict(vec![
        ("name", text("set")),
        ("piece length", Bencodable::Number(16)),
        ("pieces", text(&hashes())),
        (
            "files",
            Bencodable::List(vec![file(10, vec!["a.txt"]), file(14, vec!["sub", "b.txt"])]),
        ),
    ])
}

fn torrent(info: Bencodable) -> Bencodable {
    dict(vec![("announce", text("udp://tracker.example:80")), ("info", info)])
}

fn missing(res: Result<MetaInfo, MetaError>) -> &'static str {
    match res {
        Err(MetaError::MissingField(key)) => key,
        other => panic!("{:?}", other),
    }
}

#[test]
fn a_torrent_of_one_file_is_read() {
    let root = torrent(single_info());
    let meta = MetaInfo::parse(root.encode().into_bytes()).unwrap();
    assert_eq!(meta.announce, "udp://tracker.example:80");
    assert!(meta.announce_list.is_empty());
    assert_eq!(meta.info.name, "file.bin");
    assert_eq!(meta.info.piece_length, 16384);
    assert_eq!(meta.info.piece_hashes, vec![[b'A'; 20], [b'B'; 20]]);
    assert_eq!(meta.info.layout, Layout::Single { length: 20000 });
    assert_eq!(meta.total_length, 20000);
    assert_eq!(meta.num_pieces, 2);
    assert_eq!(meta.info_hash, digest(single_info().encode().as_bytes()));
}

#[test]
fn a_torrent_of_several_files_is_read() {
    let meta = MetaInfo::parse(torrent(multi_info()).encode().into_bytes()).unwrap();
    assert_eq!(meta.total_length, 24);
    match meta.info.layout {
        Layout::Multi { files } => {
            assert_eq!(files.len(), 2);
            assert_eq!(files[0].length, 10);
            assert_eq!(files[0].path, vec!["a.txt".to_owned()]);
            assert_eq!(files[1].length, 14);
            assert_eq!(files[1].path, vec!["sub".to_owned(), "b.txt".to_owned()]);
        }
        other => panic!("{:?}", other),
    }
}

#[test]
fn tiers_keep_what_can_be_read() {
    let mut d = Dict::new();
    d.insert("announce".to_owned(), text("a"));
    d.insert("info".to_owned(), single_info());
    d.insert(
        "announce-list".to_owned(),
        Bencodable::List(vec![
            Bencodable::List(vec![text("one"), Bencodable::Number(3), text("two")]),
            Bencodable::Number(1),
            Bencodable::List(vec![]),
        ]),
    );
    let meta = MetaInfo::parse(Bencodable::Dict(d).encode().into_bytes()).unwrap();
    assert_eq!(meta.announce_list, vec![vec!["one".to_owned(), "two".to_owned()], vec![]]);
}

#[test]
fn the_info_hash_is_over_the_bytes_as_they_stand() {
    // The keys of the info dictionary are out of order, so encoding it again would differ.
    let info = format!(
        "d12:piece lengthi4e6:pieces20:{}4:name1:f6:lengthi4ee",
        "C".repeat(20)
    );
    let raw = format!("d8:announce1:a4:info{}e", info).into_bytes();
    let span = info_dict_span(&raw).unwrap();
    assert_eq!(&raw[span.start..span.end], info.as_bytes());
    let meta = MetaInfo::parse(raw).unwrap();
    assert_eq!(meta.info_hash, digest(info.as_bytes()));
}

#[test]
fn a_torrent_without_info_is_refused() {
    assert!(matches!(MetaInfo::parse(b"d8:announce1:ae".to_vec()), Err(MetaError::NoInfoDict)));
    assert!(matches!(MetaInfo::parse(b"i1e".to_vec()), Err(MetaError::NoInfoDict)));
    assert!(matches!(MetaInfo::parse(vec![]), Err(MetaError::NoInfoDict)));
}

#[test]
fn bad_bencoding_is_refused() {
    let res = MetaInfo::parse(b"d4:infodeex".to_vec());
    assert!(matches!(res, Err(MetaError::Bencode(_))));
}

#[test]
fn every_missing_field_is_named() {
    let root = dict(vec![("info", single_info())]);
    assert_eq!(missing(MetaInfo::parse(root.encode().into_bytes())), "announce");
    let root = torrent(dict(vec![]));
    assert_eq!(missing(MetaInfo::parse(root.encode().into_bytes())), "name");
    let root = torrent(dict(vec![("name", text("n"))]));
    assert_eq!(missing(MetaInfo::parse(root.encode().into_bytes())), "piece length");
    let root = torrent(dict(vec![
        ("name", text("n")),
        ("piece length", Bencodable::Number(1)),
    ]));
    assert_eq!(missing(MetaInfo::parse(root.encode().into_bytes())), "pieces");
    let root = torrent(dict(vec![
        ("name", text("n")),
        ("piece length", Bencodable::Number(1)),
        ("pieces", text("")),
    ]));
    assert_eq!(missing(MetaInfo::parse(root.encode().into_bytes())), "length");

    let no_info = dict(vec![("announce", text("a"))]);
    assert_eq!(missing(MetaInfo::from_root(&no_info, [0u8; 20]).unwrap()), "info");
}

#[test]
fn every_missing_field_of_a_file_is_named() {
    let with = |f: Bencodable| {
        torrent(dict(vec![
            ("name", text("n")),
            ("piece length", Bencodable::Number(1)),
            ("pieces", text("")),
            ("files", Bencodable::List(vec![f])),
        ]))
        .encode()
        .into_bytes()
    };
    assert_eq!(missing(MetaInfo::parse(with(dict(vec![])))), "files.length");
    let no_path = dict(vec![("length", Bencodable::Number(1))]);
    assert_eq!(missing(MetaInfo::parse(with(no_path))), "files.path");
    let bad_part = dict(vec![
        ("length", Bencodable::Number(1)),
        ("path", Bencodable::List(vec![Bencodable::Number(1)])),
    ]);
    assert_eq!(missing(MetaInfo::parse(with(bad_part))), "files.path");
}

#[test]
fn pieces_must_be_whole_digests() {
    let info = dict(vec![
        ("name", text("n")),
        ("piece length", Bencodable::Number(1)),
        ("pieces", text("123")),
        ("length", Bencodable::Number(1)),
    ]);
    assert!(matches!(Info::from_bencodable(&info), Err(MetaError::BadPieces)));
    let res = MetaInfo::parse(torrent(info).encode().into_bytes());
    assert!(matches!(res, Err(MetaError::BadPieces)));
}

#[test]
fn negative_lengths_wrap() {
    let info = dict(vec![
        ("name", text("n")),
        ("piece length", Bencodable::Number(-1)),
        ("pieces", text("")),
        ("length", Bencodable::Number(-2)),
    ]);
    let info = Info::from_bencodable(&info).unwrap();
    assert_eq!(info.piece_length, u64::MAX);
    assert_eq!(info.layout, Layout::Single { length: u64::MAX - 1 });
}

#[test]
fn files_that_are_too_long_together_have_no_result() {
    let info = dict(vec![
        ("name", text("n")),
        ("piece length", Bencodable::Number(1)),
        ("pieces", text("")),
        ("files", Bencodable::List(vec![file(-1, vec!["a"]), file(1, vec!["b"])])),
    ]);
    assert!(MetaInfo::try_parse(torrent(info).encode().into_bytes()).is_none());
}

#[test]
fn a_torrent_that_ends_inside_a_value_has_no_result() {
    assert!(MetaInfo::try_parse(b"d4:infode".to_vec()).is_none());
    assert!(MetaInfo::try_parse(torrent(single_info()).encode().into_bytes()).is_some());
}

#[test]
fn strings_are_read_and_values_skipped() {
    let raw = b"4:spami42eli1eed1:a1:be";
    let mut i = 0;
    assert_eq!(read_string(raw, &mut i), Some(&b"spam"[..]));
    assert_eq!(i, 6);
    assert_eq!(skip_value(raw, &mut i), Some(()));
    assert_eq!(i, 10);
    assert_eq!(skip_value(raw, &mut i), Some(()));
    assert_eq!(i, 15);
    assert_eq!(skip_value(raw, &mut i), Some(()));
    assert_eq!(i, raw.len());
    assert_eq!(skip_value(raw, &mut i), None);
    assert_eq!(info_dict_span(b"d+4:infodee"), Some(8..10));
    let mut j = 0;
    assert_eq!(read_string(b"9:short", &mut j), None);
    assert_eq!(read_string(b"nocolon", &mut j), None);
    assert_eq!(skip_value(b"x", &mut j), None);
}
