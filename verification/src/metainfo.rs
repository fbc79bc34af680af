//! Torrent metadata: what a `.torrent` file says, and the digest that names the torrent.

use std::ops::Range;

use vstd::prelude::*;
use vstd::string::*;

use crate::bencoding::{values, Bencodable, ParsingError};
use crate::digest::sha1;
use crate::grammar::{digits_value, is_digit, Scan, Value};
use crate::octets::{copy_twenty, same_bytes};
use crate::torrent::{
    all_texts, file_of, files_of, find, info_key, info_of, info_span, layout_of, list_at, meta_of,
    number_at, numeral, numeral_digits, skip, skip_advances, skip_to_end, span_from,
    string_advances, string_at, sum_lengths, text_at, text_lists, texts, tiers_of, torrent_of,
    twenties, Complaint, FileFacts, InfoFacts, LayoutFacts, MetaFacts,
};

verus! {

/// Errors produced while interpreting a `.torrent` file.
#[derive(Debug)]
pub enum MetaError {
    Bencode(ParsingError),
    /// A required key was missing or had the wrong type.
    MissingField(&'static str),
    /// The `info` dictionary could not be located in the raw bytes.
    NoInfoDict,
    /// The length of `pieces` was not a multiple of 20.
    BadPieces,
}

impl MetaError {
    /// What this error says.
    pub open spec fn complaint(&self) -> Complaint {
        match self {
            MetaError::Bencode(_) => Complaint::Bencode,
            MetaError::MissingField(key) => Complaint::Missing(key@),
            MetaError::NoInfoDict => Complaint::NoInfoDict,
            MetaError::BadPieces => Complaint::BadPieces,
        }
    }
}

impl From<ParsingError> for MetaError {
    fn from(e: ParsingError) -> (res: Self) {
        MetaError::Bencode(e)
    }
}

impl vstd::std_specs::convert::FromSpecImpl<ParsingError> for MetaError {
    open spec fn obeys_from_spec() -> bool {
        true
    }

    open spec fn from_spec(e: ParsingError) -> Self {
        MetaError::Bencode(e)
    }
}

/// One file in a multi-file torrent: its length and the parts of its path.
#[derive(Debug, PartialEq)]
pub struct TorrentFile {
    pub length: u64,
    pub path: Vec<String>,
}

/// A torrent is either one file or a directory of files.
#[derive(Debug, PartialEq)]
pub enum Layout {
    Single { length: u64 },
    Multi { files: Vec<TorrentFile> },
}

/// The contents of the `info` dictionary.
#[derive(Debug)]
pub struct Info {
    pub name: String,
    pub piece_length: u64,
    /// SHA-1 digest of every piece, in order.
    pub piece_hashes: Vec<[u8; 20]>,
    pub layout: Layout,
}

/// Everything parsed out of a `.torrent` file.
#[derive(Debug)]
pub struct MetaInfo {
    pub announce: String,
    /// Tracker tiers; empty if the torrent has no announce-list.
    pub announce_list: Vec<Vec<String>>,
    pub info: Info,
    /// SHA-1 over the raw bytes of the info dictionary.
    pub info_hash: [u8; 20],
    pub total_length: u64,
    pub num_pieces: usize,
}

/// The texts that strings hold.
pub open spec fn views(strings: Seq<String>) -> Seq<Seq<char>> {
    strings.map_values(|s: String| s@)
}

/// The files that entries stand for.
pub open spec fn file_views(files: Seq<TorrentFile>) -> Seq<FileFacts> {
    files.map_values(|f: TorrentFile| f@)
}

/// The texts that lists of strings hold.
pub open spec fn list_views(lists: Seq<Vec<String>>) -> Seq<Seq<Seq<char>>> {
    lists.map_values(|l: Vec<String>| views(l@))
}

/// The bytes of digests.
pub open spec fn digest_views(digests: Seq<[u8; 20]>) -> Seq<Seq<u8>> {
    digests.map_values(|h: [u8; 20]| h@)
}

impl TorrentFile {
    pub open spec fn view(&self) -> FileFacts {
        FileFacts { length: self.length, path: views(self.path@) }
    }
}

impl Layout {
    pub open spec fn view(&self) -> LayoutFacts {
        match self {
            Layout::Single { length } => LayoutFacts::Single(*length),
            Layout::Multi { files } => LayoutFacts::Multi(file_views(files@)),
        }
    }
}

impl Info {
    pub open spec fn view(&self) -> InfoFacts {
        InfoFacts {
            name: self.name@,
            piece_length: self.piece_length,
            hashes: digest_views(self.piece_hashes@),
            layout: self.layout@,
        }
    }
}

impl MetaInfo {
    pub open spec fn view(&self) -> MetaFacts {
        MetaFacts {
            announce: self.announce@,
            announce_list: list_views(self.announce_list@),
            info: self.info@,
            info_hash: self.info_hash@,
            total_length: self.total_length as int,
            num_pieces: self.num_pieces as int,
        }
    }
}

/// The first place from `from` on where `b` stands.
fn position(raw: &[u8], b: u8, from: usize) -> (res: Option<usize>)
    requires
        from <= raw@.len(),
    ensures
        match find(raw@, b, from as int) {
            Some(p) => from <= p < raw@.len() && (res matches Some(q) && q == p),
            None => res is None,
        },
{
    let mut i: usize = from;
    while i < raw.len()
        invariant
            from <= i <= raw@.len(),
            find(raw@, b, from as int) == find(raw@, b, i as int),
        decreases raw.len() - i,
    {
        if raw[i] == b {
            return Some(i);
        }
        i += 1;
    }
    None
}

/// The length that the numeral from `from` up to `to` denotes.
fn read_length(raw: &[u8], from: usize, to: usize) -> (res: Option<usize>)
    requires
        from <= to <= raw@.len(),
    ensures
        match numeral(raw@.subrange(from as int, to as int)) {
            Some(n) => res matches Some(m) && m == n,
            None => res is None,
        },
{
    let ghost s = raw@.subrange(from as int, to as int);
    let ghost d = numeral_digits(s);
    let first: usize = if from < to && raw[from] == 43 {
        from + 1
    } else {
        from
    };
    assert(d =~= raw@.subrange(first as int, to as int));
    if first == to {
        return None;
    }
    let mut n: usize = 0;
    let mut i: usize = first;
    assert(d.take(0) =~= Seq::empty());
    while i < to
        invariant
            first <= i <= to <= raw@.len(),
            first < to,
            d == raw@.subrange(first as int, to as int),
            d == numeral_digits(s),
            s == raw@.subrange(from as int, to as int),
            forall|k: int| 0 <= k < i - first ==> is_digit(#[trigger] d[k]),
            n == digits_value(d.take(i - first)),
        decreases to - i,
    {
        let b: u8 = raw[i];
        assert(d[i - first] == b);
        if b < 48 || b > 57 {
            assert(!is_digit(d[i - first]));
            return None;
        }
        let digit: usize = (b - 48) as usize;
        proof {
            let longer = d.take(i - first + 1);
            assert(longer.drop_last() =~= d.take(i - first));
            assert(longer.last() == b);
            if n > (usize::MAX - digit) / 10 {
                assert(digits_value(longer) > usize::MAX);
                if forall|k: int| 0 <= k < d.len() ==> is_digit(#[trigger] d[k]) {
                    digits_grow(d, i - first + 1);
                }
            }
        }
        if n > (usize::MAX - digit) / 10 {
            return None;
        }
        n = n * 10 + digit;
        i += 1;
    }
    assert(d.take(d.len() as int) =~= d);
    Some(n)
}

/// More digits do not denote less.
proof fn digits_grow(d: Seq<u8>, k: int)
    requires
        0 <= k <= d.len(),
        forall|i: int| 0 <= i < d.len() ==> is_digit(#[trigger] d[i]),
    ensures
        digits_value(d.take(k)) <= digits_value(d),
    decreases d.len(),
{
    if k == d.len() {
        assert(d.take(k) =~= d);
    } else {
        let e = d.drop_last();
        assert forall|i: int| 0 <= i < e.len() implies is_digit(#[trigger] e[i]) by {
            assert(e[i] == d[i]);
        }
        digits_grow(e, k);
        assert(e.take(k) =~= d.take(k));
        assert(is_digit(d[d.len() - 1]));
    }
}

/// Reads the byte string at `i`. The outer `None` means that its end is beyond every index.
fn string_core<'a>(raw: &'a [u8], i: &mut usize) -> (res: Option<Option<&'a [u8]>>)
    requires
        *old(i) <= raw@.len(),
    ensures
        match string_at(raw@, *old(i) as int) {
            Scan::Read(s, j) => *final(i) == j && (res matches Some(Some(b)) && b@ == s),
            Scan::Invalid(j) => *final(i) == j && res matches Some(None),
            Scan::Overrun => res is None,
        },
{
    let colon: usize = match position(raw, 58, *i) {
        Some(p) => p,
        None => return Some(None),
    };
    let len: usize = match read_length(raw, *i, colon) {
        Some(n) => n,
        None => return Some(None),
    };
    assert(colon < raw.len());
    let start: usize = colon + 1;
    if len > usize::MAX - start {
        return None;
    }
    let end: usize = start + len;
    if end > raw.len() {
        return Some(None);
    }
    *i = end;
    Some(Some(vstd::slice::slice_subrange(raw, start, end)))
}

/// Reads the byte string at `i` and moves `i` past it.
pub fn read_string<'a>(raw: &'a [u8], i: &mut usize) -> (res: Option<&'a [u8]>)
    requires
        *old(i) <= raw@.len(),
        string_at(raw@, *old(i) as int) !is Overrun,
    ensures
        match string_at(raw@, *old(i) as int) {
            Scan::Read(s, j) => *final(i) == j && (res matches Some(b) && b@ == s),
            Scan::Invalid(j) => *final(i) == j && res is None,
            Scan::Overrun => false,
        },
{
    match string_core(raw, i) {
        Some(res) => res,
        None => None,
    }
}

/// Moves `i` past one value. The outer `None` means that its end is beyond every index.
fn skip_core(raw: &[u8], i: &mut usize) -> (res: Option<Option<()>>)
    ensures
        match skip(raw@, *old(i) as int) {
            Scan::Read(_, j) => *final(i) == j && (res matches Some(Some(()))),
            Scan::Invalid(j) => *final(i) == j && res matches Some(None),
            Scan::Overrun => res is None,
        },
    decreases raw@.len() - *old(i),
{
    let ghost first = *i as int;
    if *i >= raw.len() {
        return Some(None);
    }
    let b: u8 = raw[*i];
    if b == 105 {
        match position(raw, 101, *i) {
            Some(e) => {
                assert(e < raw.len());
                *i = e + 1;
                Some(Some(()))
            },
            None => Some(None),
        }
    } else if b == 108 || b == 100 {
        *i += 1;
        let ghost goal = skip_to_end(raw@, *i as int);
        loop
            invariant
                first == *old(i),
                first < *i <= raw@.len(),
                goal == skip_to_end(raw@, *i as int),
                goal == skip(raw@, *old(i) as int),
            decreases raw@.len() - *i,
        {
            if *i >= raw.len() {
                return Some(None);
            }
            if raw[*i] == 101 {
                *i += 1;
                return Some(Some(()));
            }
            proof {
                skip_advances(raw@, *i as int);
            }
            match skip_core(raw, i) {
                None => {
                    return None;
                },
                Some(None) => {
                    return Some(None);
                },
                Some(Some(())) => {},
            }
        }
    } else if 48 <= b && b <= 57 {
        match string_core(raw, i) {
            None => None,
            Some(None) => Some(None),
            Some(Some(_)) => Some(Some(())),
        }
    } else {
        Some(None)
    }
}

/// Moves `i` past exactly one bencoded value.
pub fn skip_value(raw: &[u8], i: &mut usize) -> (res: Option<()>)
    requires
        skip(raw@, *old(i) as int) !is Overrun,
    ensures
        match skip(raw@, *old(i) as int) {
            Scan::Read(_, j) => *final(i) == j && res is Some,
            Scan::Invalid(j) => *final(i) == j && res is None,
            Scan::Overrun => false,
        },
{
    match skip_core(raw, i) {
        Some(res) => res,
        None => None,
    }
}

/// Locates the value of `info`. The outer `None` means that an end is beyond every index.
fn span_core(raw: &[u8]) -> (res: Option<Option<Range<usize>>>)
    ensures
        match info_span(raw@) {
            Scan::Read((from, to), _) => res matches Some(Some(span)) && span.start == from
                && span.end == to && 0 <= from <= to <= raw@.len(),
            Scan::Invalid(_) => res matches Some(None),
            Scan::Overrun => res is None,
        },
{
    if raw.len() == 0 || raw[0] != 100 {
        return Some(None);
    }
    let info: [u8; 4] = [105, 110, 102, 111];
    assert(info@ =~= info_key());
    let mut i: usize = 1;
    loop
        invariant
            i <= raw@.len(),
            raw@.len() > 0,
            raw@[0] == 100,
            info@ == info_key(),
            span_from(raw@, i as int) == info_span(raw@),
        decreases raw@.len() - i,
    {
        if i >= raw.len() || raw[i] == 101 {
            return Some(None);
        }
        proof {
            string_advances(raw@, i as int);
        }
        let key: &[u8] = match string_core(raw, &mut i) {
            None => {
                return None;
            },
            Some(None) => {
                return Some(None);
            },
            Some(Some(key)) => key,
        };
        let value_start: usize = i;
        proof {
            skip_advances(raw@, i as int);
        }
        match skip_core(raw, &mut i) {
            None => {
                return None;
            },
            Some(None) => {
                return Some(None);
            },
            Some(Some(())) => {},
        }
        if same_bytes(key, info.as_slice()) {
            return Some(Some(Range { start: value_start, end: i }));
        }
    }
}

/// Locates the byte range of the value of the top-level `info` entry, so that its digest can
/// be taken over the bytes as they stand.
pub fn info_dict_span(raw: &[u8]) -> (res: Option<Range<usize>>)
    requires
        info_span(raw@) !is Overrun,
    ensures
        match info_span(raw@) {
            Scan::Read((from, to), _) => res matches Some(span) && span.start == from && span.end
                == to,
            _ => res is None,
        },
{
    match span_core(raw) {
        Some(res) => res,
        None => None,
    }
}

/// The text at `key`.
fn text_field(v: &Bencodable, key: &str) -> (res: Option<String>)
    ensures
        match text_at(v.value(), key@) {
            Some(t) => res matches Some(s) && s@ == t,
            None => res is None,
        },
{
    match v.get(key) {
        Some(w) => w.as_str(),
        None => None,
    }
}

/// The number at `key`.
fn int_field(v: &Bencodable, key: &str) -> (res: Option<i64>)
    ensures
        res == number_at(v.value(), key@),
{
    match v.get(key) {
        Some(w) => w.as_int(),
        None => None,
    }
}

/// The list at `key`.
fn list_field<'a>(v: &'a Bencodable, key: &str) -> (res: Option<&'a Vec<Bencodable>>)
    ensures
        match list_at(v.value(), key@) {
            Some(items) => res matches Some(list) && values(list@) == items,
            None => res is None,
        },
{
    match v.get(key) {
        Some(w) => w.as_list(),
        None => None,
    }
}

/// The texts among values.
fn collect_texts(items: &Vec<Bencodable>) -> (res: Vec<String>)
    ensures
        views(res@) == texts(values(items@)),
{
    let ghost all = values(items@);
    let mut res: Vec<String> = Vec::new();
    let mut i: usize = 0;
    assert(all.take(0) =~= Seq::empty());
    assert(views(res@) =~= Seq::empty());
    while i < items.len()
        invariant
            i <= items@.len(),
            all == values(items@),
            views(res@) == texts(all.take(i as int)),
        decreases items.len() - i,
    {
        let ghost before = res@;
        assert(all.take(i + 1).drop_last() =~= all.take(i as int));
        assert(all.take(i + 1).last() == items@[i as int].value());
        if let Some(text) = items[i].as_str() {
            res.push(text);
            assert(views(res@) =~= views(before).push(text@));
        }
        i += 1;
    }
    assert(all.take(i as int) =~= all);
    res
}

/// The tracker tiers of a torrent.
fn collect_tiers(root: &Bencodable) -> (res: Vec<Vec<String>>)
    ensures
        list_views(res@) == tiers_of(root.value()),
{
    let mut res: Vec<Vec<String>> = Vec::new();
    assert(list_views(res@) =~= Seq::empty());
    if let Some(items) = list_field(root, "announce-list") {
        let ghost all = values(items@);
        let mut i: usize = 0;
        assert(all.take(0) =~= Seq::empty());
        while i < items.len()
            invariant
                i <= items@.len(),
                all == values(items@),
                list_views(res@) == text_lists(all.take(i as int)),
            decreases items.len() - i,
        {
            let ghost before = res@;
            assert(all.take(i + 1).drop_last() =~= all.take(i as int));
            assert(all.take(i + 1).last() == items@[i as int].value());
            if let Some(tier) = items[i].as_list() {
                let urls: Vec<String> = collect_texts(tier);
                res.push(urls);
                assert(list_views(res@) =~= list_views(before).push(views(urls@)));
            }
            i += 1;
        }
        assert(all.take(i as int) =~= all);
    }
    res
}

/// The parts of a path, if they are all texts.
fn collect_path(parts: &Vec<Bencodable>) -> (res: Option<Vec<String>>)
    ensures
        match all_texts(values(parts@)) {
            Some(path) => res matches Some(p) && views(p@) == path,
            None => res is None,
        },
{
    let ghost all = values(parts@);
    let mut path: Vec<String> = Vec::new();
    let mut i: usize = 0;
    assert(all.take(0) =~= Seq::empty());
    assert(views(path@) =~= Seq::empty());
    while i < parts.len()
        invariant
            i <= parts@.len(),
            all == values(parts@),
            all_texts(all.take(i as int)) == Some(views(path@)),
        decreases parts.len() - i,
    {
        let ghost before = path@;
        assert(all.take(i + 1).drop_last() =~= all.take(i as int));
        assert(all.take(i + 1).last() == parts@[i as int].value());
        match parts[i].as_str() {
            Some(part) => {
                path.push(part);
                assert(views(path@) =~= views(before).push(part@));
            },
            None => {
                proof {
                    bad_text_stops(all, i + 1);
                }
                return None;
            },
        }
        i += 1;
    }
    assert(all.take(i as int) =~= all);
    Some(path)
}

/// Values are not all texts if the first ones are not.
proof fn bad_text_stops(items: Seq<Value>, k: int)
    requires
        0 <= k <= items.len(),
        all_texts(items.take(k)) is None,
    ensures
        all_texts(items) is None,
    decreases items.len(),
{
    if k == items.len() {
        assert(items.take(k) =~= items);
    } else {
        assert(items.drop_last().take(k) =~= items.take(k));
        bad_text_stops(items.drop_last(), k);
    }
}

/// One file of a torrent.
fn read_file(v: &Bencodable) -> (res: Result<TorrentFile, MetaError>)
    ensures
        match file_of(v.value()) {
            Ok(f) => res matches Ok(file) && file@ == f,
            Err(c) => res matches Err(e) && e.complaint() == c,
        },
{
    let length: u64 = match int_field(v, "length") {
        Some(n) => n as u64,
        None => return Err(MetaError::MissingField("files.length")),
    };
    let parts: &Vec<Bencodable> = match list_field(v, "path") {
        Some(list) => list,
        None => return Err(MetaError::MissingField("files.path")),
    };
    match collect_path(parts) {
        Some(path) => Ok(TorrentFile { length, path }),
        None => Err(MetaError::MissingField("files.path")),
    }
}

/// The files of a torrent.
fn read_files(items: &Vec<Bencodable>) -> (res: Result<Vec<TorrentFile>, MetaError>)
    ensures
        match files_of(values(items@)) {
            Ok(fs) => res matches Ok(files) && file_views(files@) == fs,
            Err(c) => res matches Err(e) && e.complaint() == c,
        },
{
    let ghost all = values(items@);
    let mut out: Vec<TorrentFile> = Vec::new();
    let mut i: usize = 0;
    assert(all.take(0) =~= Seq::empty());
    assert(file_views(out@) =~= Seq::empty());
    while i < items.len()
        invariant
            i <= items@.len(),
            all == values(items@),
            files_of(all.take(i as int)) == Ok::<Seq<FileFacts>, Complaint>(file_views(out@)),
        decreases items.len() - i,
    {
        let ghost before = out@;
        assert(all.take(i + 1).drop_last() =~= all.take(i as int));
        assert(all.take(i + 1).last() == items@[i as int].value());
        match read_file(&items[i]) {
            Ok(file) => {
                out.push(file);
                assert(file_views(out@) =~= file_views(before).push(file@));
            },
            Err(e) => {
                proof {
                    bad_file_stops(all, i + 1);
                }
                return Err(e);
            },
        }
        i += 1;
    }
    assert(all.take(i as int) =~= all);
    Ok(out)
}

/// What is wrong with the first files is wrong with all of them.
proof fn bad_file_stops(items: Seq<Value>, k: int)
    requires
        0 <= k <= items.len(),
        files_of(items.take(k)) is Err,
    ensures
        files_of(items) == files_of(items.take(k)),
    decreases items.len(),
{
    if k == items.len() {
        assert(items.take(k) =~= items);
    } else {
        assert(items.drop_last().take(k) =~= items.take(k));
        bad_file_stops(items.drop_last(), k);
    }
}

/// Bytes in groups of twenty.
fn split_digests(bytes: &[u8]) -> (res: Vec<[u8; 20]>)
    ensures
        digest_views(res@) == twenties(bytes@),
{
    let n: usize = bytes.len() / 20;
    let mut res: Vec<[u8; 20]> = Vec::new();
    let mut i: usize = 0;
    while i < n
        invariant
            i <= n,
            n == bytes@.len() / 20,
            bytes.len() == bytes@.len(),
            res@.len() == i,
            forall|k: int| 0 <= k < i ==> (#[trigger] res@[k])@ == bytes@.subrange(20 * k, 20 * k + 20),
        decreases n - i,
    {
        let digest: [u8; 20] = copy_twenty(bytes, 20 * i);
        res.push(digest);
        i += 1;
    }
    assert(digest_views(res@) =~= twenties(bytes@));
    res
}

/// The files or the one file of a torrent.
fn read_layout(info: &Bencodable) -> (res: Result<Layout, MetaError>)
    ensures
        match layout_of(info.value()) {
            Ok(l) => res matches Ok(layout) && layout@ == l,
            Err(c) => res matches Err(e) && e.complaint() == c,
        },
{
    match list_field(info, "files") {
        Some(items) => match read_files(items) {
            Ok(files) => Ok(Layout::Multi { files }),
            Err(e) => Err(e),
        },
        None => match int_field(info, "length") {
            Some(n) => Ok(Layout::Single { length: n as u64 }),
            None => Err(MetaError::MissingField("length")),
        },
    }
}

impl Info {
    /// The contents of an `info` dictionary.
    pub fn from_bencodable(info: &Bencodable) -> (res: Result<Info, MetaError>)
        ensures
            match info_of(info.value()) {
                Ok(facts) => res matches Ok(i) && i@ == facts,
                Err(c) => res matches Err(e) && e.complaint() == c,
            },
    {
        let name: String = match text_field(info, "name") {
            Some(name) => name,
            None => return Err(MetaError::MissingField("name")),
        };
        let piece_length: u64 = match int_field(info, "piece length") {
            Some(n) => n as u64,
            None => return Err(MetaError::MissingField("piece length")),
        };
        let pieces: &[u8] = match info.get("pieces") {
            Some(v) => match v.as_bytes() {
                Some(bytes) => bytes,
                None => return Err(MetaError::MissingField("pieces")),
            },
            None => return Err(MetaError::MissingField("pieces")),
        };
        if pieces.len() % 20 != 0 {
            return Err(MetaError::BadPieces);
        }
        let piece_hashes: Vec<[u8; 20]> = split_digests(pieces);
        match read_layout(info) {
            Ok(layout) => Ok(Info { name, piece_length, piece_hashes, layout }),
            Err(e) => Err(e),
        }
    }
}

/// The lengths of files put together, if that fits.
fn add_lengths(files: &Vec<TorrentFile>) -> (res: Option<u64>)
    ensures
        match res {
            Some(n) => n == sum_lengths(file_views(files@)),
            None => sum_lengths(file_views(files@)) > u64::MAX,
        },
{
    let ghost all = file_views(files@);
    let mut sum: u64 = 0;
    let mut i: usize = 0;
    assert(all.take(0) =~= Seq::empty());
    while i < files.len()
        invariant
            i <= files@.len(),
            all == file_views(files@),
            sum == sum_lengths(all.take(i as int)),
        decreases files.len() - i,
    {
        assert(all.take(i + 1).drop_last() =~= all.take(i as int));
        assert(all.take(i + 1).last() == files@[i as int]@);
        let length: u64 = files[i].length;
        if length > u64::MAX - sum {
            proof {
                lengths_grow(all, i + 1);
            }
            return None;
        }
        sum += length;
        i += 1;
    }
    assert(all.take(i as int) =~= all);
    Some(sum)
}

/// More files are not shorter.
pub proof fn lengths_grow(files: Seq<FileFacts>, k: int)
    requires
        0 <= k <= files.len(),
    ensures
        0 <= sum_lengths(files.take(k)) <= sum_lengths(files),
    decreases files.len(),
{
    if k == files.len() {
        assert(files.take(k) =~= files);
        if k > 0 {
            lengths_grow(files.drop_last(), k - 1);
        }
    } else {
        assert(files.drop_last().take(k) =~= files.take(k));
        lengths_grow(files.drop_last(), k);
    }
}

impl MetaInfo {
    /// What a decoded torrent says, given the digest of its `info` bytes, if its length fits.
    pub fn from_root(root: &Bencodable, info_hash: [u8; 20]) -> (res: Option<
        Result<MetaInfo, MetaError>,
    >)
        ensures
            match meta_of(root.value(), info_hash@) {
                Err(c) => res matches Some(Err(e)) && e.complaint() == c,
                Ok(facts) => if facts.total_length > u64::MAX {
                    res is None
                } else {
                    res matches Some(Ok(meta)) && meta@ == facts
                },
            },
    {
        let announce: String = match text_field(root, "announce") {
            Some(url) => url,
            None => return Some(Err(MetaError::MissingField("announce"))),
        };
        let announce_list: Vec<Vec<String>> = collect_tiers(root);
        let info: Info = match root.get("info") {
            Some(v) => match Info::from_bencodable(v) {
                Ok(info) => info,
                Err(e) => return Some(Err(e)),
            },
            None => return Some(Err(MetaError::MissingField("info"))),
        };
        let total_length: u64 = match &info.layout {
            Layout::Single { length } => *length,
            Layout::Multi { files } => match add_lengths(files) {
                Some(sum) => sum,
                None => return None,
            },
        };
        let num_pieces: usize = info.piece_hashes.len();
        Some(Ok(MetaInfo { announce, announce_list, info, info_hash, total_length, num_pieces }))
    }

    /// Interprets a `.torrent` file. The digest that names the torrent is taken over the raw
    /// bytes of the `info` entry, since encoding the decoded entry again need not give the same
    /// bytes. There is no answer if an index or a sum does not fit, or if the file ends inside
    /// a value.
    pub fn try_parse(raw: Vec<u8>) -> (res: Option<Result<MetaInfo, MetaError>>)
        ensures
            match torrent_of(raw@) {
                None => res is None,
                Some(Err(c)) => res matches Some(Err(e)) && e.complaint() == c,
                Some(Ok(facts)) => res matches Some(Ok(meta)) && meta@ == facts,
            },
    {
        let span: Range<usize> = match span_core(raw.as_slice()) {
            None => return None,
            Some(None) => return Some(Err(MetaError::NoInfoDict)),
            Some(Some(span)) => span,
        };
        let info_hash: [u8; 20] = sha1(
            vstd::slice::slice_subrange(raw.as_slice(), span.start, span.end),
        );
        match Bencodable::try_decode(raw) {
            None => None,
            Some(Err(e)) => Some(Err(MetaError::from(e))),
            Some(Ok(root)) => MetaInfo::from_root(&root, info_hash),
        }
    }

    /// Interprets a `.torrent` file.
    pub fn parse(raw: Vec<u8>) -> (res: Result<MetaInfo, MetaError>)
        requires
            torrent_of(raw@) is Some,
        ensures
            match torrent_of(raw@) {
                Some(Ok(facts)) => res matches Ok(meta) && meta@ == facts,
                Some(Err(c)) => res matches Err(e) && e.complaint() == c,
                None => false,
            },
    {
        match MetaInfo::try_parse(raw) {
            Some(res) => res,
            None => Err(MetaError::NoInfoDict),
        }
    }
}

} // verus!
