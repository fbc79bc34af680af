//! The contents of a `.torrent` file, as mathematics.

use vstd::prelude::*;

use crate::digest::sha1_digest;
use crate::grammar::{decode_bytes, digits_value, is_digit, Scan, Value};

verus! {

/// The first place from `i` on where `b` stands.
pub open spec fn find(raw: Seq<u8>, b: u8, i: int) -> Option<int>
    decreases raw.len() - i,
{
    if i < 0 || i >= raw.len() {
        None
    } else if raw[i] == b {
        Some(i)
    } else {
        find(raw, b, i + 1)
    }
}

/// The digits of a numeral, which may have a plus sign in front.
pub open spec fn numeral_digits(s: Seq<u8>) -> Seq<u8> {
    if s.len() > 0 && s[0] == 43 {
        s.drop_first()
    } else {
        s
    }
}

/// The length that a numeral denotes.
pub open spec fn numeral(s: Seq<u8>) -> Option<int> {
    let d = numeral_digits(s);
    if d.len() > 0 && (forall|i: int| 0 <= i < d.len() ==> is_digit(#[trigger] d[i]))
        && digits_value(d) <= usize::MAX {
        Some(digits_value(d) as int)
    } else {
        None
    }
}

/// The byte string at `i`. Its end may be beyond every index.
pub open spec fn string_at(raw: Seq<u8>, i: int) -> Scan<Seq<u8>> {
    match find(raw, 58, i) {
        None => Scan::Invalid(i),
        Some(colon) => match numeral(raw.subrange(i, colon)) {
            None => Scan::Invalid(i),
            Some(n) => if colon + 1 + n > usize::MAX {
                Scan::Overrun
            } else if colon + 1 + n > raw.len() {
                Scan::Invalid(i)
            } else {
                Scan::Read(raw.subrange(colon + 1, colon + 1 + n), colon + 1 + n)
            },
        },
    }
}

/// Past the value at `i`.
pub open spec fn skip(raw: Seq<u8>, i: int) -> Scan<()>
    decreases raw.len() - i, 0int,
{
    if i < 0 || i >= raw.len() {
        Scan::Invalid(i)
    } else if raw[i] == 105 {
        match find(raw, 101, i) {
            Some(e) => Scan::Read((), e + 1),
            None => Scan::Invalid(i),
        }
    } else if raw[i] == 108 || raw[i] == 100 {
        skip_to_end(raw, i + 1)
    } else if is_digit(raw[i]) {
        match string_at(raw, i) {
            Scan::Read(_, j) => Scan::Read((), j),
            Scan::Invalid(j) => Scan::Invalid(j),
            Scan::Overrun => Scan::Overrun,
        }
    } else {
        Scan::Invalid(i)
    }
}

/// Past the values from `i` on and the `e` behind them.
pub open spec fn skip_to_end(raw: Seq<u8>, i: int) -> Scan<()>
    decreases raw.len() - i, 1int,
{
    if i < 0 || i >= raw.len() {
        Scan::Invalid(i)
    } else if raw[i] == 101 {
        Scan::Read((), i + 1)
    } else {
        match skip(raw, i) {
            Scan::Read(_, j) => if i < j <= raw.len() {
                skip_to_end(raw, j)
            } else {
                Scan::Overrun
            },
            Scan::Invalid(j) => Scan::Invalid(j),
            Scan::Overrun => Scan::Overrun,
        }
    }
}

/// The key `info`.
pub open spec fn info_key() -> Seq<u8> {
    seq![105u8, 110, 102, 111]
}

/// Where the value of the first entry named `info` starts and ends, among the entries from
/// `i` on.
pub open spec fn span_from(raw: Seq<u8>, i: int) -> Scan<(int, int)>
    decreases raw.len() - i,
{
    if i < 0 || i >= raw.len() || raw[i] == 101 {
        Scan::Invalid(i)
    } else {
        match string_at(raw, i) {
            Scan::Read(key, j) => match skip(raw, j) {
                Scan::Read(_, k) => if key == info_key() {
                    Scan::Read((j, k), k)
                } else if i < k <= raw.len() {
                    span_from(raw, k)
                } else {
                    Scan::Overrun
                },
                Scan::Invalid(k) => Scan::Invalid(k),
                Scan::Overrun => Scan::Overrun,
            },
            Scan::Invalid(j) => Scan::Invalid(j),
            Scan::Overrun => Scan::Overrun,
        }
    }
}

/// Where the value of `info` starts and ends in the bytes of a dictionary.
pub open spec fn info_span(raw: Seq<u8>) -> Scan<(int, int)> {
    if raw.len() == 0 || raw[0] != 100 {
        Scan::Invalid(0)
    } else {
        span_from(raw, 1)
    }
}

/// What is wrong with a `.torrent` file.
pub enum Complaint {
    Bencode,
    Missing(Seq<char>),
    NoInfoDict,
    BadPieces,
}

/// A file: its length and the parts of its path.
#[verifier::ext_equal]
pub struct FileFacts {
    pub length: u64,
    pub path: Seq<Seq<char>>,
}

#[verifier::ext_equal]
pub enum LayoutFacts {
    Single(u64),
    Multi(Seq<FileFacts>),
}

#[verifier::ext_equal]
pub struct InfoFacts {
    pub name: Seq<char>,
    pub piece_length: u64,
    pub hashes: Seq<Seq<u8>>,
    pub layout: LayoutFacts,
}

#[verifier::ext_equal]
pub struct MetaFacts {
    pub announce: Seq<char>,
    pub announce_list: Seq<Seq<Seq<char>>>,
    pub info: InfoFacts,
    pub info_hash: Seq<u8>,
    pub total_length: int,
    pub num_pieces: int,
}

/// The text at `key`.
pub open spec fn text_at(v: Value, key: Seq<char>) -> Option<Seq<char>> {
    match v.get(key) {
        Some(w) => w.text(),
        None => None,
    }
}

/// The number at `key`.
pub open spec fn number_at(v: Value, key: Seq<char>) -> Option<i64> {
    match v.get(key) {
        Some(w) => w.number(),
        None => None,
    }
}

/// The bytes at `key`.
pub open spec fn bytes_at(v: Value, key: Seq<char>) -> Option<Seq<u8>> {
    match v.get(key) {
        Some(w) => w.bytes(),
        None => None,
    }
}

/// The list at `key`.
pub open spec fn list_at(v: Value, key: Seq<char>) -> Option<Seq<Value>> {
    match v.get(key) {
        Some(w) => w.list(),
        None => None,
    }
}

/// The texts among values.
pub open spec fn texts(items: Seq<Value>) -> Seq<Seq<char>>
    decreases items.len(),
{
    if items.len() == 0 {
        Seq::empty()
    } else {
        match items.last().text() {
            Some(t) => texts(items.drop_last()).push(t),
            None => texts(items.drop_last()),
        }
    }
}

/// The texts of the lists among values, list by list.
pub open spec fn text_lists(items: Seq<Value>) -> Seq<Seq<Seq<char>>>
    decreases items.len(),
{
    if items.len() == 0 {
        Seq::empty()
    } else {
        match items.last().list() {
            Some(list) => text_lists(items.drop_last()).push(texts(list)),
            None => text_lists(items.drop_last()),
        }
    }
}

/// The tracker tiers of a torrent.
pub open spec fn tiers_of(root: Value) -> Seq<Seq<Seq<char>>> {
    match list_at(root, "announce-list"@) {
        Some(items) => text_lists(items),
        None => Seq::empty(),
    }
}

/// Values that are all texts.
pub open spec fn all_texts(items: Seq<Value>) -> Option<Seq<Seq<char>>>
    decreases items.len(),
{
    if items.len() == 0 {
        Some(Seq::empty())
    } else {
        match all_texts(items.drop_last()) {
            Some(first) => match items.last().text() {
                Some(t) => Some(first.push(t)),
                None => None,
            },
            None => None,
        }
    }
}

/// One file of a torrent.
pub open spec fn file_of(v: Value) -> Result<FileFacts, Complaint> {
    match number_at(v, "length"@) {
        None => Err(Complaint::Missing("files.length"@)),
        Some(length) => match list_at(v, "path"@) {
            None => Err(Complaint::Missing("files.path"@)),
            Some(parts) => match all_texts(parts) {
                None => Err(Complaint::Missing("files.path"@)),
                Some(path) => Ok(FileFacts { length: length as u64, path }),
            },
        },
    }
}

/// The files of a torrent, or what is wrong with the first bad one.
pub open spec fn files_of(items: Seq<Value>) -> Result<Seq<FileFacts>, Complaint>
    decreases items.len(),
{
    if items.len() == 0 {
        Ok(Seq::empty())
    } else {
        match files_of(items.drop_last()) {
            Err(c) => Err(c),
            Ok(first) => match file_of(items.last()) {
                Err(c) => Err(c),
                Ok(file) => Ok(first.push(file)),
            },
        }
    }
}

/// The files or the one file of a torrent.
pub open spec fn layout_of(info: Value) -> Result<LayoutFacts, Complaint> {
    match list_at(info, "files"@) {
        Some(items) => match files_of(items) {
            Ok(files) => Ok(LayoutFacts::Multi(files)),
            Err(c) => Err(c),
        },
        None => match number_at(info, "length"@) {
            Some(length) => Ok(LayoutFacts::Single(length as u64)),
            None => Err(Complaint::Missing("length"@)),
        },
    }
}

/// Bytes in groups of twenty.
pub open spec fn twenties(bytes: Seq<u8>) -> Seq<Seq<u8>> {
    Seq::new(bytes.len() / 20, |i: int| bytes.subrange(20 * i, 20 * i + 20))
}

/// The contents of an `info` dictionary.
pub open spec fn info_of(info: Value) -> Result<InfoFacts, Complaint> {
    match text_at(info, "name"@) {
        None => Err(Complaint::Missing("name"@)),
        Some(name) => match number_at(info, "piece length"@) {
            None => Err(Complaint::Missing("piece length"@)),
            Some(piece_length) => match bytes_at(info, "pieces"@) {
                None => Err(Complaint::Missing("pieces"@)),
                Some(pieces) => if pieces.len() % 20 != 0 {
                    Err(Complaint::BadPieces)
                } else {
                    match layout_of(info) {
                        Err(c) => Err(c),
                        Ok(layout) => Ok(
                            InfoFacts {
                                name,
                                piece_length: piece_length as u64,
                                hashes: twenties(pieces),
                                layout,
                            },
                        ),
                    }
                },
            },
        },
    }
}

/// The lengths of files put together.
pub open spec fn sum_lengths(files: Seq<FileFacts>) -> int
    decreases files.len(),
{
    if files.len() == 0 {
        0
    } else {
        sum_lengths(files.drop_last()) + files.last().length
    }
}

/// The length of a torrent.
pub open spec fn total_of(layout: LayoutFacts) -> int {
    match layout {
        LayoutFacts::Single(length) => length as int,
        LayoutFacts::Multi(files) => sum_lengths(files),
    }
}

/// What a decoded torrent says, given the digest of its `info` bytes.
pub open spec fn meta_of(root: Value, info_hash: Seq<u8>) -> Result<MetaFacts, Complaint> {
    match text_at(root, "announce"@) {
        None => Err(Complaint::Missing("announce"@)),
        Some(announce) => match root.get("info"@) {
            None => Err(Complaint::Missing("info"@)),
            Some(info) => match info_of(info) {
                Err(c) => Err(c),
                Ok(facts) => Ok(
                    MetaFacts {
                        announce,
                        announce_list: tiers_of(root),
                        info: facts,
                        info_hash,
                        total_length: total_of(facts.layout),
                        num_pieces: facts.hashes.len() as int,
                    },
                ),
            },
        },
    }
}

/// What a `.torrent` file says. There is no answer if an index or a sum does not fit, or if
/// the file ends inside a value.
pub open spec fn torrent_of(raw: Seq<u8>) -> Option<Result<MetaFacts, Complaint>> {
    match info_span(raw) {
        Scan::Overrun => None,
        Scan::Invalid(_) => Some(Err(Complaint::NoInfoDict)),
        Scan::Read((from, to), _) => match decode_bytes(raw) {
            Scan::Overrun => None,
            Scan::Invalid(_) => Some(Err(Complaint::Bencode)),
            Scan::Read(root, _) => match meta_of(root, sha1_digest(raw.subrange(from, to))) {
                Err(c) => Some(Err(c)),
                Ok(meta) => if meta.total_length > u64::MAX {
                    None
                } else {
                    Some(Ok(meta))
                },
            },
        },
    }
}

/// A byte that is found lies where it was looked for, and no earlier place holds it.
pub proof fn find_bounds(raw: Seq<u8>, b: u8, i: int)
    requires
        0 <= i,
    ensures
        find(raw, b, i) matches Some(p) ==> i <= p < raw.len() && raw[p] == b,
    decreases raw.len() - i,
{
    if i < raw.len() && raw[i] != b {
        find_bounds(raw, b, i + 1);
    }
}

/// A byte string takes up at least its colon and ends inside the input.
pub proof fn string_advances(raw: Seq<u8>, i: int)
    requires
        0 <= i,
    ensures
        string_at(raw, i) matches Scan::Read(_, j) ==> i < j <= raw.len(),
{
    find_bounds(raw, 58, i);
}

/// Skipping goes forward and stays inside the input.
pub proof fn skip_advances(raw: Seq<u8>, i: int)
    requires
        0 <= i,
    ensures
        skip(raw, i) matches Scan::Read(_, j) ==> i < j <= raw.len(),
        skip(raw, i) matches Scan::Invalid(j) ==> i <= j && (i <= raw.len() ==> j <= raw.len()),
    decreases raw.len() - i, 0int,
{
    if i < raw.len() {
        find_bounds(raw, 101, i);
        string_advances(raw, i);
        if raw[i] == 108 || raw[i] == 100 {
            skip_to_end_advances(raw, i + 1);
        }
    }
}

pub proof fn skip_to_end_advances(raw: Seq<u8>, i: int)
    requires
        0 <= i,
    ensures
        skip_to_end(raw, i) matches Scan::Read(_, j) ==> i < j <= raw.len(),
        skip_to_end(raw, i) matches Scan::Invalid(j) ==> i <= j && (i <= raw.len() ==> j
            <= raw.len()),
    decreases raw.len() - i, 1int,
{
    if i < raw.len() && raw[i] != 101 {
        skip_advances(raw, i);
        if let Scan::Read(_, j) = skip(raw, i) {
            skip_to_end_advances(raw, j);
        }
    }
}

} // verus!
