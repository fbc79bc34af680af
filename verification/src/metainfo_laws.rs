//! What a parsed torrent says, entry by entry of the file.

use vstd::prelude::*;
use vstd::utf8::{
    decode_utf8_encode_utf8, encode_utf8, encode_utf8_decode_utf8, encode_utf8_valid_utf8,
};

use crate::digest::sha1_digest;
use crate::grammar::{decode_bytes, dict_get, is_digit, Scan, Value};
use crate::grammar_laws::{number_in, value_of_digits};
use crate::metainfo::{file_views, views, Info, Layout, MetaInfo, TorrentFile};
use crate::roundtrip::{bencode, canonical, countable, decoding_inverts_bencoding};
use crate::torrent::{
    all_texts, bytes_at, file_of, files_of, find_bounds, info_key, info_of, info_span, layout_of,
    list_at, meta_of, number_at, numeral, skip, skip_advances, skip_to_end, span_from,
    string_advances, string_at, sum_lengths, text_at, text_lists, texts, torrent_of, Complaint, FileFacts, InfoFacts, LayoutFacts, MetaFacts,
};
use crate::torrent_laws::span_is_info;

verus! {

/// Whether a value is a dictionary in which `w` stands at `key`: in the first entry of that name.
pub open spec fn stands_under(v: Value, key: Seq<char>, w: Value) -> bool {
    &&& v is Dict
    &&& exists|k: int|
        0 <= k < v->Dict_0.len() && #[trigger] v->Dict_0[k] == (key, w) && forall|j: int|
            0 <= j < k ==> (#[trigger] v->Dict_0[j]).0 != key
}

/// Whether a value is a byte string that is the UTF-8 of a text.
pub open spec fn reads(v: Value, text: Seq<char>) -> bool {
    v == Value::Bytes(encode_utf8(text))
}

/// Whether a number of a file is the one that was read, which wraps if it is negative.
pub open spec fn counted(v: Value, n: u64) -> bool {
    v matches Value::Number(m) && (0 <= m ==> n == m)
}

/// Whether a file is the one that a dictionary describes: its length stands under `length`, and
/// the parts of its path, in order, under `path`.
pub open spec fn describes_file(v: Value, f: TorrentFile) -> bool {
    &&& exists|w: Value| #[trigger] stands_under(v, "length"@, w) && counted(w, f.length)
    &&& exists|w: Value| #[trigger]
        stands_under(v, "path"@, w) && w is List && w->List_0.len() == f.path@.len()
            && forall|j: int| 0 <= j < f.path@.len() ==> reads(w->List_0[j], (#[trigger] f.path@[j])@)
}

/// Whether digests are those of a byte string: digest `i` is its bytes from `20 * i` on, as they
/// stand.
pub open spec fn digests_are(v: Value, digests: Seq<[u8; 20]>) -> bool {
    &&& v is Bytes
    &&& v->Bytes_0.len() == 20 * digests.len()
    &&& forall|i: int, j: int|
        0 <= i < digests.len() && 0 <= j < 20 ==> #[trigger] digests[i]@[j] == v->Bytes_0[20 * i + j]
}

/// Whether a layout is the one that an `info` dictionary describes: the files under `files`, in
/// order, or if there is no list, one file with the length under `length`.
pub open spec fn describes_layout(v: Value, layout: Layout) -> bool {
    match layout {
        Layout::Single { length } => {
            &&& exists|w: Value| #[trigger] stands_under(v, "length"@, w) && counted(w, length)
            &&& forall|w: Value| #[trigger] stands_under(v, "files"@, w) ==> !(w is List)
        },
        Layout::Multi { files } => exists|w: Value| #[trigger]
            stands_under(v, "files"@, w) && w is List && w->List_0.len() == files@.len()
                && forall|k: int|
                0 <= k < files@.len() ==> describes_file(w->List_0[k], #[trigger] files@[k]),
    }
}

/// Whether the contents are those of an `info` dictionary.
pub open spec fn describes_info(v: Value, info: Info) -> bool {
    &&& exists|w: Value| #[trigger] stands_under(v, "name"@, w) && reads(w, info.name@)
    &&& exists|w: Value| #[trigger]
        stands_under(v, "piece length"@, w) && counted(w, info.piece_length)
    &&& exists|w: Value| #[trigger]
        stands_under(v, "pieces"@, w) && digests_are(w, info.piece_hashes@)
    &&& describes_layout(v, info.layout)
}

/// A torrent that is parsed says what stands in its file: the tracker under `announce`, and under
/// `info` the name, the length of pieces, the digests, which put one after another are the bytes
/// under `pieces`, and the files. There are as many pieces as digests, and the length of the
/// torrent is that of its files.
pub proof fn torrents_say_what_stands_in_them(raw: Seq<u8>, root: Value, m: MetaInfo)
    requires
        decode_bytes(raw) matches Scan::Read(v, _) && v == root,
        torrent_of(raw) == Some(Ok::<MetaFacts, Complaint>(m@)),
    ensures
        exists|w: Value| #[trigger] stands_under(root, "announce"@, w) && reads(w, m.announce@),
        exists|w: Value| #[trigger] stands_under(root, "info"@, w) && describes_info(w, m.info),
        m.num_pieces == m.info.piece_hashes@.len(),
        m.info.layout matches Layout::Single { length } ==> m.total_length == length,
        m.info.layout matches Layout::Multi { files } ==> m.total_length == sum_of(files@),
{
    let facts = m@;
    got_under(root, "announce"@);
    got_under(root, "info"@);
    let wa = root.get("announce"@)->0;
    text_is_read(wa, m.announce@);
    assert(stands_under(root, "announce"@, wa) && reads(wa, m.announce@));
    let info = root.get("info"@)->0;
    info_is_described(info, m.info);
    assert(stands_under(root, "info"@, info) && describes_info(info, m.info));
    assert(facts.info.hashes.len() == m.info.piece_hashes@.len());
    if let Layout::Multi { files } = m.info.layout {
        sums_agree(files@);
    }
}

/// The lengths of files put together.
pub open spec fn sum_of(files: Seq<TorrentFile>) -> int
    decreases files.len(),
{
    if files.len() == 0 {
        0
    } else {
        files[0].length + sum_of(files.drop_first())
    }
}

proof fn sums_agree(files: Seq<TorrentFile>)
    ensures
        sum_lengths(file_views(files)) == sum_of(files),
    decreases files.len(),
{
    let facts = file_views(files);
    if files.len() > 0 {
        sums_agree(files.drop_first());
        assert(file_views(files.drop_first()) =~= facts.drop_first());
        sum_from_front(facts);
    }
}

proof fn sum_from_front(files: Seq<FileFacts>)
    requires
        files.len() > 0,
    ensures
        sum_lengths(files) == files[0].length + sum_lengths(files.drop_first()),
    decreases files.len(),
{
    if files.len() == 1 {
        assert(files.drop_last() =~= Seq::empty());
        assert(files.drop_first() =~= Seq::empty());
    } else {
        sum_from_front(files.drop_last());
        assert(files.drop_last().drop_first() =~= files.drop_first().drop_last());
    }
}

/// What is found in a dictionary stands in it, and what stands in it is found.
pub proof fn got_under(v: Value, key: Seq<char>)
    ensures
        v.get(key) matches Some(w) ==> stands_under(v, key, w),
        v.get(key) is None ==> forall|w: Value| !#[trigger] stands_under(v, key, w),
        forall|w: Value| #[trigger] stands_under(v, key, w) ==> v.get(key) == Some(w),
{
    if let Value::Dict(d) = v {
        first_entry(d, key);
        if let Some(w) = v.get(key) {
            let k = choose|k: int|
                0 <= k < d.len() && #[trigger] d[k] == (key, w) && forall|j: int|
                    0 <= j < k ==> (#[trigger] d[j]).0 != key;
            assert(v->Dict_0[k] == (key, w));
        }
        assert forall|w: Value| #[trigger] stands_under(v, key, w) implies v.get(key) == Some(w) by {
            let k = choose|k: int|
                0 <= k < v->Dict_0.len() && #[trigger] v->Dict_0[k] == (key, w) && forall|j: int|
                    0 <= j < k ==> (#[trigger] v->Dict_0[j]).0 != key;
            assert(d[k] == (key, w));
            if v.get(key) is None {
                assert(d[k].0 != key);
            } else {
                let x = v.get(key)->0;
                let i = choose|i: int|
                    0 <= i < d.len() && #[trigger] d[i] == (key, x) && forall|j: int|
                        0 <= j < i ==> (#[trigger] d[j]).0 != key;
                if i < k {
                    assert(v->Dict_0[i].0 != key);
                } else if k < i {
                    assert(d[k].0 != key);
                }
            }
        }
    }
}

proof fn first_entry(d: Seq<(Seq<char>, Value)>, key: Seq<char>)
    ensures
        match dict_get(d, key) {
            Some(w) => exists|k: int|
                0 <= k < d.len() && #[trigger] d[k] == (key, w) && forall|j: int|
                    0 <= j < k ==> (#[trigger] d[j]).0 != key,
            None => forall|j: int| 0 <= j < d.len() ==> (#[trigger] d[j]).0 != key,
        },
    decreases d.len(),
{
    if d.len() > 0 {
        if d[0].0 == key {
            assert(d[0] == (key, d[0].1));
        } else {
            let rest = d.drop_first();
            first_entry(rest, key);
            if let Some(w) = dict_get(rest, key) {
                let k = choose|k: int|
                    0 <= k < rest.len() && #[trigger] rest[k] == (key, w) && forall|j: int|
                        0 <= j < k ==> (#[trigger] rest[j]).0 != key;
                assert(d[k + 1] == (key, w));
                assert forall|j: int| 0 <= j < k + 1 implies (#[trigger] d[j]).0 != key by {
                    if j > 0 {
                        assert(rest[j - 1] == d[j]);
                    }
                }
            } else {
                assert forall|j: int| 0 <= j < d.len() implies (#[trigger] d[j]).0 != key by {
                    if j > 0 {
                        assert(rest[j - 1] == d[j]);
                    }
                }
            }
        }
    }
}

/// A text that is found is the one whose UTF-8 stands there.
pub proof fn text_is_read(v: Value, text: Seq<char>)
    requires
        v.text() == Some(text),
    ensures
        reads(v, text),
{
    if let Value::Bytes(b) = v {
        decode_utf8_encode_utf8(b);
    }
}

proof fn info_is_described(v: Value, info: Info)
    requires
        info_of(v) == Ok::<InfoFacts, Complaint>(info@),
    ensures
        describes_info(v, info),
{
    got_under(v, "name"@);
    got_under(v, "piece length"@);
    got_under(v, "pieces"@);
    let wn = v.get("name"@)->0;
    text_is_read(wn, info.name@);
    assert(stands_under(v, "name"@, wn) && reads(wn, info.name@));
    let wl = v.get("piece length"@)->0;
    assert(stands_under(v, "piece length"@, wl) && counted(wl, info.piece_length));
    let wp = v.get("pieces"@)->0;
    let bytes = wp->Bytes_0;
    let digests = info.piece_hashes@;
    assert(info@.hashes.len() == digests.len());
    assert forall|i: int, j: int| 0 <= i < digests.len() && 0 <= j < 20 implies #[trigger] digests[i]@[j]
        == bytes[20 * i + j] by {
        assert(info@.hashes[i] == digests[i]@);
        assert(info@.hashes[i][j] == bytes.subrange(20 * i, 20 * i + 20)[j]);
    }
    assert(stands_under(v, "pieces"@, wp) && digests_are(wp, digests));
    layout_is_described(v, info.layout);
}

proof fn layout_is_described(v: Value, layout: Layout)
    requires
        layout_of(v) == Ok::<LayoutFacts, Complaint>(layout@),
    ensures
        describes_layout(v, layout),
{
    got_under(v, "files"@);
    got_under(v, "length"@);
    match layout {
        Layout::Single { length } => {
            let w = v.get("length"@)->0;
            assert(stands_under(v, "length"@, w) && counted(w, length));
        },
        Layout::Multi { files } => {
            let w = v.get("files"@)->0;
            let items = w->List_0;
            let facts = file_views(files@);
            files_are_described(items, facts);
            assert forall|k: int| 0 <= k < files@.len() implies describes_file(
                w->List_0[k],
                #[trigger] files@[k],
            ) by {
                assert(facts[k] == files@[k]@);
                file_is_described(items[k], files@[k]);
            }
            assert(stands_under(v, "files"@, w));
        },
    }
}

proof fn files_are_described(items: Seq<Value>, facts: Seq<FileFacts>)
    requires
        files_of(items) == Ok::<Seq<FileFacts>, Complaint>(facts),
    ensures
        facts.len() == items.len(),
        forall|k: int|
            0 <= k < items.len() ==> file_of(#[trigger] items[k]) == Ok::<FileFacts, Complaint>(
                facts[k],
            ),
    decreases items.len(),
{
    if items.len() > 0 {
        let first = items.drop_last();
        let before = files_of(first)->Ok_0;
        assert(facts.drop_last() =~= before);
        files_are_described(first, before);
        assert forall|k: int| 0 <= k < items.len() implies file_of(#[trigger] items[k]) == Ok::<
            FileFacts,
            Complaint,
        >(facts[k]) by {
            if k < first.len() {
                assert(first[k] == items[k]);
                assert(facts.drop_last()[k] == facts[k]);
            }
        }
    }
}

proof fn file_is_described(v: Value, f: TorrentFile)
    requires
        file_of(v) == Ok::<FileFacts, Complaint>(f@),
    ensures
        describes_file(v, f),
{
    got_under(v, "length"@);
    got_under(v, "path"@);
    let wl = v.get("length"@)->0;
    assert(stands_under(v, "length"@, wl) && counted(wl, f.length));
    let wp = v.get("path"@)->0;
    let parts = wp->List_0;
    let path = views(f.path@);
    parts_are_read(parts, path);
    assert forall|j: int| 0 <= j < f.path@.len() implies reads(parts[j], (#[trigger] f.path@[j])@) by {
        assert(path[j] == f.path@[j]@);
        assert(reads(parts[j], path[j]));
    }
    assert(stands_under(v, "path"@, wp));
}

proof fn parts_are_read(parts: Seq<Value>, path: Seq<Seq<char>>)
    requires
        all_texts(parts) == Some(path),
    ensures
        path.len() == parts.len(),
        forall|j: int| 0 <= j < parts.len() ==> reads(#[trigger] parts[j], path[j]),
    decreases parts.len(),
{
    if parts.len() > 0 {
        let first = parts.drop_last();
        let before = all_texts(first)->0;
        assert(path.drop_last() =~= before);
        parts_are_read(first, before);
        text_is_read(parts.last(), path.last());
        assert forall|j: int| 0 <= j < parts.len() implies reads(#[trigger] parts[j], path[j]) by {
            if j < first.len() {
                assert(first[j] == parts[j]);
                assert(path.drop_last()[j] == path[j]);
            }
        }
    }
}

/// Whether no text stands under a key.
pub open spec fn lacks_text(v: Value, key: Seq<char>) -> bool {
    forall|w: Value, t: Seq<char>| !(#[trigger] stands_under(v, key, w) && #[trigger] reads(w, t))
}

/// Whether no number stands under a key.
pub open spec fn lacks_number(v: Value, key: Seq<char>) -> bool {
    forall|w: Value| #[trigger] stands_under(v, key, w) ==> !(w is Number)
}

/// Whether no list stands under a key.
pub open spec fn lacks_list(v: Value, key: Seq<char>) -> bool {
    forall|w: Value| #[trigger] stands_under(v, key, w) ==> !(w is List)
}

/// A torrent is refused for the first of these that it lacks, by name, and for nothing else: a
/// text under `announce`, something under `info`, and in it a text under `name`, a number under
/// `piece length`, bytes under `pieces`, as many as whole digests have, and its files.
pub proof fn torrents_are_refused_for_what_they_lack(root: Value, info_hash: Seq<u8>)
    ensures
        match meta_of(root, info_hash) {
            Ok(_) => {
                &&& !lacks_text(root, "announce"@)
                &&& exists|w: Value| #[trigger]
                    stands_under(root, "info"@, w) && !lacks_text(w, "name"@) && !lacks_number(
                        w,
                        "piece length"@,
                    )
            },
            Err(c) => if lacks_text(root, "announce"@) {
                c == Complaint::Missing("announce"@)
            } else if forall|w: Value| !#[trigger] stands_under(root, "info"@, w) {
                c == Complaint::Missing("info"@)
            } else {
                exists|w: Value| #[trigger] stands_under(root, "info"@, w) && refused_info(w, c)
            },
        },
{
    found_or_lacking(root, "announce"@);
    got_under(root, "info"@);
    if let Some(info) = root.get("info"@) {
        info_is_refused(info);
        assert(stands_under(root, "info"@, info));
        found_or_lacking(info, "name"@);
        found_or_lacking(info, "piece length"@);
    }
}

/// Whether an `info` dictionary lacks what a complaint says.
pub open spec fn refused_info(v: Value, c: Complaint) -> bool {
    if lacks_text(v, "name"@) {
        c == Complaint::Missing("name"@)
    } else if lacks_number(v, "piece length"@) {
        c == Complaint::Missing("piece length"@)
    } else if forall|w: Value| #[trigger] stands_under(v, "pieces"@, w) ==> !(w is Bytes) {
        c == Complaint::Missing("pieces"@)
    } else if exists|w: Value| #[trigger]
        stands_under(v, "pieces"@, w) && w is Bytes && w->Bytes_0.len() % 20 != 0 {
        c == Complaint::BadPieces
    } else if lacks_list(v, "files"@) {
        lacks_number(v, "length"@) && c == Complaint::Missing("length"@)
    } else {
        exists|w: Value, k: int| #[trigger]
            stands_under(v, "files"@, w) && w is List && 0 <= k < w->List_0.len() && refused_file(
                #[trigger] w->List_0[k],
                c,
            )
    }
}

/// Whether the description of a file lacks what a complaint says.
pub open spec fn refused_file(v: Value, c: Complaint) -> bool {
    if lacks_number(v, "length"@) {
        c == Complaint::Missing("files.length"@)
    } else {
        &&& c == Complaint::Missing("files.path"@)
        &&& lacks_list(v, "path"@) || exists|w: Value, j: int| #[trigger]
            stands_under(v, "path"@, w) && w is List && 0 <= j < w->List_0.len() && textless(
                #[trigger] w->List_0[j],
            )
    }
}

/// Whether a value is no text.
pub open spec fn textless(v: Value) -> bool {
    forall|t: Seq<char>| !#[trigger] reads(v, t)
}

/// What is found under a key is what stands there.
proof fn found_or_lacking(v: Value, key: Seq<char>)
    ensures
        text_at(v, key) is None <==> lacks_text(v, key),
        number_at(v, key) is None <==> lacks_number(v, key),
        list_at(v, key) is None <==> lacks_list(v, key),
        bytes_at(v, key) is None <==> forall|w: Value| #[trigger]
            stands_under(v, key, w) ==> !(w is Bytes),
{
    got_under(v, key);
    if let Some(w) = v.get(key) {
        assert(stands_under(v, key, w));
        if let Some(t) = w.text() {
            text_is_read(w, t);
            assert(stands_under(v, key, w) && reads(w, t));
        }
    }
    if text_at(v, key) is None {
        assert forall|w: Value, t: Seq<char>| !(#[trigger] stands_under(v, key, w)
            && #[trigger] reads(w, t)) by {
            encode_utf8_valid_utf8(t);
        }
    }
}

proof fn info_is_refused(v: Value)
    ensures
        info_of(v) matches Err(c) ==> refused_info(v, c),
        info_of(v) is Ok ==> !lacks_text(v, "name"@) && !lacks_number(v, "piece length"@),
{
    found_or_lacking(v, "name"@);
    found_or_lacking(v, "piece length"@);
    found_or_lacking(v, "pieces"@);
    found_or_lacking(v, "files"@);
    found_or_lacking(v, "length"@);
    got_under(v, "pieces"@);
    got_under(v, "files"@);
    if let Some(w) = v.get("pieces"@) {
        assert(stands_under(v, "pieces"@, w));
    }
    if let Some(w) = v.get("files"@) {
        assert(stands_under(v, "files"@, w));
        if let Value::List(items) = w {
            files_are_refused(items);
            if let Err(c) = files_of(items) {
                let k = choose|k: int| 0 <= k < items.len() && refused_file(#[trigger] items[k], c);
                assert(refused_file(w->List_0[k], c));
            }
        }
    }
}

proof fn files_are_refused(items: Seq<Value>)
    ensures
        files_of(items) matches Err(c) ==> exists|k: int|
            0 <= k < items.len() && refused_file(#[trigger] items[k], c),
    decreases items.len(),
{
    if items.len() > 0 {
        let first = items.drop_last();
        files_are_refused(first);
        match files_of(first) {
            Err(c) => {
                let k = choose|k: int| 0 <= k < first.len() && refused_file(#[trigger] first[k], c);
                assert(items[k] == first[k]);
            },
            Ok(_) => {
                file_is_refused(items.last());
                assert(items[items.len() - 1] == items.last());
            },
        }
    }
}

proof fn file_is_refused(v: Value)
    ensures
        file_of(v) matches Err(c) ==> refused_file(v, c),
{
    found_or_lacking(v, "length"@);
    found_or_lacking(v, "path"@);
    got_under(v, "path"@);
    if let Some(w) = v.get("path"@) {
        assert(stands_under(v, "path"@, w));
        if let Value::List(parts) = w {
            if all_texts(parts) is None {
                let j = odd_part(parts);
                assert(textless(w->List_0[j]));
            }
        }
    }
}

proof fn odd_part(parts: Seq<Value>) -> (j: int)
    requires
        all_texts(parts) is None,
    ensures
        0 <= j < parts.len(),
        textless(parts[j]),
    decreases parts.len(),
{
    let first = parts.drop_last();
    if all_texts(first) is None {
        let j = odd_part(first);
        assert(parts[j] == first[j]);
        j
    } else {
        let j = parts.len() - 1;
        assert forall|t: Seq<char>| !#[trigger] reads(parts[j], t) by {
            encode_utf8_valid_utf8(t);
        }
        j
    }
}

/// The tiers of a torrent are the lists in the list under `announce-list`, in order, each with
/// the texts in it, in order. What is neither list nor text is passed over.
pub proof fn tiers_follow_the_list(items: Seq<Value>, v: Value)
    ensures
        text_lists(Seq::empty()).len() == 0,
        texts(Seq::empty()).len() == 0,
        text_lists(items.push(v)) == if v is List {
            text_lists(items).push(texts(v->List_0))
        } else {
            text_lists(items)
        },
        texts(items.push(v)).len() == texts(items).len() || {
            &&& texts(items.push(v)).len() == texts(items).len() + 1
            &&& texts(items.push(v)).drop_last() == texts(items)
            &&& reads(v, texts(items.push(v)).last())
        },
        forall|t: Seq<char>| #[trigger] reads(v, t) ==> texts(items.push(v)) == texts(items).push(t),
{
    let more = items.push(v);
    assert(more.drop_last() =~= items);
    if let Some(t) = v.text() {
        text_is_read(v, t);
        assert(texts(more).drop_last() =~= texts(items));
    }
    assert forall|t: Seq<char>| #[trigger] reads(v, t) implies texts(more) == texts(items).push(t) by {
        encode_utf8_valid_utf8(t);
        encode_utf8_decode_utf8(t);
    }
}

/// A torrent has the tiers of the list under `announce-list`, and none if there is no list.
pub proof fn tiers_stand_in_torrents(raw: Seq<u8>, root: Value, m: MetaInfo)
    requires
        decode_bytes(raw) matches Scan::Read(v, _) && v == root,
        torrent_of(raw) == Some(Ok::<MetaFacts, Complaint>(m@)),
    ensures
        forall|w: Value| #[trigger]
            stands_under(root, "announce-list"@, w) && w is List ==> m@.announce_list == text_lists(
                w->List_0,
            ),
        (forall|w: Value| #[trigger] stands_under(root, "announce-list"@, w) ==> !(w is List))
            ==> m.announce_list@.len() == 0,
        m@.announce_list.len() == m.announce_list@.len(),
        forall|i: int, j: int|
            0 <= i < m.announce_list@.len() && 0 <= j < m.announce_list@[i]@.len()
                ==> m@.announce_list[i].len() == m.announce_list@[i]@.len()
                && #[trigger] m.announce_list@[i]@[j]@ == m@.announce_list[i][j],
{
    got_under(root, "announce-list"@);
    assert(m@.announce_list.len() == m.announce_list@.len());
    if let Some(w) = root.get("announce-list"@) {
        assert(stands_under(root, "announce-list"@, w));
    }
}

/// The length of a key is read in decimal, with or without a plus sign in front.
pub proof fn lengths_may_have_a_plus(d: Seq<u8>)
    requires
        d.len() > 0,
        forall|k: int| 0 <= k < d.len() ==> 48 <= #[trigger] d[k] <= 57,
        number_in(d, 0, d.len() as int) <= usize::MAX,
    ensures
        numeral(d) == Some(number_in(d, 0, d.len() as int)),
        numeral(seq![43u8] + d) == Some(number_in(d, 0, d.len() as int)),
{
    value_of_digits(d, 0, d.len() as int);
    assert(d.subrange(0, d.len() as int) =~= d);
    let signed = seq![43u8] + d;
    assert(signed.drop_first() =~= d);
    assert(48 <= d[0] <= 57);
    assert forall|k: int| 0 <= k < d.len() implies is_digit(#[trigger] d[k]) by {}
}

/// The name of a torrent is the digest of bytes of its file as they stand: of those right behind
/// a key `info`, from a `d` on up to an `e`, if what stands there is a dictionary.
pub proof fn names_are_digests_of_bytes(raw: Seq<u8>, m: MetaInfo) -> (span: (int, int))
    requires
        torrent_of(raw) == Some(Ok::<MetaFacts, Complaint>(m@)),
    ensures
        5 <= span.0 < span.1 <= raw.len(),
        m.info_hash@ == sha1_digest(raw.subrange(span.0, span.1)),
        raw[span.0 - 5] == 58,
        raw[span.0 - 4] == 105,
        raw[span.0 - 3] == 110,
        raw[span.0 - 2] == 102,
        raw[span.0 - 1] == 111,
        raw[span.0] == 100 ==> raw[span.1 - 1] == 101,
{
    let (from, to) = info_span(raw)->Read_0;
    span_is_behind_key(raw, 1);
    (from, to)
}

proof fn span_is_behind_key(raw: Seq<u8>, i: int)
    requires
        0 < i,
    ensures
        span_from(raw, i) matches Scan::Read((from, to), _) ==> {
            &&& 5 <= from < to <= raw.len()
            &&& raw[from - 5] == 58
            &&& raw[from - 4] == 105
            &&& raw[from - 3] == 110
            &&& raw[from - 2] == 102
            &&& raw[from - 1] == 111
            &&& raw[from] == 100 ==> raw[to - 1] == 101
        },
    decreases raw.len() - i,
{
    if i < raw.len() && raw[i] != 101 {
        string_advances(raw, i);
        find_bounds(raw, 58, i);
        if let Scan::Read(key, j) = string_at(raw, i) {
            skip_advances(raw, j);
            if let Scan::Read(_, k) = skip(raw, j) {
                if key == info_key() {
                    assert(key == raw.subrange(j - 4, j));
                    assert(key[0] == raw[j - 4] && key[1] == raw[j - 3] && key[2] == raw[j - 2] && key[3]
                        == raw[j - 1]);
                    if raw[j] == 100 {
                        containers_end(raw, j + 1);
                    }
                } else {
                    span_is_behind_key(raw, k);
                }
            }
        }
    }
}

proof fn containers_end(raw: Seq<u8>, i: int)
    requires
        0 <= i,
    ensures
        skip_to_end(raw, i) matches Scan::Read(_, j) ==> i < j <= raw.len() && raw[j - 1] == 101,
    decreases raw.len() - i,
{
    if i < raw.len() && raw[i] != 101 {
        skip_advances(raw, i);
        if let Scan::Read(_, j) = skip(raw, i) {
            containers_end(raw, j);
        }
    }
}

/// The name of a torrent is the digest of the bencoding of what stands under `info` in it.
pub proof fn torrents_are_named_by_their_info(d: Seq<(Seq<char>, Value)>, info: Value, m: MetaInfo)
    requires
        canonical(Value::Dict(d)),
        countable(Value::Dict(d)),
        bencode(Value::Dict(d)).len() <= usize::MAX,
        stands_under(Value::Dict(d), "info"@, info),
        torrent_of(bencode(Value::Dict(d))) == Some(Ok::<MetaFacts, Complaint>(m@)),
    ensures
        m.info_hash@ == sha1_digest(bencode(info)),
{
    got_under(Value::Dict(d), "info"@);
    span_is_info(d);
    decoding_inverts_bencoding(Value::Dict(d));
}

} // verus!
