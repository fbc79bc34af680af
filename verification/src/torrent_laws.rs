//! What holds of the digest that names a torrent.

use vstd::prelude::*;
use vstd::utf8::{
    encode_utf8, encode_utf8_decode_utf8, is_ascii_chars, is_ascii_chars_encode_utf8,
};

use crate::digest::sha1_digest;
use crate::grammar::{dict_get, is_digit, Scan, Value};
use crate::roundtrip::{
    bencode, bencode_bytes, bencode_entries, bencode_items, canonical, decimal_bytes, decimal_denotes,
    countable, decoding_inverts_bencoding, parts_stand, signed_decimal_bytes, stands_at,
};
use crate::torrent::{
    find, info_key, info_span, meta_of, numeral_digits, skip, skip_to_end, span_from, string_at,
    torrent_of, Complaint, MetaFacts,
};

verus! {

/// A byte is found at the first place where it stands.
proof fn found_first(raw: Seq<u8>, b: u8, i: int, p: int)
    requires
        0 <= i <= p < raw.len(),
        raw[p] == b,
        forall|k: int| i <= k < p ==> #[trigger] raw[k] != b,
    ensures
        find(raw, b, i) == Some(p),
    decreases p - i,
{
    if i < p {
        found_first(raw, b, i + 1, p);
    }
}

/// A byte string is read where it stands.
proof fn string_reads(s: Seq<u8>, i: int, b: Seq<u8>)
    requires
        stands_at(s, i, bencode_bytes(b)),
        s.len() <= usize::MAX,
    ensures
        string_at(s, i) == Scan::Read(b, i + bencode_bytes(b).len()),
        is_digit(s[i]),
{
    let d = decimal_bytes(b.len());
    decimal_denotes(b.len());
    parts_stand(s, i, d + seq![58u8], b);
    parts_stand(s, i, d, seq![58u8]);
    let colon = i + d.len();
    assert(s.subrange(colon, colon + 1)[0] == s[colon]);
    let part = s.subrange(i, colon);
    assert forall|k: int| i <= k < colon implies is_digit(#[trigger] s[k]) by {
        assert(part[k - i] == s[k]);
        assert(is_digit(d[k - i]));
    }
    found_first(s, 58, i, colon);
    assert(part == d);
    assert(is_digit(d[0]));
    assert(numeral_digits(d) == d);
}

/// A value is skipped where it stands.
pub proof fn value_skips(s: Seq<u8>, i: int, v: Value)
    requires
        stands_at(s, i, bencode(v)),
        s.len() <= usize::MAX,
    ensures
        skip(s, i) == Scan::Read((), i + bencode(v).len()),
        bencode(v).len() > 0,
        s[i] != 101,
    decreases v, 0int,
{
    match v {
        Value::Number(n) => {
            let d = signed_decimal_bytes(n as int);
            parts_stand(s, i, seq![105u8] + d, seq![101u8]);
            parts_stand(s, i, seq![105u8], d);
            assert(s.subrange(i, i + 1)[0] == s[i]);
            let e = i + 1 + d.len();
            assert(s.subrange(e, e + 1)[0] == s[e]);
            signed_digits(n as int);
            let part = s.subrange(i + 1, e);
            assert forall|k: int| i <= k < e implies #[trigger] s[k] != 101 by {
                if k > i {
                    assert(part[k - i - 1] == s[k]);
                    assert(d[k - i - 1] != 101);
                }
            }
            found_first(s, 101, i, e);
        },
        Value::Bytes(b) => {
            string_reads(s, i, b);
            decimal_denotes(b.len());
        },
        Value::List(items) => {
            let inner = bencode_items(items);
            parts_stand(s, i, seq![108u8] + inner, seq![101u8]);
            parts_stand(s, i, seq![108u8], inner);
            assert(s.subrange(i, i + 1)[0] == s[i]);
            let e = i + 1 + inner.len();
            assert(s.subrange(e, e + 1)[0] == s[e]);
            assert(items.take(items.len() as int) =~= items);
            items_skip(s, i + 1, items, items.len() as int);
        },
        Value::Dict(d) => {
            let inner = bencode_entries(d);
            parts_stand(s, i, seq![100u8] + inner, seq![101u8]);
            parts_stand(s, i, seq![100u8], inner);
            assert(s.subrange(i, i + 1)[0] == s[i]);
            let e = i + 1 + inner.len();
            assert(s.subrange(e, e + 1)[0] == s[e]);
            assert(d.take(d.len() as int) =~= d);
            entries_skip(s, i + 1, d, d.len() as int);
        },
    }
}

proof fn signed_digits(n: int)
    ensures
        forall|k: int|
            0 <= k < signed_decimal_bytes(n).len() ==> #[trigger] signed_decimal_bytes(n)[k] != 101,
{
    let d = signed_decimal_bytes(n);
    let m = if n < 0 {
        (-n) as nat
    } else {
        n as nat
    };
    decimal_denotes(m);
    assert forall|k: int| 0 <= k < d.len() implies #[trigger] d[k] != 101 by {
        if n < 0 {
            if k > 0 {
                assert(d[k] == decimal_bytes(m)[k - 1]);
            }
        } else {
            assert(is_digit(decimal_bytes(m)[k]));
        }
    }
}

proof fn items_skip(s: Seq<u8>, i: int, items: Seq<Value>, k: int)
    requires
        0 <= k <= items.len(),
        stands_at(s, i, bencode_items(items.take(k))),
        s.len() <= usize::MAX,
    ensures
        skip_to_end(s, i) == skip_to_end(s, i + bencode_items(items.take(k)).len()),
    decreases items, k,
{
    if k > 0 {
        let before = items.take(k - 1);
        let v = items[k - 1];
        assert(items.take(k).drop_last() =~= before);
        assert(items.take(k).last() == v);
        parts_stand(s, i, bencode_items(before), bencode(v));
        items_skip(s, i, items, k - 1);
        value_skips(s, i + bencode_items(before).len(), v);
    } else {
        assert(items.take(0) =~= Seq::empty());
    }
}

proof fn entries_skip(s: Seq<u8>, i: int, d: Seq<(Seq<char>, Value)>, k: int)
    requires
        0 <= k <= d.len(),
        stands_at(s, i, bencode_entries(d.take(k))),
        s.len() <= usize::MAX,
    ensures
        skip_to_end(s, i) == skip_to_end(s, i + bencode_entries(d.take(k)).len()),
    decreases d, k,
{
    if k > 0 {
        let before = d.take(k - 1);
        let key = encode_utf8(d[k - 1].0);
        let v = d[k - 1].1;
        assert(d.take(k).drop_last() =~= before);
        assert(d.take(k).last() == d[k - 1]);
        parts_stand(s, i, bencode_entries(before) + bencode_bytes(key), bencode(v));
        parts_stand(s, i, bencode_entries(before), bencode_bytes(key));
        entries_skip(s, i, d, k - 1);
        let p = i + bencode_entries(before).len();
        string_reads(s, p, key);
        decimal_denotes(key.len());
        let q = p + bencode_bytes(key).len();
        assert(skip(s, p) == Scan::Read((), q));
        assert(skip_to_end(s, p) == skip_to_end(s, q));
        value_skips(s, q, v);
        assert(skip_to_end(s, q) == skip_to_end(s, q + bencode(v).len()));
    } else {
        assert(d.take(0) =~= Seq::empty());
    }
}

/// The key `info` in bytes.
proof fn info_key_encodes()
    ensures
        encode_utf8("info"@) == info_key(),
{
    reveal_strlit("info");
    assert(is_ascii_chars("info"@));
    is_ascii_chars_encode_utf8("info"@);
    assert(encode_utf8("info"@) =~= info_key());
}

/// The search goes past entries with other keys.
proof fn span_passes(s: Seq<u8>, i: int, d: Seq<(Seq<char>, Value)>, k: int)
    requires
        0 <= k <= d.len(),
        stands_at(s, i, bencode_entries(d.take(k))),
        s.len() <= usize::MAX,
        forall|j: int| 0 <= j < k ==> (#[trigger] d[j]).0 != "info"@,
    ensures
        span_from(s, i) == span_from(s, i + bencode_entries(d.take(k)).len()),
    decreases k,
{
    if k > 0 {
        let before = d.take(k - 1);
        let key = encode_utf8(d[k - 1].0);
        let v = d[k - 1].1;
        assert(d.take(k).drop_last() =~= before);
        assert(d.take(k).last() == d[k - 1]);
        parts_stand(s, i, bencode_entries(before) + bencode_bytes(key), bencode(v));
        parts_stand(s, i, bencode_entries(before), bencode_bytes(key));
        span_passes(s, i, d, k - 1);
        let p = i + bencode_entries(before).len();
        string_reads(s, p, key);
        decimal_denotes(key.len());
        value_skips(s, p + bencode_bytes(key).len(), v);
        info_key_encodes();
        encode_utf8_decode_utf8(d[k - 1].0);
        encode_utf8_decode_utf8("info"@);
    } else {
        assert(d.take(0) =~= Seq::empty());
    }
}

/// The first entries stand where all of them do.
proof fn first_entries_stand(s: Seq<u8>, i: int, d: Seq<(Seq<char>, Value)>, k: int, n: int)
    requires
        0 <= k <= n <= d.len(),
        stands_at(s, i, bencode_entries(d.take(n))),
    ensures
        stands_at(s, i, bencode_entries(d.take(k))),
    decreases n,
{
    if k < n {
        let before = d.take(n - 1);
        let key = encode_utf8(d[n - 1].0);
        assert(d.take(n).drop_last() =~= before);
        assert(d.take(n).last() == d[n - 1]);
        parts_stand(s, i, bencode_entries(before) + bencode_bytes(key), bencode(d[n - 1].1));
        parts_stand(s, i, bencode_entries(before), bencode_bytes(key));
        first_entries_stand(s, i, d, k, n - 1);
    }
}

/// Where the first entry with a key is.
proof fn entry_index(d: Seq<(Seq<char>, Value)>, key: Seq<char>) -> (k: int)
    requires
        dict_get(d, key) is Some,
    ensures
        0 <= k < d.len(),
        d[k] == (key, dict_get(d, key)->0),
        forall|j: int| 0 <= j < k ==> (#[trigger] d[j]).0 != key,
    decreases d.len(),
{
    if d[0].0 == key {
        0
    } else {
        let k = entry_index(d.drop_first(), key);
        assert forall|j: int| 0 <= j < k + 1 implies (#[trigger] d[j]).0 != key by {
            if j > 0 {
                assert(d.drop_first()[j - 1] == d[j]);
            }
        }
        k + 1
    }
}

/// In the bencoding of a dictionary the span that is located holds exactly the bencoding of
/// the value of `info`.
pub proof fn span_is_info(d: Seq<(Seq<char>, Value)>)
    requires
        dict_get(d, "info"@) is Some,
        bencode(Value::Dict(d)).len() <= usize::MAX,
    ensures
        info_span(bencode(Value::Dict(d))) matches Scan::Read((from, to), _) && 0 <= from <= to
            <= bencode(Value::Dict(d)).len() && bencode(Value::Dict(d)).subrange(from, to)
            == bencode(dict_get(d, "info"@)->0),
{
    let s = bencode(Value::Dict(d));
    let inner = bencode_entries(d);
    assert(s.subrange(0, s.len() as int) =~= s);
    parts_stand(s, 0, seq![100u8] + inner, seq![101u8]);
    parts_stand(s, 0, seq![100u8], inner);
    assert(s.subrange(0, 1)[0] == s[0]);
    let k = entry_index(d, "info"@);
    assert(d.take(d.len() as int) =~= d);
    first_entries_stand(s, 1, d, k + 1, d.len() as int);
    let before = d.take(k);
    let key = encode_utf8("info"@);
    let v = d[k].1;
    assert(d.take(k + 1).drop_last() =~= before);
    assert(d.take(k + 1).last() == d[k]);
    parts_stand(s, 1, bencode_entries(before) + bencode_bytes(key), bencode(v));
    parts_stand(s, 1, bencode_entries(before), bencode_bytes(key));
    span_passes(s, 1, d, k);
    let p = 1int + bencode_entries(before).len();
    string_reads(s, p, key);
    value_skips(s, p + bencode_bytes(key).len(), v);
    info_key_encodes();
}

/// The digest that names a torrent is the one of the bytes of its `info` entry: of a
/// dictionary in canonical form, the torrent says what the dictionary says, under the digest of
/// the bencoding of the entry.
pub proof fn named_by_info(d: Seq<(Seq<char>, Value)>)
    requires
        canonical(Value::Dict(d)),
        dict_get(d, "info"@) is Some,
        bencode(Value::Dict(d)).len() <= usize::MAX,
        countable(Value::Dict(d)),
    ensures
        ({
            let said = meta_of(Value::Dict(d), sha1_digest(bencode(dict_get(d, "info"@)->0)));
            torrent_of(bencode(Value::Dict(d))) == match said {
                Err(c) => Some(Err::<MetaFacts, Complaint>(c)),
                Ok(meta) => if meta.total_length > u64::MAX {
                    None
                } else {
                    Some(Ok::<MetaFacts, Complaint>(meta))
                },
            }
        }),
{
    span_is_info(d);
    decoding_inverts_bencoding(Value::Dict(d));
}

} // verus!
