//! Bencoding as bytes, and what decoding gives back of it.

use vstd::prelude::*;
use vstd::utf8::{
    decode_utf8_encode_utf8, encode_utf8, encode_utf8_decode_utf8, encode_utf8_valid_utf8,
    is_ascii_chars, is_ascii_chars_encode_utf8, valid_utf8,
};

use crate::bytestring::display_text;
use crate::grammar::{
    ascending, decode_bytes, dict_get, dict_insert, digits_end, digits_value, encoded,
    encoded_entries, encoded_items, encoded_key, insert_ascends, is_digit, key_before,
    parse_entries, parse_items, parse_value, prepend, remaining, scan_number, scan_token,
    scan_tokens, Lexeme, Scan, Value,
};
use crate::text::{decimal, signed_decimal};

verus! {

/// The decimal numeral of `n` in ASCII.
pub open spec fn decimal_bytes(n: nat) -> Seq<u8>
    decreases n,
{
    if n < 10 {
        seq![(48 + n) as u8]
    } else {
        decimal_bytes(n / 10).push((48 + n % 10) as u8)
    }
}

/// The decimal numeral of `n` in ASCII, with a minus sign when it is negative.
pub open spec fn signed_decimal_bytes(n: int) -> Seq<u8> {
    if n < 0 {
        seq![45u8] + decimal_bytes((-n) as nat)
    } else {
        decimal_bytes(n as nat)
    }
}

/// A byte string: its length, a colon, and the bytes.
pub open spec fn bencode_bytes(b: Seq<u8>) -> Seq<u8> {
    decimal_bytes(b.len()) + seq![58u8] + b
}

/// The bencoding of a value.
pub open spec fn bencode(v: Value) -> Seq<u8>
    decreases v,
{
    match v {
        Value::Number(n) => seq![105u8] + signed_decimal_bytes(n as int) + seq![101u8],
        Value::Bytes(b) => bencode_bytes(b),
        Value::List(items) => seq![108u8] + bencode_items(items) + seq![101u8],
        Value::Dict(d) => seq![100u8] + bencode_entries(d) + seq![101u8],
    }
}

/// The bencodings of values, one after another.
pub open spec fn bencode_items(items: Seq<Value>) -> Seq<u8>
    decreases items,
{
    if items.len() == 0 {
        Seq::empty()
    } else {
        bencode_items(items.drop_last()) + bencode(items.last())
    }
}

/// The bencodings of entries, one after another.
pub open spec fn bencode_entries(d: Seq<(Seq<char>, Value)>) -> Seq<u8>
    decreases d,
{
    if d.len() == 0 {
        Seq::empty()
    } else {
        bencode_entries(d.drop_last()) + bencode_bytes(encode_utf8(d.last().0)) + bencode(
            d.last().1,
        )
    }
}

/// Whether the keys of every dictionary in a value ascend strictly.
pub open spec fn canonical(v: Value) -> bool
    decreases v,
{
    match v {
        Value::Number(_) => true,
        Value::Bytes(_) => true,
        Value::List(items) => forall|i: int| 0 <= i < items.len() ==> canonical(#[trigger] items[i]),
        Value::Dict(d) => ascending(d) && forall|i: int|
            0 <= i < d.len() ==> canonical((#[trigger] d[i]).1),
    }
}

/// The tokens of a value.
pub open spec fn tokens_of(v: Value) -> Seq<Lexeme>
    decreases v,
{
    match v {
        Value::Number(n) => seq![Lexeme::Number(n)],
        Value::Bytes(b) => seq![Lexeme::Bytes(b)],
        Value::List(items) => seq![Lexeme::ListBegin] + tokens_of_items(items) + seq![Lexeme::End],
        Value::Dict(d) => seq![Lexeme::DictBegin] + tokens_of_entries(d) + seq![Lexeme::End],
    }
}

/// The tokens of values, one after another.
pub open spec fn tokens_of_items(items: Seq<Value>) -> Seq<Lexeme>
    decreases items,
{
    if items.len() == 0 {
        Seq::empty()
    } else {
        tokens_of_items(items.drop_last()) + tokens_of(items.last())
    }
}

/// The tokens of entries, one after another.
pub open spec fn tokens_of_entries(d: Seq<(Seq<char>, Value)>) -> Seq<Lexeme>
    decreases d,
{
    if d.len() == 0 {
        Seq::empty()
    } else {
        tokens_of_entries(d.drop_last()) + (seq![Lexeme::Bytes(encode_utf8(d.last().0))] + tokens_of(
            d.last().1,
        ))
    }
}

/// Whether `part` stands in `whole` at `i`.
pub open spec fn stands_at<A>(whole: Seq<A>, i: int, part: Seq<A>) -> bool {
    &&& 0 <= i
    &&& i + part.len() <= whole.len()
    &&& whole.subrange(i, i + part.len()) == part
}

/// A numeral is a run of digits that denotes its number.
pub proof fn decimal_denotes(n: nat)
    ensures
        decimal_bytes(n).len() > 0,
        forall|i: int| 0 <= i < decimal_bytes(n).len() ==> is_digit(#[trigger] decimal_bytes(n)[i]),
        digits_value(decimal_bytes(n)) == n,
    decreases n,
{
    let d = decimal_bytes(n);
    if n < 10 {
        assert(d.drop_last() =~= Seq::empty());
        reveal_with_fuel(digits_value, 2);
    } else {
        decimal_denotes(n / 10);
        assert(d.drop_last() =~= decimal_bytes(n / 10));
    }
}

/// A run of digits ends where the first other byte stands.
proof fn run_ends(s: Seq<u8>, i: int, k: int)
    requires
        0 <= i <= k <= s.len(),
        forall|j: int| i <= j < k ==> is_digit(#[trigger] s[j]),
        k < s.len() ==> !is_digit(s[k]),
    ensures
        digits_end(s, i) == k,
    decreases k - i,
{
    if i < k {
        run_ends(s, i + 1, k);
    }
}

/// A numeral scans as its number.
proof fn decimal_scans(s: Seq<u8>, i: int, n: nat)
    requires
        stands_at(s, i, decimal_bytes(n)),
        i + decimal_bytes(n).len() < s.len(),
        !is_digit(s[i + decimal_bytes(n).len()]),
    ensures
        is_digit(s[i]),
        digits_end(s, i) == i + decimal_bytes(n).len(),
        digits_value(s.subrange(i, digits_end(s, i))) == n,
{
    let d = decimal_bytes(n);
    decimal_denotes(n);
    let part = s.subrange(i, i + d.len());
    assert forall|j: int| i <= j < i + d.len() implies is_digit(#[trigger] s[j]) by {
        assert(part[j - i] == s[j]);
        assert(is_digit(d[j - i]));
    }
    run_ends(s, i, i + d.len());
}

proof fn signed_decimal_scans(s: Seq<u8>, i: int, n: i64)
    requires
        stands_at(s, i, signed_decimal_bytes(n as int)),
        i + signed_decimal_bytes(n as int).len() < s.len(),
        !is_digit(s[i + signed_decimal_bytes(n as int).len()]),
    ensures
        scan_number(s, i) == Scan::Read(n, i + signed_decimal_bytes(n as int).len()),
{
    let d = signed_decimal_bytes(n as int);
    if n < 0 {
        let m = decimal_bytes((-n) as nat);
        let part = s.subrange(i, i + d.len());
        assert(part[0] == s[i]);
        assert(s.subrange(i + 1, i + 1 + m.len()) =~= m) by {
            assert(part.subrange(1, part.len() as int) =~= s.subrange(i + 1, i + 1 + m.len()));
            assert(d.subrange(1, d.len() as int) =~= m);
        }
        decimal_scans(s, i + 1, (-n) as nat);
    } else {
        decimal_scans(s, i, n as nat);
    }
}

/// Parts of what stands at a place stand at their own places.
pub proof fn parts_stand<A>(s: Seq<A>, i: int, a: Seq<A>, b: Seq<A>)
    requires
        stands_at(s, i, a + b),
    ensures
        stands_at(s, i, a),
        stands_at(s, i + a.len(), b),
{
    let part = s.subrange(i, i + (a + b).len());
    assert(s.subrange(i, i + a.len()) =~= a) by {
        assert(part.subrange(0, a.len() as int) =~= s.subrange(i, i + a.len()));
        assert((a + b).subrange(0, a.len() as int) =~= a);
    }
    assert(s.subrange(i + a.len(), i + a.len() + b.len()) =~= b) by {
        assert(part.subrange(a.len() as int, part.len() as int) =~= s.subrange(
            i + a.len(),
            i + a.len() + b.len(),
        ));
        assert((a + b).subrange(a.len() as int, (a + b).len() as int) =~= b);
    }
}

proof fn number_scans(s: Seq<u8>, i: int, n: i64)
    requires
        stands_at(s, i, bencode(Value::Number(n))),
    ensures
        scan_token(s, i) == Scan::Read(Lexeme::Number(n), i + bencode(Value::Number(n)).len()),
{
    let d = signed_decimal_bytes(n as int);
    parts_stand(s, i, seq![105u8] + d, seq![101u8]);
    parts_stand(s, i, seq![105u8], d);
    assert(s.subrange(i, i + 1)[0] == s[i]);
    assert(s.subrange(i + 1 + d.len(), i + 1 + d.len() + 1)[0] == s[i + 1 + d.len()]);
    signed_decimal_scans(s, i + 1, n);
}

proof fn bytes_scan(s: Seq<u8>, i: int, b: Seq<u8>)
    requires
        stands_at(s, i, bencode_bytes(b)),
        b.len() <= i64::MAX,
        s.len() <= usize::MAX,
    ensures
        scan_token(s, i) == Scan::Read(Lexeme::Bytes(b), i + bencode_bytes(b).len()),
{
    let d = decimal_bytes(b.len());
    parts_stand(s, i, d + seq![58u8], b);
    parts_stand(s, i, d, seq![58u8]);
    assert(s.subrange(i + d.len(), i + d.len() + 1)[0] == s[i + d.len()]);
    decimal_scans(s, i, b.len());
}

proof fn prepend_twice(a: Seq<Lexeme>, b: Seq<Lexeme>, rest: Scan<Seq<Lexeme>>)
    ensures
        prepend(a, prepend(b, rest)) == prepend(a + b, rest),
{
    if let Scan::Read(t, _) = rest {
        assert(a + (b + t) =~= (a + b) + t);
    }
}

/// Whether the length of every string in a value, the keys of dictionaries among them, is one
/// that is read back as a length.
pub open spec fn countable(v: Value) -> bool
    decreases v,
{
    match v {
        Value::Number(_) => true,
        Value::Bytes(b) => b.len() <= i64::MAX,
        Value::List(items) => forall|k: int|
            0 <= k < items.len() ==> countable(#[trigger] items[k]),
        Value::Dict(d) => forall|k: int|
            0 <= k < d.len() ==> encode_utf8((#[trigger] d[k]).0).len() <= i64::MAX && countable(
                d[k].1,
            ),
    }
}

/// A value scans as its tokens, and what follows it scans by itself.
pub proof fn value_scans(s: Seq<u8>, i: int, v: Value)
    requires
        stands_at(s, i, bencode(v)),
        countable(v),
        s.len() <= usize::MAX,
    ensures
        scan_tokens(s, i) == prepend(tokens_of(v), scan_tokens(s, i + bencode(v).len())),
        bencode(v).len() > 0,
    decreases v,
{
    match v {
        Value::Number(n) => {
            number_scans(s, i, n);
        },
        Value::Bytes(b) => {
            bytes_scan(s, i, b);
            decimal_denotes(b.len());
        },
        Value::List(items) => {
            let inner = bencode_items(items);
            let rest = scan_tokens(s, i + bencode(v).len());
            parts_stand(s, i, seq![108u8] + inner, seq![101u8]);
            parts_stand(s, i, seq![108u8], inner);
            assert(s.subrange(i, i + 1)[0] == s[i]);
            let e = i + 1 + inner.len();
            assert(s.subrange(e, e + 1)[0] == s[e]);
            items_scan(s, i + 1, items);
            assert(scan_tokens(s, e) == prepend(seq![Lexeme::End], rest));
            prepend_twice(tokens_of_items(items), seq![Lexeme::End], rest);
            prepend_twice(
                seq![Lexeme::ListBegin],
                tokens_of_items(items) + seq![Lexeme::End],
                rest,
            );
            assert(seq![Lexeme::ListBegin] + (tokens_of_items(items) + seq![Lexeme::End])
                =~= tokens_of(v));
        },
        Value::Dict(d) => {
            let inner = bencode_entries(d);
            let rest = scan_tokens(s, i + bencode(v).len());
            parts_stand(s, i, seq![100u8] + inner, seq![101u8]);
            parts_stand(s, i, seq![100u8], inner);
            assert(s.subrange(i, i + 1)[0] == s[i]);
            let e = i + 1 + inner.len();
            assert(s.subrange(e, e + 1)[0] == s[e]);
            entries_scan(s, i + 1, d);
            assert(scan_tokens(s, e) == prepend(seq![Lexeme::End], rest));
            prepend_twice(tokens_of_entries(d), seq![Lexeme::End], rest);
            prepend_twice(seq![Lexeme::DictBegin], tokens_of_entries(d) + seq![Lexeme::End], rest);
            assert(seq![Lexeme::DictBegin] + (tokens_of_entries(d) + seq![Lexeme::End])
                =~= tokens_of(v));
        },
    }
}

proof fn items_scan(s: Seq<u8>, i: int, items: Seq<Value>)
    requires
        stands_at(s, i, bencode_items(items)),
        forall|k: int| 0 <= k < items.len() ==> countable(#[trigger] items[k]),
        s.len() <= usize::MAX,
    ensures
        scan_tokens(s, i) == prepend(
            tokens_of_items(items),
            scan_tokens(s, i + bencode_items(items).len()),
        ),
    decreases items,
{
    if items.len() == 0 {
        if let Scan::Read(t, _) = scan_tokens(s, i) {
            assert(Seq::<Lexeme>::empty() + t =~= t);
        }
    } else {
        let first = bencode_items(items.drop_last());
        let last = bencode(items.last());
        parts_stand(s, i, first, last);
        items_scan(s, i, items.drop_last());
        value_scans(s, i + first.len(), items.last());
        prepend_twice(
            tokens_of_items(items.drop_last()),
            tokens_of(items.last()),
            scan_tokens(s, i + bencode_items(items).len()),
        );
    }
}

proof fn entries_scan(s: Seq<u8>, i: int, d: Seq<(Seq<char>, Value)>)
    requires
        stands_at(s, i, bencode_entries(d)),
        forall|k: int|
            0 <= k < d.len() ==> encode_utf8((#[trigger] d[k]).0).len() <= i64::MAX && countable(
                d[k].1,
            ),
        s.len() <= usize::MAX,
    ensures
        scan_tokens(s, i) == prepend(
            tokens_of_entries(d),
            scan_tokens(s, i + bencode_entries(d).len()),
        ),
    decreases d,
{
    if d.len() == 0 {
        if let Scan::Read(t, _) = scan_tokens(s, i) {
            assert(Seq::<Lexeme>::empty() + t =~= t);
        }
    } else {
        let first = bencode_entries(d.drop_last());
        let key = encode_utf8(d.last().0);
        let last = bencode(d.last().1);
        let rest = scan_tokens(s, i + bencode_entries(d).len());
        parts_stand(s, i, first + bencode_bytes(key), last);
        parts_stand(s, i, first, bencode_bytes(key));
        entries_scan(s, i, d.drop_last());
        let k = i + first.len();
        bytes_scan(s, k, key);
        decimal_denotes(key.len());
        value_scans(s, k + bencode_bytes(key).len(), d.last().1);
        prepend_twice(seq![Lexeme::Bytes(key)], tokens_of(d.last().1), rest);
        prepend_twice(
            tokens_of_entries(d.drop_last()),
            seq![Lexeme::Bytes(key)] + tokens_of(d.last().1),
            rest,
        );
    }
}

/// The tokens of a value do not start with an end.
proof fn tokens_start(v: Value)
    ensures
        tokens_of(v).len() > 0,
        !(tokens_of(v)[0] is End),
{
}

/// A key that comes after all others is put last.
pub proof fn insert_last(d: Seq<(Seq<char>, Value)>, key: Seq<char>, value: Value)
    requires
        forall|i: int| 0 <= i < d.len() ==> key_before((#[trigger] d[i]).0, key),
    ensures
        dict_insert(d, key, value) == d.push((key, value)),
    decreases d.len(),
{
    if d.len() > 0 {
        assert(key_before(d[0].0, key));
        not_before_both(d[0].0, key);
        let rest = d.drop_first();
        assert forall|i: int| 0 <= i < rest.len() implies key_before((#[trigger] rest[i]).0, key) by {
            assert(rest[i] == d[i + 1]);
        }
        insert_last(rest, key, value);
        assert(seq![d[0]] + rest.push((key, value)) =~= d.push((key, value)));
    } else {
        assert(seq![(key, value)] =~= d.push((key, value)));
    }
}

proof fn not_before_both(a: Seq<char>, b: Seq<char>)
    requires
        key_before(a, b),
    ensures
        a != b,
        !key_before(b, a),
{
    crate::grammar::bytes_before_irreflexive(encode_utf8(a));
    if key_before(b, a) {
        crate::grammar::bytes_before_transitive(encode_utf8(a), encode_utf8(b), encode_utf8(a));
    }
}

/// The tokens of a value parse as the value.
pub proof fn value_parses(t: Seq<Lexeme>, i: int, v: Value)
    requires
        stands_at(t, i, tokens_of(v)),
        canonical(v),
        t.len() <= usize::MAX,
    ensures
        parse_value(t, i) == Scan::Read(v, i + tokens_of(v).len()),
    decreases v, 0int,
{
    tokens_start(v);
    assert(t.subrange(i, i + tokens_of(v).len())[0] == t[i]);
    match v {
        Value::Number(_) => {},
        Value::Bytes(_) => {},
        Value::List(items) => {
            let inner = tokens_of_items(items);
            parts_stand(t, i, seq![Lexeme::ListBegin] + inner, seq![Lexeme::End]);
            parts_stand(t, i, seq![Lexeme::ListBegin], inner);
            let e = i + 1 + inner.len();
            assert(t.subrange(e, e + 1)[0] == t[e]);
            assert(items.take(items.len() as int) =~= items);
            items_parse(t, i + 1, items, items.len() as int);
        },
        Value::Dict(d) => {
            let inner = tokens_of_entries(d);
            parts_stand(t, i, seq![Lexeme::DictBegin] + inner, seq![Lexeme::End]);
            parts_stand(t, i, seq![Lexeme::DictBegin], inner);
            let e = i + 1 + inner.len();
            assert(t.subrange(e, e + 1)[0] == t[e]);
            assert(d.take(d.len() as int) =~= d);
            entries_parse(t, i + 1, d, d.len() as int);
        },
    }
}

/// After the tokens of the first `k` items, the list so far consists of them.
proof fn items_parse(t: Seq<Lexeme>, i: int, items: Seq<Value>, k: int)
    requires
        0 <= k <= items.len(),
        stands_at(t, i, tokens_of_items(items.take(k))),
        forall|j: int| 0 <= j < items.len() ==> canonical(#[trigger] items[j]),
        t.len() <= usize::MAX,
    ensures
        parse_items(t, i, Seq::empty()) == parse_items(
            t,
            i + tokens_of_items(items.take(k)).len(),
            items.take(k),
        ),
    decreases items, k,
{
    if k == 0 {
        assert(items.take(0) =~= Seq::empty());
    } else {
        let before = items.take(k - 1);
        let v = items[k - 1];
        assert(items.take(k).drop_last() =~= before);
        assert(items.take(k).last() == v);
        parts_stand(t, i, tokens_of_items(before), tokens_of(v));
        items_parse(t, i, items, k - 1);
        let p = i + tokens_of_items(before).len();
        assert(canonical(v));
        value_parses(t, p, v);
        tokens_start(v);
        assert(t.subrange(p, p + tokens_of(v).len())[0] == t[p]);
        assert(before.push(v) =~= items.take(k));
    }
}

/// After the tokens of the first `k` entries, the dictionary so far consists of them.
proof fn entries_parse(t: Seq<Lexeme>, i: int, d: Seq<(Seq<char>, Value)>, k: int)
    requires
        0 <= k <= d.len(),
        stands_at(t, i, tokens_of_entries(d.take(k))),
        ascending(d),
        forall|j: int| 0 <= j < d.len() ==> canonical((#[trigger] d[j]).1),
        t.len() <= usize::MAX,
    ensures
        parse_entries(t, i, Seq::empty()) == parse_entries(
            t,
            i + tokens_of_entries(d.take(k)).len(),
            d.take(k),
        ),
    decreases d, k,
{
    if k == 0 {
        assert(d.take(0) =~= Seq::empty());
    } else {
        let before = d.take(k - 1);
        let (key, v) = d[k - 1];
        let name = seq![Lexeme::Bytes(encode_utf8(key))];
        assert(d.take(k).drop_last() =~= before);
        assert(d.take(k).last() == d[k - 1]);
        parts_stand(t, i, tokens_of_entries(before), name + tokens_of(v));
        let p = i + tokens_of_entries(before).len();
        parts_stand(t, p, name, tokens_of(v));
        assert(t.subrange(p, p + 1)[0] == t[p]);
        entries_parse(t, i, d, k - 1);
        assert(canonical(d[k - 1].1));
        value_parses(t, p + 1, v);
        encode_utf8_valid_utf8(key);
        encode_utf8_decode_utf8(key);
        assert forall|j: int| 0 <= j < before.len() implies key_before((#[trigger] before[j]).0, key) by {
            assert(before[j] == d[j]);
        }
        insert_last(before, key, v);
        assert(before.push((key, v)) =~= d.take(k));
    }
}

/// A value has no more tokens than bytes.
proof fn tokens_fit(v: Value)
    ensures
        tokens_of(v).len() <= bencode(v).len(),
    decreases v,
{
    match v {
        Value::Number(_) => {},
        Value::Bytes(_) => {},
        Value::List(items) => {
            items_fit(items);
        },
        Value::Dict(d) => {
            entries_fit(d);
        },
    }
}

proof fn items_fit(items: Seq<Value>)
    ensures
        tokens_of_items(items).len() <= bencode_items(items).len(),
    decreases items,
{
    if items.len() > 0 {
        items_fit(items.drop_last());
        tokens_fit(items.last());
    }
}

proof fn entries_fit(d: Seq<(Seq<char>, Value)>)
    ensures
        tokens_of_entries(d).len() <= bencode_entries(d).len(),
    decreases d,
{
    if d.len() > 0 {
        entries_fit(d.drop_last());
        tokens_fit(d.last().1);
    }
}

/// Decoding the bencoding of a value gives the value back, whatever bytes its strings hold.
pub proof fn decoding_inverts_bencoding(v: Value)
    requires
        canonical(v),
        countable(v),
        bencode(v).len() <= usize::MAX,
    ensures
        decode_bytes(bencode(v)) matches Scan::Read(w, _) && w == v,
{
    let s = bencode(v);
    assert(s.subrange(0, s.len() as int) =~= s);
    value_scans(s, 0, v);
    tokens_fit(v);
    let t = tokens_of(v);
    assert(t + Seq::<Lexeme>::empty() =~= t);
    assert(t.subrange(0, t.len() as int) =~= t);
    value_parses(t, 0, v);
}

/// Whether every byte string in a value is valid UTF-8.
pub open spec fn textual(v: Value) -> bool
    decreases v,
{
    match v {
        Value::Number(_) => true,
        Value::Bytes(b) => valid_utf8(b),
        Value::List(items) => forall|i: int| 0 <= i < items.len() ==> textual(#[trigger] items[i]),
        Value::Dict(d) => forall|i: int| 0 <= i < d.len() ==> textual((#[trigger] d[i]).1),
    }
}

/// The encoding of a text is that of its parts.
proof fn encode_concat(a: Seq<char>, b: Seq<char>)
    ensures
        encode_utf8(a + b) == encode_utf8(a) + encode_utf8(b),
    decreases a.len(),
{
    if a.len() == 0 {
        assert(a + b =~= b);
        assert(encode_utf8(a) + encode_utf8(b) =~= encode_utf8(b));
    } else {
        assert((a + b).drop_first() =~= a.drop_first() + b);
        encode_concat(a.drop_first(), b);
        assert(encode_utf8(a + b) =~= encode_utf8(a) + encode_utf8(b));
    }
}

proof fn ascii_encodes(c: Seq<char>, b: Seq<u8>)
    requires
        c.len() == b.len(),
        forall|i: int| 0 <= i < c.len() ==> (#[trigger] c[i]) as int == b[i] && b[i] < 128,
    ensures
        encode_utf8(c) == b,
{
    assert(is_ascii_chars(c)) by {
        assert forall|i: int| 0 <= i < c.len() implies '\0' <= #[trigger] c[i] <= '\u{7f}' by {
            assert(c[i] as int == b[i]);
        }
    }
    is_ascii_chars_encode_utf8(c);
    assert(encode_utf8(c) =~= b);
}

/// A numeral in ASCII is the numeral.
proof fn decimal_encodes(n: nat)
    ensures
        encode_utf8(decimal(n)) == decimal_bytes(n),
{
    decimal_matches(n);
    ascii_encodes(decimal(n), decimal_bytes(n));
}

proof fn decimal_matches(n: nat)
    ensures
        decimal(n).len() == decimal_bytes(n).len(),
        forall|i: int|
            0 <= i < decimal(n).len() ==> (#[trigger] decimal(n)[i]) as int == decimal_bytes(n)[i]
                && decimal_bytes(n)[i] < 128,
    decreases n,
{
    if n >= 10 {
        decimal_matches(n / 10);
    }
}

proof fn signed_decimal_encodes(n: int)
    ensures
        encode_utf8(signed_decimal(n)) == signed_decimal_bytes(n),
{
    if n < 0 {
        decimal_encodes((-n) as nat);
        encode_concat(seq!['-'], decimal((-n) as nat));
        ascii_encodes(seq!['-'], seq![45u8]);
    } else {
        decimal_encodes(n as nat);
    }
}

/// The text of a value whose strings are all text is its bencoding.
pub proof fn text_is_bencoding(v: Value)
    requires
        textual(v),
    ensures
        encode_utf8(encoded(v)) == bencode(v),
    decreases v,
{
    ascii_encodes(seq!['i'], seq![105u8]);
    ascii_encodes(seq!['l'], seq![108u8]);
    ascii_encodes(seq!['d'], seq![100u8]);
    ascii_encodes(seq!['e'], seq![101u8]);
    ascii_encodes(seq![':'], seq![58u8]);
    match v {
        Value::Number(n) => {
            signed_decimal_encodes(n as int);
            encode_concat(seq!['i'] + signed_decimal(n as int), seq!['e']);
            encode_concat(seq!['i'], signed_decimal(n as int));
        },
        Value::Bytes(b) => {
            decimal_encodes(b.len());
            encode_concat(decimal(b.len()) + seq![':'], display_text(b));
            encode_concat(decimal(b.len()), seq![':']);
            decode_utf8_encode_utf8(b);
        },
        Value::List(items) => {
            items_text_is_bencoding(items);
            encode_concat(seq!['l'] + encoded_items(items), seq!['e']);
            encode_concat(seq!['l'], encoded_items(items));
        },
        Value::Dict(d) => {
            entries_text_is_bencoding(d);
            encode_concat(seq!['d'] + encoded_entries(d), seq!['e']);
            encode_concat(seq!['d'], encoded_entries(d));
        },
    }
}

proof fn items_text_is_bencoding(items: Seq<Value>)
    requires
        forall|i: int| 0 <= i < items.len() ==> textual(#[trigger] items[i]),
    ensures
        encode_utf8(encoded_items(items)) == bencode_items(items),
    decreases items,
{
    if items.len() > 0 {
        let first = items.drop_last();
        assert forall|i: int| 0 <= i < first.len() implies textual(#[trigger] first[i]) by {
            assert(first[i] == items[i]);
        }
        items_text_is_bencoding(first);
        assert(items.last() == items[items.len() - 1]);
        text_is_bencoding(items.last());
        encode_concat(encoded_items(first), encoded(items.last()));
    }
}

proof fn entries_text_is_bencoding(d: Seq<(Seq<char>, Value)>)
    requires
        forall|i: int| 0 <= i < d.len() ==> textual((#[trigger] d[i]).1),
    ensures
        encode_utf8(encoded_entries(d)) == bencode_entries(d),
    decreases d,
{
    if d.len() > 0 {
        let first = d.drop_last();
        assert forall|i: int| 0 <= i < first.len() implies textual((#[trigger] first[i]).1) by {
            assert(first[i] == d[i]);
        }
        entries_text_is_bencoding(first);
        assert(d.last() == d[d.len() - 1]);
        text_is_bencoding(d.last().1);
        let key = d.last().0;
        let n = encode_utf8(key).len();
        encode_concat(encoded_entries(first) + encoded_key(key), encoded(d.last().1));
        encode_concat(encoded_entries(first), encoded_key(key));
        encode_concat(decimal(n) + seq![':'], key);
        encode_concat(decimal(n), seq![':']);
        decimal_encodes(n);
        ascii_encodes(seq![':'], seq![58u8]);
        assert(encode_utf8(encoded_key(key)) =~= bencode_bytes(encode_utf8(key)));
    }
}

/// Decoding the text that `encode` writes gives the value back, if every string in it is text.
pub proof fn decoding_inverts_encode(v: Value)
    requires
        canonical(v),
        textual(v),
        countable(v),
        encode_utf8(encoded(v)).len() <= usize::MAX,
    ensures
        decode_bytes(encode_utf8(encoded(v))) matches Scan::Read(w, _) && w == v,
{
    text_is_bencoding(v);
    decoding_inverts_bencoding(v);
}

/// In what is decoded the keys of every dictionary ascend, so that none is there twice.
pub proof fn decoded_is_canonical(s: Seq<u8>)
    ensures
        decode_bytes(s) matches Scan::Read(v, _) ==> canonical(v),
{
    if let Scan::Read(t, _) = scan_tokens(s, 0) {
        parsed_is_canonical(t, 0);
    }
}

proof fn parsed_is_canonical(t: Seq<Lexeme>, i: int)
    ensures
        parse_value(t, i) matches Scan::Read(v, _) ==> canonical(v),
    decreases remaining(t, i), 0int,
{
    if 0 <= i < t.len() {
        items_are_canonical(t, i + 1, Seq::empty());
        entries_are_canonical(t, i + 1, Seq::empty());
    }
}

proof fn items_are_canonical(t: Seq<Lexeme>, i: int, items: Seq<Value>)
    requires
        forall|j: int| 0 <= j < items.len() ==> canonical(#[trigger] items[j]),
    ensures
        parse_items(t, i, items) matches Scan::Read(v, _) ==> canonical(v),
    decreases remaining(t, i), 1int,
{
    if 0 <= i < t.len() && !(t[i] is End) {
        parsed_is_canonical(t, i);
        if let Scan::Read(v, j) = parse_value(t, i) {
            if j > i {
                items_are_canonical(t, j, items.push(v));
            }
        }
    }
}

proof fn entries_are_canonical(t: Seq<Lexeme>, i: int, d: Seq<(Seq<char>, Value)>)
    requires
        ascending(d),
        forall|j: int| 0 <= j < d.len() ==> canonical((#[trigger] d[j]).1),
    ensures
        parse_entries(t, i, d) matches Scan::Read(v, _) ==> canonical(v),
    decreases remaining(t, i), 1int,
{
    if 0 <= i < t.len() {
        if let Lexeme::Bytes(name) = t[i] {
            parsed_is_canonical(t, i + 1);
            if let Scan::Read(v, j) = parse_value(t, i + 1) {
                if j > i {
                    let key = display_text(name);
                    let e = dict_insert(d, key, v);
                    insert_ascends(d, key, v);
                    insert_keeps_canonical(d, key, v);
                    entries_are_canonical(t, j, e);
                }
            }
        }
    }
}

proof fn insert_keeps_canonical(d: Seq<(Seq<char>, Value)>, key: Seq<char>, v: Value)
    requires
        canonical(v),
        forall|j: int| 0 <= j < d.len() ==> canonical((#[trigger] d[j]).1),
    ensures
        forall|j: int|
            0 <= j < dict_insert(d, key, v).len() ==> canonical(
                (#[trigger] dict_insert(d, key, v)[j]).1,
            ),
    decreases d.len(),
{
    let e = dict_insert(d, key, v);
    if d.len() > 0 && d[0].0 != key && !key_before(key, d[0].0) {
        let rest = d.drop_first();
        assert forall|j: int| 0 <= j < rest.len() implies canonical((#[trigger] rest[j]).1) by {
            assert(rest[j] == d[j + 1]);
        }
        insert_keeps_canonical(rest, key, v);
        let tail = dict_insert(rest, key, v);
        assert forall|j: int| 0 <= j < e.len() implies canonical((#[trigger] e[j]).1) by {
            if j > 0 {
                assert(e[j] == tail[j - 1]);
            } else {
                assert(e[0] == d[0]);
            }
        }
    } else {
        assert forall|j: int| 0 <= j < e.len() implies canonical((#[trigger] e[j]).1) by {
            if j > 0 {
                assert(e[j] == d[j] || e[j] == d[j - 1]);
            }
        }
    }
}

/// After a value was put at a key, it is what the key gives, and every other key gives what it
/// gave before.
pub proof fn get_after_insert(d: Seq<(Seq<char>, Value)>, key: Seq<char>, v: Value, other: Seq<char>)
    requires
        ascending(d),
    ensures
        dict_get(dict_insert(d, key, v), other) == (if other == key {
            Some(v)
        } else {
            dict_get(d, other)
        }),
    decreases d.len(),
{
    let e = dict_insert(d, key, v);
    if d.len() == 0 {
        assert(e.drop_first() =~= d);
    } else if d[0].0 == key {
        assert(e.drop_first() =~= d.drop_first());
    } else if key_before(key, d[0].0) {
        assert(e.drop_first() =~= d);
    } else {
        let rest = d.drop_first();
        assert(ascending(rest)) by {
            assert forall|i: int, j: int| 0 <= i < j < rest.len() implies key_before(
                (#[trigger] rest[i]).0,
                (#[trigger] rest[j]).0,
            ) by {
                assert(rest[i] == d[i + 1] && rest[j] == d[j + 1]);
            }
        }
        get_after_insert(rest, key, v, other);
        assert(e.drop_first() =~= dict_insert(rest, key, v));
    }
}

} // verus!
