//! The grammar of bencoding, as mathematics: what a position in a byte sequence or in a
//! token sequence reads as.

use vstd::prelude::*;
use vstd::utf8::{decode_utf8, encode_utf8, encode_utf8_decode_utf8, valid_utf8};

use crate::bytestring::display_text;
use crate::text::{decimal, signed_decimal};

verus! {

/// A bencoded value.
pub enum Value {
    Number(i64),
    Bytes(Seq<u8>),
    List(Seq<Value>),
    /// Entries in ascending order of the bytes of their keys.
    Dict(Seq<(Seq<char>, Value)>),
}

/// A token.
pub enum Lexeme {
    ListBegin,
    DictBegin,
    End,
    Number(i64),
    Bytes(Seq<u8>),
}

/// What reading from a position comes to.
pub enum Scan<T> {
    /// Something was read; the position after it.
    Read(T, int),
    /// The input is invalid; the position where reading stopped.
    Invalid(int),
    /// The input ends where more of it is needed.
    Overrun,
}

/// The position after `i`, held at the largest index.
pub open spec fn step(i: int) -> int {
    if i < usize::MAX {
        i + 1
    } else {
        i
    }
}

pub open spec fn is_digit(b: u8) -> bool {
    48 <= b <= 57
}

/// The end of the run of digits that starts at `i`.
pub open spec fn digits_end(s: Seq<u8>, i: int) -> int
    decreases s.len() - i,
{
    if 0 <= i < s.len() && is_digit(s[i]) {
        digits_end(s, i + 1)
    } else {
        i
    }
}

/// The number that a sequence of digits denotes in base ten.
pub open spec fn digits_value(d: Seq<u8>) -> nat
    decreases d.len(),
{
    if d.len() == 0 {
        0
    } else {
        (digits_value(d.drop_last()) * 10 + (d.last() - 48)) as nat
    }
}

/// An optionally negative decimal number.
pub open spec fn scan_number(s: Seq<u8>, i: int) -> Scan<i64> {
    if is_digit(s[i]) {
        let j = digits_end(s, i);
        let n = digits_value(s.subrange(i, j)) as int;
        if n <= i64::MAX {
            Scan::Read(n as i64, j)
        } else {
            Scan::Invalid(j)
        }
    } else if s[i] == 45 {
        if i + 1 >= s.len() || !is_digit(s[i + 1]) {
            Scan::Invalid(i + 1)
        } else {
            let j = digits_end(s, i + 1);
            let n = -(digits_value(s.subrange(i + 1, j)) as int);
            if i64::MIN <= n {
                Scan::Read(n as i64, j)
            } else {
                Scan::Invalid(j)
            }
        }
    } else {
        Scan::Invalid(i)
    }
}

/// A number between `i` and `e`; the leading `i` may be absent.
pub open spec fn scan_int(s: Seq<u8>, i: int) -> Scan<Lexeme> {
    let k = if s[i] == 105 {
        i + 1
    } else {
        i
    };
    if k >= s.len() {
        Scan::Overrun
    } else {
        match scan_number(s, k) {
            Scan::Read(n, j) => if j >= s.len() {
                Scan::Overrun
            } else if s[j] == 101 {
                Scan::Read(Lexeme::Number(n), j + 1)
            } else {
                Scan::Invalid(j)
            },
            Scan::Invalid(j) => if j >= s.len() {
                Scan::Overrun
            } else if s[j] == 101 {
                Scan::Invalid(j + 1)
            } else {
                Scan::Invalid(j)
            },
            Scan::Overrun => Scan::Overrun,
        }
    }
}

/// A length, a colon, and that many bytes.
pub open spec fn scan_bytes(s: Seq<u8>, i: int) -> Scan<Lexeme> {
    if !is_digit(s[i]) {
        Scan::Invalid(i)
    } else {
        match scan_number(s, i) {
            Scan::Read(n, j) => if n > usize::MAX {
                Scan::Invalid(j)
            } else if j >= s.len() {
                Scan::Overrun
            } else if s[j] != 58 {
                Scan::Invalid(j)
            } else if j + 1 + n > s.len() {
                Scan::Overrun
            } else {
                Scan::Read(Lexeme::Bytes(s.subrange(j + 1, j + 1 + n)), j + 1 + n)
            },
            Scan::Invalid(j) => Scan::Invalid(j),
            Scan::Overrun => Scan::Overrun,
        }
    }
}

/// The token at `i`.
pub open spec fn scan_token(s: Seq<u8>, i: int) -> Scan<Lexeme> {
    if s[i] == 108 {
        Scan::Read(Lexeme::ListBegin, i + 1)
    } else if s[i] == 100 {
        Scan::Read(Lexeme::DictBegin, i + 1)
    } else if s[i] == 101 {
        Scan::Read(Lexeme::End, i + 1)
    } else if s[i] == 105 {
        scan_int(s, i)
    } else {
        scan_bytes(s, i)
    }
}

/// Tokens put before what was read.
pub open spec fn prepend(first: Seq<Lexeme>, rest: Scan<Seq<Lexeme>>) -> Scan<Seq<Lexeme>> {
    match rest {
        Scan::Read(t, j) => Scan::Read(first + t, j),
        Scan::Invalid(j) => Scan::Invalid(j),
        Scan::Overrun => Scan::Overrun,
    }
}

/// The tokens from `i` to the end.
pub open spec fn scan_tokens(s: Seq<u8>, i: int) -> Scan<Seq<Lexeme>>
    decreases s.len() - i,
{
    if i >= s.len() {
        Scan::Read(Seq::empty(), i)
    } else {
        match scan_token(s, i) {
            Scan::Read(t, j) => if j > i {
                prepend(seq![t], scan_tokens(s, j))
            } else {
                Scan::Overrun
            },
            Scan::Invalid(j) => Scan::Invalid(j),
            Scan::Overrun => Scan::Overrun,
        }
    }
}

/// Whether `a` comes before `b` in the order of their bytes.
pub open spec fn bytes_before(a: Seq<u8>, b: Seq<u8>) -> bool
    decreases a.len(),
{
    if b.len() == 0 {
        false
    } else if a.len() == 0 {
        true
    } else if a[0] == b[0] {
        bytes_before(a.drop_first(), b.drop_first())
    } else {
        a[0] < b[0]
    }
}

/// Whether the key `a` comes before the key `b`.
pub open spec fn key_before(a: Seq<char>, b: Seq<char>) -> bool {
    bytes_before(encode_utf8(a), encode_utf8(b))
}

/// Whether the keys ascend strictly.
pub open spec fn ascending(d: Seq<(Seq<char>, Value)>) -> bool {
    forall|i: int, j: int| #![trigger d[i], d[j]] 0 <= i < j < d.len() ==> key_before(d[i].0, d[j].0)
}

/// The dictionary `d` with `value` at `key`, in place of any value that was there.
pub open spec fn dict_insert(d: Seq<(Seq<char>, Value)>, key: Seq<char>, value: Value) -> Seq<
    (Seq<char>, Value),
>
    decreases d.len(),
{
    if d.len() == 0 {
        seq![(key, value)]
    } else if d[0].0 == key {
        seq![(key, value)] + d.drop_first()
    } else if key_before(key, d[0].0) {
        seq![(key, value)] + d
    } else {
        seq![d[0]] + dict_insert(d.drop_first(), key, value)
    }
}

/// The value at `key`.
pub open spec fn dict_get(d: Seq<(Seq<char>, Value)>, key: Seq<char>) -> Option<Value>
    decreases d.len(),
{
    if d.len() == 0 {
        None
    } else if d[0].0 == key {
        Some(d[0].1)
    } else {
        dict_get(d.drop_first(), key)
    }
}

impl Value {
    /// The value at `key`, if this is a dictionary that has one.
    pub open spec fn get(self, key: Seq<char>) -> Option<Value> {
        match self {
            Value::Dict(d) => dict_get(d, key),
            _ => None,
        }
    }

    /// The text of a byte string that is valid UTF-8.
    pub open spec fn text(self) -> Option<Seq<char>> {
        match self {
            Value::Bytes(b) => if valid_utf8(b) {
                Some(decode_utf8(b))
            } else {
                None
            },
            _ => None,
        }
    }

    pub open spec fn number(self) -> Option<i64> {
        match self {
            Value::Number(n) => Some(n),
            _ => None,
        }
    }

    pub open spec fn bytes(self) -> Option<Seq<u8>> {
        match self {
            Value::Bytes(b) => Some(b),
            _ => None,
        }
    }

    pub open spec fn list(self) -> Option<Seq<Value>> {
        match self {
            Value::List(items) => Some(items),
            _ => None,
        }
    }
}

/// How many tokens there are from `i` on.
pub open spec fn remaining(t: Seq<Lexeme>, i: int) -> nat {
    if i < t.len() {
        (t.len() - i) as nat
    } else {
        0
    }
}

/// The value whose tokens start at `i`.
pub open spec fn parse_value(t: Seq<Lexeme>, i: int) -> Scan<Value>
    decreases remaining(t, i), 0int,
{
    if i < 0 || i >= t.len() {
        Scan::Overrun
    } else {
        match t[i] {
            Lexeme::Number(n) => Scan::Read(Value::Number(n), i + 1),
            Lexeme::Bytes(b) => Scan::Read(Value::Bytes(b), i + 1),
            Lexeme::ListBegin => parse_items(t, i + 1, Seq::empty()),
            Lexeme::DictBegin => parse_entries(t, i + 1, Seq::empty()),
            Lexeme::End => Scan::Invalid(i),
        }
    }
}

/// A list whose first items are `items`, the rest of which starts at `i`. It ends at an `e`
/// or with the last token.
pub open spec fn parse_items(t: Seq<Lexeme>, i: int, items: Seq<Value>) -> Scan<Value>
    decreases remaining(t, i), 1int,
{
    if i < 0 || i >= t.len() || t[i] is End {
        Scan::Read(Value::List(items), step(i))
    } else {
        match parse_value(t, i) {
            Scan::Read(v, j) => if j > i {
                parse_items(t, j, items.push(v))
            } else {
                Scan::Overrun
            },
            Scan::Invalid(j) => Scan::Invalid(j),
            Scan::Overrun => Scan::Overrun,
        }
    }
}

/// A dictionary whose first entries are `d`, the rest of which starts at `i`.
pub open spec fn parse_entries(t: Seq<Lexeme>, i: int, d: Seq<(Seq<char>, Value)>) -> Scan<Value>
    decreases remaining(t, i), 1int,
{
    if i < 0 || i >= t.len() {
        Scan::Overrun
    } else {
        match t[i] {
            Lexeme::End => Scan::Read(Value::Dict(d), i + 1),
            Lexeme::Bytes(key) => match parse_value(t, i + 1) {
                Scan::Read(v, j) => if j > i {
                    parse_entries(t, j, dict_insert(d, display_text(key), v))
                } else {
                    Scan::Overrun
                },
                Scan::Invalid(j) => Scan::Invalid(j),
                Scan::Overrun => Scan::Overrun,
            },
            _ => Scan::Invalid(i),
        }
    }
}

/// What a whole input decodes to. What follows the first value is only read as tokens.
pub open spec fn decode_bytes(s: Seq<u8>) -> Scan<Value> {
    match scan_tokens(s, 0) {
        Scan::Read(t, _) => parse_value(t, 0),
        Scan::Invalid(j) => Scan::Invalid(j),
        Scan::Overrun => Scan::Overrun,
    }
}

/// The text of a value. A byte string stands in it as it displays.
pub open spec fn encoded(v: Value) -> Seq<char>
    decreases v,
{
    match v {
        Value::Number(n) => seq!['i'] + signed_decimal(n as int) + seq!['e'],
        Value::Bytes(b) => decimal(b.len()) + seq![':'] + display_text(b),
        Value::List(items) => seq!['l'] + encoded_items(items) + seq!['e'],
        Value::Dict(d) => seq!['d'] + encoded_entries(d) + seq!['e'],
    }
}

/// The texts of values, one after another.
pub open spec fn encoded_items(items: Seq<Value>) -> Seq<char>
    decreases items,
{
    if items.len() == 0 {
        Seq::empty()
    } else {
        encoded_items(items.drop_last()) + encoded(items.last())
    }
}

/// The text of a key: its length in bytes, a colon, and the key.
pub open spec fn encoded_key(key: Seq<char>) -> Seq<char> {
    decimal(encode_utf8(key).len()) + seq![':'] + key
}

/// The texts of entries, one after another.
pub open spec fn encoded_entries(d: Seq<(Seq<char>, Value)>) -> Seq<char>
    decreases d,
{
    if d.len() == 0 {
        Seq::empty()
    } else {
        encoded_entries(d.drop_last()) + encoded_key(d.last().0) + encoded(d.last().1)
    }
}

/// Reading goes forward.
pub proof fn parse_advances(t: Seq<Lexeme>, i: int)
    requires
        t.len() <= usize::MAX,
    ensures
        parse_value(t, i) matches Scan::Read(_, j) ==> i < j <= usize::MAX,
        parse_value(t, i) matches Scan::Invalid(j) ==> i <= j < t.len(),
    decreases remaining(t, i), 0int,
{
    if 0 <= i < t.len() {
        items_advance(t, i + 1, Seq::empty());
        entries_advance(t, i + 1, Seq::empty());
    }
}

proof fn items_advance(t: Seq<Lexeme>, i: int, items: Seq<Value>)
    requires
        0 <= i <= usize::MAX,
        t.len() <= usize::MAX,
    ensures
        parse_items(t, i, items) matches Scan::Read(_, j) ==> i <= j <= usize::MAX,
        parse_items(t, i, items) matches Scan::Invalid(j) ==> i <= j < t.len(),
    decreases remaining(t, i), 1int,
{
    if 0 <= i < t.len() && !(t[i] is End) {
        parse_advances(t, i);
        if let Scan::Read(v, j) = parse_value(t, i) {
            items_advance(t, j, items.push(v));
        }
    }
}

proof fn entries_advance(t: Seq<Lexeme>, i: int, d: Seq<(Seq<char>, Value)>)
    requires
        0 <= i <= usize::MAX,
        t.len() <= usize::MAX,
    ensures
        parse_entries(t, i, d) matches Scan::Read(_, j) ==> i < j <= usize::MAX,
        parse_entries(t, i, d) matches Scan::Invalid(j) ==> i <= j < t.len(),
    decreases remaining(t, i), 1int,
{
    if 0 <= i < t.len() {
        if let Lexeme::Bytes(key) = t[i] {
            parse_advances(t, i + 1);
            if let Scan::Read(v, j) = parse_value(t, i + 1) {
                entries_advance(t, j, dict_insert(d, display_text(key), v));
            }
        }
    }
}

/// A run of digits ends inside the input.
pub proof fn digits_end_bounds(s: Seq<u8>, i: int)
    requires
        0 <= i <= s.len(),
    ensures
        i <= digits_end(s, i) <= s.len(),
        i < s.len() && is_digit(s[i]) ==> i < digits_end(s, i),
        forall|k: int| i <= k < digits_end(s, i) ==> is_digit(#[trigger] s[k]),
        digits_end(s, i) < s.len() ==> !is_digit(s[digits_end(s, i)]),
    decreases s.len() - i,
{
    if i < s.len() && is_digit(s[i]) {
        digits_end_bounds(s, i + 1);
    }
}

/// A token takes up at least one byte and ends inside the input.
pub proof fn token_advances(s: Seq<u8>, i: int)
    requires
        0 <= i < s.len(),
    ensures
        scan_token(s, i) matches Scan::Read(_, j) ==> i < j <= s.len(),
{
    digits_end_bounds(s, i);
    digits_end_bounds(s, i + 1);
    if i + 2 <= s.len() {
        digits_end_bounds(s, i + 2);
    }
}


/// The order of bytes is transitive.
pub proof fn bytes_before_transitive(a: Seq<u8>, b: Seq<u8>, c: Seq<u8>)
    requires
        bytes_before(a, b),
        bytes_before(b, c),
    ensures
        bytes_before(a, c),
    decreases a.len(),
{
    if a.len() > 0 && a[0] == b[0] && b[0] == c[0] {
        bytes_before_transitive(a.drop_first(), b.drop_first(), c.drop_first());
    }
}

/// Of two different byte sequences one comes before the other.
pub proof fn bytes_before_total(a: Seq<u8>, b: Seq<u8>)
    requires
        a != b,
    ensures
        bytes_before(a, b) || bytes_before(b, a),
    decreases a.len(),
{
    if a.len() > 0 && b.len() > 0 && a[0] == b[0] {
        if a.drop_first() == b.drop_first() {
            assert(a =~= seq![a[0]] + a.drop_first());
            assert(b =~= seq![b[0]] + b.drop_first());
        }
        bytes_before_total(a.drop_first(), b.drop_first());
    } else if a.len() == 0 && b.len() == 0 {
        assert(a =~= b);
    }
}

/// No byte sequence comes before itself.
pub proof fn bytes_before_irreflexive(a: Seq<u8>)
    ensures
        !bytes_before(a, a),
    decreases a.len(),
{
    if a.len() > 0 {
        bytes_before_irreflexive(a.drop_first());
    }
}

/// Of two different keys one comes before the other.
pub proof fn key_before_total(a: Seq<char>, b: Seq<char>)
    requires
        a != b,
    ensures
        key_before(a, b) || key_before(b, a),
{
    encode_utf8_decode_utf8(a);
    encode_utf8_decode_utf8(b);
    bytes_before_total(encode_utf8(a), encode_utf8(b));
}

/// Inserting keeps the keys ascending.
pub proof fn insert_ascends(d: Seq<(Seq<char>, Value)>, key: Seq<char>, value: Value)
    ensures
        ascending(d) ==> ascending(dict_insert(d, key, value)),
        forall|i: int|
            #![trigger dict_insert(d, key, value)[i]]
            0 <= i < dict_insert(d, key, value).len() ==> dict_insert(d, key, value)[i].0 == key
                || exists|k: int| 0 <= k < d.len() && d[k] == dict_insert(d, key, value)[i],
    decreases d.len(),
{
    let e = dict_insert(d, key, value);
    if d.len() > 0 && d[0].0 != key && !key_before(key, d[0].0) {
        let rest = d.drop_first();
        insert_ascends(rest, key, value);
        key_before_total(key, d[0].0);
        let tail = dict_insert(rest, key, value);
        assert(e =~= seq![d[0]] + tail);
        assert forall|i: int| 0 <= i < e.len() implies e[i].0 == key || exists|k: int|
            0 <= k < d.len() && d[k] == #[trigger] e[i] by {
            if i == 0 {
                assert(d[0] == e[0]);
            } else {
                assert(e[i] == tail[i - 1]);
                if tail[i - 1].0 != key {
                    let k = choose|k: int| 0 <= k < rest.len() && rest[k] == tail[i - 1];
                    assert(d[k + 1] == e[i]);
                }
            }
        }
        if ascending(d) {
            assert(ascending(rest)) by {
                assert forall|i: int, j: int| 0 <= i < j < rest.len() implies key_before(
                    (#[trigger] rest[i]).0,
                    (#[trigger] rest[j]).0,
                ) by {
                    assert(rest[i] == d[i + 1] && rest[j] == d[j + 1]);
                }
            }
            assert forall|i: int, j: int| 0 <= i < j < e.len() implies key_before(
                (#[trigger] e[i]).0,
                (#[trigger] e[j]).0,
            ) by {
                assert(e[j] == tail[j - 1]);
                if i == 0 {
                    if tail[j - 1].0 != key {
                        let k = choose|k: int| 0 <= k < rest.len() && rest[k] == tail[j - 1];
                        assert(d[k + 1] == e[j]);
                        assert(key_before(d[0].0, d[k + 1].0));
                    }
                } else {
                    assert(e[i] == tail[i - 1]);
                }
            }
        }
    } else if d.len() > 0 && d[0].0 == key {
        assert forall|i: int| 0 <= i < e.len() implies e[i].0 == key || exists|k: int|
            0 <= k < d.len() && d[k] == #[trigger] e[i] by {
            if i > 0 {
                assert(e[i] == d[i]);
            }
        }
        if ascending(d) {
            assert forall|i: int, j: int| 0 <= i < j < e.len() implies key_before(
                (#[trigger] e[i]).0,
                (#[trigger] e[j]).0,
            ) by {
                assert(e[j] == d[j]);
                assert(e[i].0 == d[i].0);
            }
        }
    } else if d.len() > 0 {
        assert forall|i: int| 0 <= i < e.len() implies e[i].0 == key || exists|k: int|
            0 <= k < d.len() && d[k] == #[trigger] e[i] by {
            if i > 0 {
                assert(e[i] == d[i - 1]);
            }
        }
        if ascending(d) {
            assert forall|i: int, j: int| 0 <= i < j < e.len() implies key_before(
                (#[trigger] e[i]).0,
                (#[trigger] e[j]).0,
            ) by {
                assert(e[j] == d[j - 1]);
                if i == 0 {
                    if j > 1 {
                        assert(key_before(d[0].0, d[j - 1].0));
                        bytes_before_transitive(
                            encode_utf8(key),
                            encode_utf8(d[0].0),
                            encode_utf8(d[j - 1].0),
                        );
                    }
                } else {
                    assert(e[i] == d[i - 1]);
                }
            }
        }
    }
}

} // verus!
