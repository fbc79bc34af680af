//! What bytes read as, token by token, and how dictionaries keep their entries.

use vstd::prelude::*;

use crate::grammar::{
    bytes_before, dict_get, dict_insert, digits_end, digits_value, is_digit, key_before, scan_token,
    Lexeme, Scan, Value,
};

verus! {

/// A dictionary gives the value that was put in last under a key, and what it gave before under
/// every other key.
pub proof fn last_values_are_found(
    d: Seq<(Seq<char>, Value)>,
    key: Seq<char>,
    value: Value,
    other: Seq<char>,
)
    ensures
        dict_get(dict_insert(d, key, value), other) == if other == key {
            Some(value)
        } else {
            dict_get(d, other)
        },
    decreases d.len(),
{
    let e = dict_insert(d, key, value);
    reveal_with_fuel(dict_get, 2);
    if d.len() == 0 {
        assert(e.drop_first() =~= Seq::empty());
    } else {
        let rest = d.drop_first();
        if d[0].0 == key {
            assert(e.drop_first() =~= rest);
        } else if key_before(key, d[0].0) {
            assert(e.drop_first() =~= d);
        } else {
            last_values_are_found(rest, key, value, other);
            assert(e.drop_first() =~= dict_insert(rest, key, value));
        }
    }
}

/// Of two byte sequences the one comes first that is the beginning of the other, or that has the
/// smaller byte where they differ first.
pub proof fn bytes_are_compared_from_the_front(a: Seq<u8>, b: Seq<u8>, k: int)
    requires
        0 <= k <= a.len(),
        k <= b.len(),
        a.take(k) == b.take(k),
        k < a.len() && k < b.len() ==> a[k] != b[k],
    ensures
        bytes_before(a, b) <==> k < b.len() && (k == a.len() || a[k] < b[k]),
        k == a.len() || k == b.len() || a[k] != b[k],
    decreases k,
{
    if k > 0 {
        assert(a.take(k)[0] == a[0]);
        assert(b.take(k)[0] == b[0]);
        assert(k < a.len() ==> a.drop_first()[k - 1] == a[k]);
        assert(k < b.len() ==> b.drop_first()[k - 1] == b[k]);
        assert(a.drop_first().take(k - 1) =~= a.take(k).drop_first());
        assert(b.drop_first().take(k - 1) =~= b.take(k).drop_first());
        bytes_are_compared_from_the_front(a.drop_first(), b.drop_first(), k - 1);
    }
}

/// The number that the decimal digits from `i` up to `j` denote.
pub open spec fn number_in(s: Seq<u8>, i: int, j: int) -> int
    decreases j - i,
{
    if j <= i {
        0
    } else {
        number_in(s, i, j - 1) * 10 + (s[j - 1] - 48)
    }
}

/// Whether there are digits from `i` up to `j`, and no digit at `j`.
pub open spec fn digits_from(s: Seq<u8>, i: int, j: int) -> bool {
    &&& 0 <= i < j < s.len()
    &&& forall|k: int| i <= k < j ==> 48 <= #[trigger] s[k] <= 57
    &&& !(48 <= s[j] <= 57)
}

proof fn digits_are_read(s: Seq<u8>, i: int, j: int)
    requires
        digits_from(s, i, j),
    ensures
        digits_end(s, i) == j,
        digits_value(s.subrange(i, j)) == number_in(s, i, j),
{
    run_of_digits(s, i, j);
    value_of_digits(s, i, j);
}

proof fn run_of_digits(s: Seq<u8>, i: int, j: int)
    requires
        0 <= i <= j < s.len(),
        forall|k: int| i <= k < j ==> 48 <= #[trigger] s[k] <= 57,
        !(48 <= s[j] <= 57),
    ensures
        digits_end(s, i) == j,
    decreases j - i,
{
    if i < j {
        assert(is_digit(s[i]));
        run_of_digits(s, i + 1, j);
    }
}

/// Digits denote the number that they stand for, place by place.
pub proof fn value_of_digits(s: Seq<u8>, i: int, j: int)
    requires
        0 <= i <= j <= s.len(),
        forall|k: int| i <= k < j ==> 48 <= #[trigger] s[k] <= 57,
    ensures
        digits_value(s.subrange(i, j)) == number_in(s, i, j),
        0 <= number_in(s, i, j),
    decreases j - i,
{
    if i < j {
        value_of_digits(s, i, j - 1);
        assert(s.subrange(i, j).drop_last() =~= s.subrange(i, j - 1));
        assert(s.subrange(i, j).last() == s[j - 1]);
    } else {
        assert(s.subrange(i, j) =~= Seq::empty());
    }
}

/// An `i`, digits and an `e` read as the number of the digits, with a minus sign in front of them
/// as the negative one, as long as it fits in 64 bits.
pub proof fn numbers_stand_between_i_and_e(s: Seq<u8>, i: int, j: int)
    requires
        0 <= i,
        i + 1 < j < s.len(),
        s[i] == 105,
        s[j] == 101,
    ensures
        digits_from(s, i + 1, j) && number_in(s, i + 1, j) <= i64::MAX ==> scan_token(s, i)
            == Scan::Read(Lexeme::Number(number_in(s, i + 1, j) as i64), j + 1),
        s[i + 1] == 45 && digits_from(s, i + 2, j) && -number_in(s, i + 2, j) >= i64::MIN
            ==> scan_token(s, i) == Scan::Read(
            Lexeme::Number((-number_in(s, i + 2, j)) as i64),
            j + 1,
        ),
{
    if digits_from(s, i + 1, j) {
        digits_are_read(s, i + 1, j);
    }
    if s[i + 1] == 45 && digits_from(s, i + 2, j) {
        digits_are_read(s, i + 2, j);
    }
}

/// Digits, a colon and as many bytes as the digits say read as those bytes.
pub proof fn strings_stand_behind_their_lengths(s: Seq<u8>, i: int, j: int)
    requires
        digits_from(s, i, j),
        s[j] == 58,
        number_in(s, i, j) <= i64::MAX,
        j + 1 + number_in(s, i, j) <= s.len(),
        s.len() <= usize::MAX,
    ensures
        scan_token(s, i) == Scan::Read(
            Lexeme::Bytes(s.subrange(j + 1, j + 1 + number_in(s, i, j))),
            j + 1 + number_in(s, i, j),
        ),
{
    digits_are_read(s, i, j);
    value_of_digits(s, i, j);
    assert(48 <= s[i] <= 57);
}

/// An `l` begins a list, a `d` a dictionary, and an `e` ends either.
pub proof fn letters_begin_and_end(s: Seq<u8>, i: int)
    requires
        0 <= i < s.len(),
    ensures
        s[i] == 108 ==> scan_token(s, i) == Scan::Read(Lexeme::ListBegin, i + 1),
        s[i] == 100 ==> scan_token(s, i) == Scan::Read(Lexeme::DictBegin, i + 1),
        s[i] == 101 ==> scan_token(s, i) == Scan::Read(Lexeme::End, i + 1),
{
}

} // verus!
