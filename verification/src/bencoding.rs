//! Bencoding: tokens, values, parsing and encoding.

use bstr::BString;
use vstd::prelude::*;
use vstd::string::*;
use vstd::utf8::{decode_utf8, encode_utf8, encode_utf8_decode_utf8, valid_utf8};

use crate::bytestring::{
    bstring_as_ref, bstring_bytes, bstring_clone, bstring_new, bstring_to_string,
};
use crate::grammar::{
    ascending, bytes_before, decode_bytes, dict_get, dict_insert, digits_end, digits_value, encoded,
    encoded_entries, encoded_items, insert_ascends, is_digit, key_before, parse_advances,
    parse_entries, parse_items, parse_value, prepend, remaining, scan_bytes, scan_int, scan_number,
    scan_token, scan_tokens, token_advances, Lexeme, Scan, Value,
};
use crate::octets::copy_range;
use crate::text::{from_utf8, push_decimal, push_signed};

verus! {

/// Representation of a value that can be bencoded.
#[derive(PartialEq, Debug)]
pub enum Bencodable {
    Number(i64),
    String(BString),
    List(Vec<Bencodable>),
    Dict(Dict),
}

/// A dictionary: entries in ascending order of the bytes of their keys, no key twice.
#[derive(PartialEq, Debug)]
pub struct Dict {
    pub entries: Vec<(String, Bencodable)>,
}

#[derive(PartialEq, Debug)]
pub enum Token {
    /// `l`
    ListBegin,
    /// `d`
    DictBegin,
    /// `e`
    End,
    /// any number
    Number(i64),
    String(BString),
}

#[derive(Debug)]
pub enum ParsingError {
    InvalidInput,
}

pub type TokenizeResult = Result<Token, ParsingError>;

impl Token {
    /// The token that this stands for.
    pub open spec fn lexeme(&self) -> Lexeme {
        match self {
            Token::ListBegin => Lexeme::ListBegin,
            Token::DictBegin => Lexeme::DictBegin,
            Token::End => Lexeme::End,
            Token::Number(n) => Lexeme::Number(*n),
            Token::String(s) => Lexeme::Bytes(bstring_bytes(*s)),
        }
    }
}

/// The tokens that a sequence stands for.
pub open spec fn lexemes(tokens: Seq<Token>) -> Seq<Lexeme> {
    tokens.map_values(|t: Token| t.lexeme())
}

impl Bencodable {
    /// The value that this tree stands for.
    pub open spec fn value(&self) -> Value
        decreases self,
    {
        match self {
            Bencodable::Number(n) => Value::Number(*n),
            Bencodable::String(s) => Value::Bytes(bstring_bytes(*s)),
            Bencodable::List(list) => Value::List(
                Seq::new(
                    list@.len(),
                    |i: int|
                        if 0 <= i < list@.len() {
                            list@[i].value()
                        } else {
                            Value::Number(0)
                        },
                ),
            ),
            Bencodable::Dict(dict) => Value::Dict(
                Seq::new(
                    dict.entries@.len(),
                    |i: int|
                        if 0 <= i < dict.entries@.len() {
                            (dict.entries@[i].0@, dict.entries@[i].1.value())
                        } else {
                            (Seq::empty(), Value::Number(0))
                        },
                ),
            ),
        }
    }
}

/// The values of a sequence of trees.
pub open spec fn values(list: Seq<Bencodable>) -> Seq<Value> {
    list.map_values(|b: Bencodable| b.value())
}

impl Dict {
    /// The entries, keys and values as what they stand for.
    pub open spec fn view(&self) -> Seq<(Seq<char>, Value)> {
        self.entries@.map_values(|e: (String, Bencodable)| (e.0@, e.1.value()))
    }

    /// Whether the keys ascend strictly.
    pub open spec fn well_formed(&self) -> bool {
        ascending(self@)
    }
}

/// A list stands for the values of its items.
pub proof fn list_value(list: Vec<Bencodable>)
    ensures
        Bencodable::List(list).value() == Value::List(values(list@)),
{
    assert(Bencodable::List(list).value()->List_0 =~= values(list@));
}

/// A dictionary stands for its entries.
pub proof fn dict_value(dict: Dict)
    ensures
        Bencodable::Dict(dict).value() == Value::Dict(dict@),
{
    assert(Bencodable::Dict(dict).value()->Dict_0 =~= dict@);
}

/// Whether the bytes of `a` equal, come before, or come after those of `b`.
enum ByteOrder {
    Before,
    Same,
    After,
}

fn byte_order(a: &[u8], b: &[u8]) -> (order: ByteOrder)
    ensures
        match order {
            ByteOrder::Before => a@ != b@ && bytes_before(a@, b@),
            ByteOrder::Same => a@ == b@,
            ByteOrder::After => a@ != b@ && !bytes_before(a@, b@),
        },
{
    let mut i: usize = 0;
    assert(a@.skip(0) =~= a@ && b@.skip(0) =~= b@);
    while i < a.len() && i < b.len() && a[i] == b[i]
        invariant
            i <= a.len(),
            i <= b.len(),
            a@.take(i as int) == b@.take(i as int),
            bytes_before(a@, b@) == bytes_before(a@.skip(i as int), b@.skip(i as int)),
        decreases a.len() - i,
    {
        assert(a@.skip(i as int).drop_first() =~= a@.skip(i + 1));
        assert(b@.skip(i as int).drop_first() =~= b@.skip(i + 1));
        assert(a@.take(i + 1) =~= a@.take(i as int).push(a@[i as int]));
        assert(b@.take(i + 1) =~= b@.take(i as int).push(b@[i as int]));
        i += 1;
    }
    if i == b.len() {
        if i == a.len() {
            assert(a@ =~= a@.take(i as int) && b@ =~= b@.take(i as int));
            ByteOrder::Same
        } else {
            ByteOrder::After
        }
    } else if i == a.len() {
        ByteOrder::Before
    } else {
        assert(a@[i as int] == a@.skip(i as int)[0] && b@[i as int] == b@.skip(i as int)[0]);
        if a[i] < b[i] {
            ByteOrder::Before
        } else {
            ByteOrder::After
        }
    }
}

fn key_order(a: &str, b: &str) -> (order: ByteOrder)
    ensures
        match order {
            ByteOrder::Before => a@ != b@ && key_before(a@, b@),
            ByteOrder::Same => a@ == b@,
            ByteOrder::After => a@ != b@ && !key_before(a@, b@),
        },
{
    proof {
        encode_utf8_decode_utf8(a@);
        encode_utf8_decode_utf8(b@);
    }
    byte_order(a.as_bytes(), b.as_bytes())
}


/// Reads an optionally negative number at `index` and moves `index` past its digits.
pub fn tokenize_general_number(chars: &Vec<u8>, index: &mut usize) -> (res: Result<
    i64,
    ParsingError,
>)
    requires
        *old(index) < chars.len(),
    ensures
        match scan_number(chars@, *old(index) as int) {
            Scan::Read(n, j) => res == Ok::<i64, ParsingError>(n) && *final(index) == j,
            Scan::Invalid(j) => res is Err && *final(index) == j,
            Scan::Overrun => false,
        },
        *final(index) <= chars.len(),
{
    if !(is_ascii_digit(chars[*index]) || chars[*index] == 45) {
        return Err(ParsingError::InvalidInput);
    }
    let negative: bool = chars[*index] == 45;
    if negative {
        *index += 1;
        if *index >= chars.len() || !is_ascii_digit(chars[*index]) {
            return Err(ParsingError::InvalidInput);
        }
    }
    let (magnitude, fits): (u64, bool) = read_digits(chars, index);
    if negative {
        if fits && magnitude <= 0x8000_0000_0000_0000 {
            if magnitude == 0x8000_0000_0000_0000 {
                Ok(i64::MIN)
            } else {
                Ok(-(magnitude as i64))
            }
        } else {
            Err(ParsingError::InvalidInput)
        }
    } else if fits && magnitude <= 0x7fff_ffff_ffff_ffff {
        Ok(magnitude as i64)
    } else {
        Err(ParsingError::InvalidInput)
    }
}

fn is_ascii_digit(b: u8) -> (res: bool)
    ensures
        res == is_digit(b),
{
    48 <= b && b <= 57
}

/// Reads the run of digits at `index` and moves `index` past it. The number comes with
/// whether it fits.
fn read_digits(chars: &Vec<u8>, index: &mut usize) -> (res: (u64, bool))
    requires
        *old(index) <= chars.len(),
    ensures
        *final(index) == digits_end(chars@, *old(index) as int),
        *old(index) <= *final(index) <= chars.len(),
        ({
            let n = digits_value(chars@.subrange(*old(index) as int, *final(index) as int));
            if res.1 {
                res.0 == n
            } else {
                n > u64::MAX
            }
        }),
{
    let ghost start = *index as int;
    let mut n: u64 = 0;
    let mut fits: bool = true;
    assert(chars@.subrange(start, start) =~= Seq::<u8>::empty());
    while *index < chars.len() && is_ascii_digit(chars[*index])
        invariant
            0 <= start <= *index <= chars.len(),
            digits_end(chars@, start) == digits_end(chars@, *index as int),
            ({
                let v = digits_value(chars@.subrange(start, *index as int));
                if fits {
                    n == v
                } else {
                    v > u64::MAX
                }
            }),
        decreases chars.len() - *index,
    {
        let d: u64 = (chars[*index] - 48) as u64;
        proof {
            let longer = chars@.subrange(start, *index + 1);
            assert(longer.drop_last() =~= chars@.subrange(start, *index as int));
            assert(longer.last() == chars@[*index as int]);
        }
        if fits {
            if n > (u64::MAX - d) / 10 {
                fits = false;
            } else {
                n = n * 10 + d;
            }
        }
        *index += 1;
    }
    (n, fits)
}

/// Reads `i`, a number and `e`, or finds that the input ends before that. The `i` may be
/// absent.
fn read_int(chars: &Vec<u8>, index: &mut usize) -> (res: Option<TokenizeResult>)
    requires
        *old(index) < chars.len(),
    ensures
        scanned(scan_int(chars@, *old(index) as int), res, *final(index) as int),
{
    if chars[*index] == 105 {
        *index += 1;
    }
    if *index >= chars.len() {
        return None;
    }
    let res: Result<i64, ParsingError> = tokenize_general_number(chars, index);
    if *index >= chars.len() {
        return None;
    }
    if chars[*index] == 101 {
        *index += 1;
    } else {
        return Some(Err(ParsingError::InvalidInput));
    }
    match res {
        Ok(n) => Some(Ok(Token::Number(n))),
        Err(e) => Some(Err(e)),
    }
}

/// Whether a reader that returned `res` and left off at `at` did what `scan` says.
pub open spec fn scanned(scan: Scan<Lexeme>, res: Option<TokenizeResult>, at: int) -> bool {
    match scan {
        Scan::Read(t, j) => at == j && match res {
            Some(Ok(token)) => token.lexeme() == t,
            _ => false,
        },
        Scan::Invalid(j) => at == j && match res {
            Some(Err(_)) => true,
            _ => false,
        },
        Scan::Overrun => res is None,
    }
}

/// Reads a length, a colon and that many bytes, or finds that the input ends before that.
fn read_text(chars: &Vec<u8>, index: &mut usize) -> (res: Option<TokenizeResult>)
    requires
        *old(index) < chars.len(),
    ensures
        scanned(scan_bytes(chars@, *old(index) as int), res, *final(index) as int),
{
    if !is_ascii_digit(chars[*index]) {
        return Some(Err(ParsingError::InvalidInput));
    }
    let length: i64 = match tokenize_general_number(chars, index) {
        Ok(n) => n,
        Err(e) => return Some(Err(e)),
    };
    if length as u64 > usize::MAX as u64 {
        return Some(Err(ParsingError::InvalidInput));
    }
    let length: usize = length as usize;
    if *index >= chars.len() {
        return None;
    }
    if chars[*index] == 58 {
        *index += 1;
    } else {
        return Some(Err(ParsingError::InvalidInput));
    }
    if length > chars.len() - *index {
        return None;
    }
    let bytes: Vec<u8> = copy_range(chars.as_slice(), *index, *index + length);
    *index += length;
    Some(Ok(Token::String(bstring_new(bytes))))
}

/// Reads the token at `index`, or finds that the input ends inside it.
fn read_token(chars: &Vec<u8>, index: &mut usize) -> (res: Option<TokenizeResult>)
    requires
        *old(index) < chars.len(),
    ensures
        scanned(scan_token(chars@, *old(index) as int), res, *final(index) as int),
{
    let c: u8 = chars[*index];
    if c == 108 {
        *index += 1;
        Some(Ok(Token::ListBegin))
    } else if c == 100 {
        *index += 1;
        Some(Ok(Token::DictBegin))
    } else if c == 101 {
        *index += 1;
        Some(Ok(Token::End))
    } else if c == 105 {
        read_int(chars, index)
    } else {
        read_text(chars, index)
    }
}

/// Reads the whole input as tokens, or finds that it ends inside one.
fn read_tokens(chars: &Vec<u8>) -> (res: Option<Result<Vec<Token>, ParsingError>>)
    ensures
        match scan_tokens(chars@, 0) {
            Scan::Read(t, _) => res matches Some(Ok(tokens)) && lexemes(tokens@) == t,
            Scan::Invalid(_) => res matches Some(Err(_)),
            Scan::Overrun => res is None,
        },
{
    let mut idx: usize = 0;
    let mut tokens: Vec<Token> = Vec::new();
    assert(prepend(lexemes(tokens@), scan_tokens(chars@, 0)) =~= scan_tokens(chars@, 0)) by {
        if let Scan::Read(t, _) = scan_tokens(chars@, 0) {
            assert(lexemes(tokens@) + t =~= t);
        }
    }
    while idx < chars.len()
        invariant
            idx <= chars.len(),
            scan_tokens(chars@, 0) == prepend(lexemes(tokens@), scan_tokens(chars@, idx as int)),
        decreases chars.len() - idx,
    {
        let ghost before = tokens@;
        let ghost at = idx as int;
        proof {
            token_advances(chars@, at);
        }
        match read_token(chars, &mut idx) {
            None => {
                return None;
            },
            Some(Err(e)) => {
                return Some(Err(e));
            },
            Some(Ok(token)) => {
                tokens.push(token);
                proof {
                    assert(lexemes(tokens@) =~= lexemes(before).push(token.lexeme()));
                    if let Scan::Read(t, _) = scan_tokens(chars@, idx as int) {
                        assert(lexemes(before) + (seq![token.lexeme()] + t) =~= lexemes(tokens@)
                            + t);
                    }
                }
            },
        }
    }
    proof {
        assert(lexemes(tokens@) + Seq::<Lexeme>::empty() =~= lexemes(tokens@));
    }
    Some(Ok(tokens))
}

/// Reads a number between `i` and `e` at `index`; the `i` may be absent.
pub fn tokenize_int(chars: &Vec<u8>, index: &mut usize) -> (res: TokenizeResult)
    requires
        *old(index) < chars.len(),
        scan_int(chars@, *old(index) as int) !is Overrun,
    ensures
        scanned(scan_int(chars@, *old(index) as int), Some(res), *final(index) as int),
{
    match read_int(chars, index) {
        Some(res) => res,
        None => Err(ParsingError::InvalidInput),
    }
}

/// Reads a byte string at `index`.
pub fn tokenize_string(chars: &Vec<u8>, index: &mut usize) -> (res: TokenizeResult)
    requires
        *old(index) < chars.len(),
        scan_bytes(chars@, *old(index) as int) !is Overrun,
    ensures
        scanned(scan_bytes(chars@, *old(index) as int), Some(res), *final(index) as int),
{
    match read_text(chars, index) {
        Some(res) => res,
        None => Err(ParsingError::InvalidInput),
    }
}

/// Reads the token at `index`.
pub fn tokenize_next(chars: &Vec<u8>, index: &mut usize) -> (res: TokenizeResult)
    requires
        *old(index) < chars.len(),
        scan_token(chars@, *old(index) as int) !is Overrun,
    ensures
        scanned(scan_token(chars@, *old(index) as int), Some(res), *final(index) as int),
{
    match read_token(chars, index) {
        Some(res) => res,
        None => Err(ParsingError::InvalidInput),
    }
}

/// Reads the whole input as tokens.
pub fn tokenize(chars: Vec<u8>) -> (res: Result<Vec<Token>, ParsingError>)
    requires
        scan_tokens(chars@, 0) !is Overrun,
    ensures
        match scan_tokens(chars@, 0) {
            Scan::Read(t, _) => res matches Ok(tokens) && lexemes(tokens@) == t,
            _ => res is Err,
        },
{
    match read_tokens(&chars) {
        Some(res) => res,
        None => Err(ParsingError::InvalidInput),
    }
}

/// Whether a parser that returned `res` and left off at `at` did what `scan` says.
pub open spec fn parsed(
    scan: Scan<Value>,
    res: Option<Result<Bencodable, ParsingError>>,
    at: int,
) -> bool {
    match scan {
        Scan::Read(v, j) => at == j && match res {
            Some(Ok(b)) => b.value() == v,
            _ => false,
        },
        Scan::Invalid(j) => at == j && match res {
            Some(Err(_)) => true,
            _ => false,
        },
        Scan::Overrun => res is None,
    }
}

/// Builds the value whose tokens start at `index`, or finds that they end inside it.
fn read_value(tokens: &Vec<Token>, index: &mut usize) -> (res: Option<
    Result<Bencodable, ParsingError>,
>)
    ensures
        parsed(parse_value(lexemes(tokens@), *old(index) as int), res, *final(index) as int),
    decreases tokens.len() - *old(index), 0int,
{
    let ghost t = lexemes(tokens@);
    if *index >= tokens.len() {
        return None;
    }
    assert(t[*index as int] == tokens@[*index as int].lexeme());
    match &tokens[*index] {
        Token::Number(num) => {
            *index += 1;
            Some(Ok(Bencodable::Number(*num)))
        },
        Token::String(s) => {
            *index += 1;
            Some(Ok(Bencodable::String(bstring_clone(s))))
        },
        Token::DictBegin => {
            *index += 1;
            read_entries(tokens, index)
        },
        Token::ListBegin => {
            *index += 1;
            read_items(tokens, index)
        },
        Token::End => Some(Err(ParsingError::InvalidInput)),
    }
}

fn is_end(token: &Token) -> (res: bool)
    ensures
        res == (token.lexeme() is End),
{
    match token {
        Token::End => true,
        _ => false,
    }
}

/// Builds the list whose items start at `index`.
fn read_items(tokens: &Vec<Token>, index: &mut usize) -> (res: Option<
    Result<Bencodable, ParsingError>,
>)
    ensures
        parsed(
            parse_items(lexemes(tokens@), *old(index) as int, Seq::empty()),
            res,
            *final(index) as int,
        ),
    decreases tokens.len() - *old(index), 1int,
{
    let ghost t = lexemes(tokens@);
    let ghost goal = parse_items(t, *index as int, Seq::empty());
    let ghost first = *index as int;
    let mut list: Vec<Bencodable> = Vec::new();
    assert(values(list@) =~= Seq::empty());
    while *index < tokens.len() && !is_end(&tokens[*index])
        invariant
            t == lexemes(tokens@),
            first == *old(index),
            first <= *index,
            goal == parse_items(t, *index as int, values(list@)),
            goal == parse_items(t, *old(index) as int, Seq::empty()),
        decreases remaining(t, *index as int),
    {
        let ghost before = list@;
        proof {
            parse_advances(t, *index as int);
        }
        match read_value(tokens, index) {
            None => {
                return None;
            },
            Some(Err(e)) => {
                return Some(Err(e));
            },
            Some(Ok(value)) => {
                list.push(value);
                assert(values(list@) =~= values(before).push(value.value()));
            },
        }
    }
    proof {
        list_value(list);
    }
    *index = index.saturating_add(1);
    Some(Ok(Bencodable::List(list)))
}

/// Builds the dictionary whose entries start at `index`.
fn read_entries(tokens: &Vec<Token>, index: &mut usize) -> (res: Option<
    Result<Bencodable, ParsingError>,
>)
    ensures
        parsed(
            parse_entries(lexemes(tokens@), *old(index) as int, Seq::empty()),
            res,
            *final(index) as int,
        ),
    decreases tokens.len() - *old(index), 1int,
{
    let ghost t = lexemes(tokens@);
    let ghost goal = parse_entries(t, *index as int, Seq::empty());
    let ghost first = *index as int;
    let mut map: Dict = Dict::new();
    loop
        invariant
            t == lexemes(tokens@),
            first == *old(index),
            first <= *index,
            goal == parse_entries(t, *index as int, map@),
            goal == parse_entries(t, *old(index) as int, Seq::empty()),
        decreases remaining(t, *index as int),
    {
        if *index >= tokens.len() {
            return None;
        }
        assert(t[*index as int] == tokens@[*index as int].lexeme());
        match &tokens[*index] {
            Token::End => {
                *index += 1;
                proof {
                    dict_value(map);
                }
                return Some(Ok(Bencodable::Dict(map)));
            },
            Token::String(s) => {
                *index += 1;
                let key: String = bstring_to_string(s);
                proof {
                    parse_advances(t, *index as int);
                }
                match read_value(tokens, index) {
                    None => {
                        return None;
                    },
                    Some(Err(e)) => {
                        return Some(Err(e));
                    },
                    Some(Ok(value)) => {
                        map.insert(key, value);
                    },
                }
            },
            _ => {
                return Some(Err(ParsingError::InvalidInput));
            },
        }
    }
}

impl Dict {
    /// The dictionary without entries.
    pub fn new() -> (dict: Dict)
        ensures
            dict@ == Seq::<(Seq<char>, Value)>::empty(),
            dict.well_formed(),
    {
        let dict: Dict = Dict { entries: Vec::new() };
        assert(dict@ =~= Seq::<(Seq<char>, Value)>::empty());
        dict
    }

    /// Puts `value` at `key`, in place of any value that was there.
    pub fn insert(&mut self, key: String, value: Bencodable)
        ensures
            final(self)@ == dict_insert(old(self)@, key@, value.value()),
            old(self).well_formed() ==> final(self).well_formed(),
    {
        let ghost before = self@;
        let ghost entry = (key@, value.value());
        let mut i: usize = 0;
        assert(before.skip(0) =~= before);
        assert(before.take(0) + dict_insert(before, key@, value.value()) =~= dict_insert(
            before,
            key@,
            value.value(),
        ));
        while i < self.entries.len()
            invariant
                i <= self.entries.len(),
                self@ == before,
                before == old(self)@,
                entry == (key@, value.value()),
                dict_insert(before, key@, value.value()) == before.take(i as int) + dict_insert(
                    before.skip(i as int),
                    key@,
                    value.value(),
                ),
            decreases self.entries.len() - i,
        {
            assert(before.skip(i as int)[0] == before[i as int]);
            assert(before[i as int].0 == self.entries@[i as int].0@);
            assert(before.skip(i as int).drop_first() =~= before.skip(i + 1));
            match key_order(key.as_str(), self.entries[i].0.as_str()) {
                ByteOrder::Same => {
                    let _ = self.entries.remove(i);
                    self.entries.insert(i, (key, value));
                    proof {
                        assert(self@ =~= before.take(i as int) + (seq![entry] + before.skip(i + 1)));
                        insert_ascends(before, key@, value.value());
                    }
                    return ;
                },
                ByteOrder::Before => {
                    self.entries.insert(i, (key, value));
                    proof {
                        assert(self@ =~= before.take(i as int) + (seq![entry] + before.skip(
                            i as int,
                        )));
                        insert_ascends(before, key@, value.value());
                    }
                    return ;
                },
                ByteOrder::After => {
                    proof {
                        let rest = dict_insert(before.skip(i + 1), key@, value.value());
                        assert(before.take(i as int) + (seq![before[i as int]] + rest)
                            =~= before.take(i + 1) + rest);
                    }
                    i += 1;
                },
            }
        }
        self.entries.push((key, value));
        proof {
            assert(before.take(i as int) =~= before);
            assert(self@ =~= before + seq![entry]);
            insert_ascends(before, key@, value.value());
        }
    }

    /// The value at `key`.
    pub fn get(&self, key: &str) -> (res: Option<&Bencodable>)
        ensures
            match dict_get(self@, key@) {
                Some(v) => res matches Some(b) && b.value() == v,
                None => res is None,
            },
    {
        let mut i: usize = 0;
        assert(self@.skip(0) =~= self@);
        while i < self.entries.len()
            invariant
                i <= self.entries.len(),
                dict_get(self@, key@) == dict_get(self@.skip(i as int), key@),
            decreases self.entries.len() - i,
        {
            assert(self@.skip(i as int)[0] == self@[i as int]);
            assert(self@.skip(i as int).drop_first() =~= self@.skip(i + 1));
            if let ByteOrder::Same = key_order(key, self.entries[i].0.as_str()) {
                return Some(&self.entries[i].1);
            }
            i += 1;
        }
        None
    }
}


/// Builds the value whose tokens start at `index` and moves `index` past them.
pub fn parse(tokens: &Vec<Token>, index: &mut usize) -> (res: Result<Bencodable, ParsingError>)
    requires
        parse_value(lexemes(tokens@), *old(index) as int) !is Overrun,
    ensures
        parsed(
            parse_value(lexemes(tokens@), *old(index) as int),
            Some(res),
            *final(index) as int,
        ),
{
    match read_value(tokens, index) {
        Some(res) => res,
        None => Err(ParsingError::InvalidInput),
    }
}

impl Bencodable {
    /// The bencoding of this value as text.
    pub fn encode(&self) -> (text: String)
        ensures
            text@ == encoded(self.value()),
    {
        let mut text: String = String::new();
        self.write(&mut text);
        assert(text@ =~= encoded(self.value()));
        text
    }

    /// Appends the bencoding of this value.
    fn write(&self, out: &mut String)
        ensures
            final(out)@ == old(out)@ + encoded(self.value()),
        decreases self,
    {
        match self {
            Bencodable::String(string) => {
                push_decimal(out, bstring_as_ref(string).len() as u64);
                out.push(':');
                let shown: String = bstring_to_string(string);
                out.append(shown.as_str());
                assert(final(out)@ =~= old(out)@ + encoded(self.value()));
            },
            Bencodable::Number(num) => {
                out.push('i');
                push_signed(out, *num);
                out.push('e');
                assert(final(out)@ =~= old(out)@ + encoded(self.value()));
            },
            Bencodable::List(list) => {
                out.push('l');
                let ghost open = out@;
                let mut i: usize = 0;
                proof {
                    list_value(*list);
                    assert(values(list@).take(0) =~= Seq::empty());
                }
                while i < list.len()
                    invariant
                        i <= list.len(),
                        *self == Bencodable::List(*list),
                        out@ == open + encoded_items(values(list@).take(i as int)),
                    decreases list.len() - i,
                {
                    let ghost shorter = values(list@).take(i as int);
                    let ghost longer = values(list@).take(i + 1);
                    assert(decreases_to!(self => self->List_0@[i as int]));
                    list[i].write(out);
                    proof {
                        assert(longer.drop_last() =~= shorter);
                        assert(longer.last() == list@[i as int].value());
                        assert(out@ =~= open + encoded_items(longer));
                    }
                    i += 1;
                }
                out.push('e');
                proof {
                    assert(values(list@).take(list@.len() as int) =~= values(list@));
                    assert(final(out)@ =~= old(out)@ + encoded(self.value()));
                }
            },
            Bencodable::Dict(dict) => {
                out.push('d');
                let ghost open = out@;
                let mut i: usize = 0;
                proof {
                    dict_value(*dict);
                    assert(dict@.take(0) =~= Seq::empty());
                }
                while i < dict.entries.len()
                    invariant
                        i <= dict.entries.len(),
                        *self == Bencodable::Dict(*dict),
                        out@ == open + encoded_entries(dict@.take(i as int)),
                    decreases dict.entries.len() - i,
                {
                    let ghost shorter = dict@.take(i as int);
                    let ghost longer = dict@.take(i + 1);
                    assert(decreases_to!(self => self->Dict_0.entries@[i as int].1));
                    let key: &str = dict.entries[i].0.as_str();
                    push_decimal(out, key.as_bytes().len() as u64);
                    out.push(':');
                    out.append(key);
                    dict.entries[i].1.write(out);
                    proof {
                        assert(longer.drop_last() =~= shorter);
                        assert(longer.last() == dict@[i as int]);
                        assert(out@ =~= open + encoded_entries(longer));
                    }
                    i += 1;
                }
                out.push('e');
                proof {
                    assert(dict@.take(dict@.len() as int) =~= dict@);
                    assert(final(out)@ =~= old(out)@ + encoded(self.value()));
                }
            },
        }
    }

    /// The first value of a bencoded input that does not end inside a value.
    pub fn decode(encoded: Vec<u8>) -> (res: Result<Bencodable, ParsingError>)
        requires
            decode_bytes(encoded@) !is Overrun,
        ensures
            decode_bytes(encoded@) matches Scan::Read(v, _) ==> res matches Ok(b) && b.value() == v,
            decode_bytes(encoded@) is Invalid ==> res is Err,
    {
        match Bencodable::try_decode(encoded) {
            Some(res) => res,
            None => Err(ParsingError::InvalidInput),
        }
    }

    /// The first value of a bencoded input, or nothing if the input ends inside a value.
    pub fn try_decode(encoded: Vec<u8>) -> (res: Option<Result<Bencodable, ParsingError>>)
        ensures
            match decode_bytes(encoded@) {
                Scan::Read(v, _) => res matches Some(Ok(b)) && b.value() == v,
                Scan::Invalid(_) => res matches Some(Err(_)),
                Scan::Overrun => res is None,
            },
    {
        match read_tokens(&encoded) {
            None => None,
            Some(Err(e)) => Some(Err(e)),
            Some(Ok(tokens)) => {
                let mut index: usize = 0;
                read_value(&tokens, &mut index)
            },
        }
    }

    pub fn as_int(&self) -> (res: Option<i64>)
        ensures
            res == (match self.value() {
                Value::Number(n) => Some(n),
                _ => None,
            }),
    {
        match self {
            Bencodable::Number(n) => Some(*n),
            _ => None,
        }
    }

    pub fn as_bytes(&self) -> (res: Option<&[u8]>)
        ensures
            match self.value() {
                Value::Bytes(b) => res matches Some(bytes) && bytes@ == b,
                _ => res is None,
            },
    {
        match self {
            Bencodable::String(s) => Some(bstring_as_ref(s)),
            _ => None,
        }
    }

    /// The text of a byte string that is valid UTF-8.
    pub fn as_str(&self) -> (res: Option<String>)
        ensures
            match self.value().text() {
                Some(t) => res matches Some(s) && s@ == t,
                None => res is None,
            },
    {
        match self {
            Bencodable::String(s) => from_utf8(bstring_as_ref(s)),
            _ => None,
        }
    }

    pub fn as_list(&self) -> (res: Option<&Vec<Bencodable>>)
        ensures
            match self.value() {
                Value::List(items) => res matches Some(list) && values(list@) == items,
                _ => res is None,
            },
    {
        match self {
            Bencodable::List(list) => {
                proof {
                    list_value(*list);
                }
                Some(list)
            },
            _ => None,
        }
    }

    pub fn as_dict(&self) -> (res: Option<&Dict>)
        ensures
            match self.value() {
                Value::Dict(d) => res matches Some(dict) && dict@ == d,
                _ => res is None,
            },
    {
        match self {
            Bencodable::Dict(dict) => {
                proof {
                    dict_value(*dict);
                }
                Some(dict)
            },
            _ => None,
        }
    }

    /// The value at `key`, if this is a dictionary that has one.
    pub fn get(&self, key: &str) -> (res: Option<&Bencodable>)
        ensures
            match self.value().get(key@) {
                Some(v) => res matches Some(b) && b.value() == v,
                None => res is None,
            },
    {
        match self.as_dict() {
            Some(dict) => dict.get(key),
            None => None,
        }
    }
}

} // verus!
