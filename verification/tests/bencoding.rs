use bstr::BString;
use tempest::bencoding::{
    parse, tokenize, tokenize_int, tokenize_next, tokenize_string, Bencodable, Dict, Token,
};

#[test]
fn test_tokenize_int_pass() {
    let inp = "i23e";
    let mut idx = 0;
    let res = tokenize_int(&inp.bytes().collect(), &mut idx);
    assert_eq!(res.is_ok(), true);
    assert_eq!(idx, 4);
    assert_eq!(res.unwrap(), Token::Number(23));
}

#[test]
fn test_tokenize_str_pass() {
    let inp = "5:hellooo";
    let mut idx = 0;
    let res = tokenize_string(&inp.bytes().collect(), &mut idx);
    assert_eq!(res.is_ok(), true);
    assert_eq!(res.unwrap(), Token::String("hello".into()));
}

#[test]
fn test_tokenize_empty() {
    let res = tokenize("".into());
    assert!(res.is_ok());
    assert_eq!(res.unwrap(), vec![]);
}

#[test]
fn test_tokenize_number() {
    let res = tokenize("i42e".into());
    assert!(res.is_ok());
    assert_eq!(res.unwrap(), vec![Token::Number(42)]);
}

#[test]
fn test_tokenize_string() {
    let res = tokenize("5:hello".into());
    assert!(res.is_ok());
    assert_eq!(res.unwrap(), vec![Token::String("hello".into())]);
}

#[test]
fn test_tokenize_list() {
    let res = tokenize("li1ei2ee".into());
    assert!(res.is_ok());
    assert_eq!(
        res.unwrap(),
        vec![
            Token::ListBegin,
            Token::Number(1),
            Token::Number(2),
            Token::End
        ]
    );
}

#[test]
fn test_tokenize_dict() {
    let res = tokenize("d3:fooi42ee".into());
    assert!(res.is_ok());
    assert_eq!(
        res.unwrap(),
        vec![
            Token::DictBegin,
            Token::String(BString::from("foo")),
            Token::Number(42),
            Token::End
        ]
    );
}

#[test]
fn test_tokenize_nested_list() {
    let res = tokenize(BString::from("lli1eeli2eee").to_vec());
    assert!(res.is_ok());
    assert_eq!(
        res.unwrap(),
        vec![
            Token::ListBegin,
            Token::ListBegin,
            Token::Number(1),
            Token::End,
            Token::ListBegin,
            Token::Number(2),
            Token::End,
            Token::End
        ]
    );
}

#[test]
fn test_tokenize_nested_list_2() {
    let res = tokenize(BString::from("ll40:udp://tracker.leechers-paradise.org:6969el34:udp://tracker.coppersurfer.tk:6969el33:udp://tracker.opentrackr.org:1337el23:udp://explodie.org:6969el31:udp://tracker.empire-js.us:1337el26:wss://tracker.btorrent.xyzel32:wss://tracker.openwebtorrent.comel25:wss://tracker.fastcast.nzee").to_vec());
    assert!(res.is_ok());
    assert_eq!(
        res.unwrap(),
        vec![
            Token::ListBegin,
            Token::ListBegin,
            Token::String("udp://tracker.leechers-paradise.org:6969".into()),
            Token::End,
            Token::ListBegin,
            Token::String("udp://tracker.coppersurfer.tk:6969".into()),
            Token::End,
            Token::ListBegin,
            Token::String("udp://tracker.opentrackr.org:1337".into()),
            Token::End,
            Token::ListBegin,
            Token::String("udp://explodie.org:6969".into()),
            Token::End,
            Token::ListBegin,
            Token::String("udp://tracker.empire-js.us:1337".into()),
            Token::End,
            Token::ListBegin,
            Token::String("wss://tracker.btorrent.xyz".into()),
            Token::End,
            Token::ListBegin,
            Token::String("wss://tracker.openwebtorrent.com".into()),
            Token::End,
            Token::ListBegin,
            Token::String("wss://tracker.fastcast.nz".into()),
            Token::End,
            Token::End
        ]
    );
}

#[test]
fn test_tokenize_invalid() {
    let res = tokenize(BString::from("x").to_vec());
    assert!(res.is_err());
}

#[test]
fn test_parse_number() {
    let tokens = vec![Token::Number(42)];
    let mut idx = 0;
    let res = parse(&tokens, &mut idx);
    assert!(res.is_ok());
    assert_eq!(res.unwrap(), Bencodable::Number(42));
    assert_eq!(idx, 1);
}

#[test]
fn test_parse_string() {
    let tokens = vec![Token::String("hello".into())];
    let mut idx = 0;
    let res = parse(&tokens, &mut idx);
    assert!(res.is_ok());
    assert_eq!(res.unwrap(), Bencodable::String("hello".into()));
    assert_eq!(idx, 1);
}

#[test]
fn test_parse_list() {
    let tokens = vec![
        Token::ListBegin,
        Token::Number(1),
        Token::Number(2),
        Token::End,
    ];
    let mut idx = 0;
    let res = parse(&tokens, &mut idx);
    assert!(res.is_ok());
    assert_eq!(
        res.unwrap(),
        Bencodable::List(vec![Bencodable::Number(1), Bencodable::Number(2)])
    );
}

#[test]
fn test_parse_list_2() {
    let tokens = vec![
            Token::ListBegin,
            Token::ListBegin,
            Token::String("udp://tracker.leechers-paradise.org:6969".into()),
            Token::End,
            Token::ListBegin,
            Token::String("udp://tracker.coppersurfer.tk:6969".into()),
            Token::End,
            Token::ListBegin,
            Token::String("udp://tracker.opentrackr.org:1337".into()),
            Token::End,
            Token::ListBegin,
            Token::String("udp://explodie.org:6969".into()),
            Token::End,
            Token::ListBegin,
            Token::String("udp://tracker.empire-js.us:1337".into()),
            Token::End,
            Token::ListBegin,
            Token::String("wss://tracker.btorrent.xyz".into()),
            Token::End,
            Token::ListBegin,
            Token::String("wss://tracker.openwebtorrent.com".into()),
            Token::End,
            Token::ListBegin,
            Token::String("wss://tracker.fastcast.nz".into()),
            Token::End,
            Token::End
        ];
    let mut idx = 0;
    let res = parse(&tokens, &mut idx);
    assert!(res.is_ok());
    assert_eq!(
        res.unwrap(),
        Bencodable::List(vec![Bencodable::List(vec![Bencodable::String("udp://tracker.leechers-paradise.org:6969".into())]), Bencodable::List(vec![Bencodable::String("udp://tracker.coppersurfer.tk:6969".into())]), Bencodable::List(vec![Bencodable::String("udp://tracker.opentrackr.org:1337".into())]), Bencodable::List(vec![Bencodable::String("udp://explodie.org:6969".into())]), Bencodable::List(vec![Bencodable::String("udp://tracker.empire-js.us:1337".into())]), Bencodable::List(vec![Bencodable::String("wss://tracker.btorrent.xyz".into())]), Bencodable::List(vec![Bencodable::String("wss://tracker.openwebtorrent.com".into())]), Bencodable::List(vec![Bencodable::String("wss://tracker.fastcast.nz".into())])])
    );
}

#[test]
fn test_parse_dict() {
    let tokens = vec![
        Token::DictBegin,
        Token::String("key".into()),
        Token::Number(42),
        Token::End,
    ];
    let mut idx = 0;
    let res = parse(&tokens, &mut idx);
    assert!(res.is_ok());
    let mut expected = Dict::new();
    expected.insert("key".to_owned(), Bencodable::Number(42));
    assert_eq!(res.unwrap(), Bencodable::Dict(expected));
}

#[test]
fn test_parse_nested_list() {
    let tokens = vec![
        Token::ListBegin,
        Token::ListBegin,
        Token::Number(1),
        Token::End,
        Token::End,
    ];
    let mut idx = 0;
    let res = parse(&tokens, &mut idx);
    assert!(res.is_ok());
    assert_eq!(
        res.unwrap(),
        Bencodable::List(vec![Bencodable::List(vec![Bencodable::Number(1)])])
    );
}

#[test]
fn test_parse_invalid_token() {
    let tokens = vec![Token::End];
    let mut idx = 0;
    let res = parse(&tokens, &mut idx);
    assert!(res.is_err());
}

fn number(n: i64) -> Bencodable {
    Bencodable::Number(n)
}

fn text(s: &str) -> Bencodable {
    Bencodable::String(s.into())
}

#[test]
fn numbers_are_encoded_in_decimal() {
    assert_eq!(number(0).encode(), "i0e");
    assert_eq!(number(-42).encode(), "i-42e");
    assert_eq!(number(i64::MAX).encode(), "i9223372036854775807e");
    assert_eq!(number(i64::MIN).encode(), "i-9223372036854775808e");
}

#[test]
fn strings_are_encoded_with_their_length_in_bytes() {
    assert_eq!(text("spam").encode(), "4:spam");
    assert_eq!(text("").encode(), "0:");
    assert_eq!(text("\u{e9}").encode(), "2:\u{e9}");
}

#[test]
fn bytes_that_are_no_text_are_displayed_with_replacements() {
    let value = Bencodable::String(BString::new(vec![b'a', 0xff, b'b']));
    assert_eq!(value.encode(), "3:a\u{fffd}b");
    assert_eq!(value.as_str(), None);
    assert_eq!(value.as_bytes(), Some(&[b'a', 0xff, b'b'][..]));
}

#[test]
fn lists_and_dictionaries_are_encoded_in_order() {
    let list = Bencodable::List(vec![number(1), text("two"), Bencodable::List(vec![])]);
    assert_eq!(list.encode(), "li1e3:twolee");

    let mut dict = Dict::new();
    dict.insert("spam".to_owned(), number(2));
    dict.insert("cow".to_owned(), text("moo"));
    assert_eq!(Bencodable::Dict(dict).encode(), "d3:cow3:moo4:spami2ee");
}

#[test]
fn decoding_gives_back_what_was_encoded() {
    let mut inner = Dict::new();
    inner.insert("b".to_owned(), number(-7));
    inner.insert("a".to_owned(), Bencodable::List(vec![text("x"), number(0)]));
    let value = Bencodable::List(vec![Bencodable::Dict(inner), text("end"), number(12)]);
    let decoded = Bencodable::decode(value.encode().into_bytes()).unwrap();
    assert_eq!(decoded, value);
    assert_eq!(decoded.encode(), value.encode());
}

#[test]
fn later_entries_replace_earlier_ones() {
    let decoded = Bencodable::decode(b"d1:bi1e1:ai2e1:bi3ee".to_vec()).unwrap();
    assert_eq!(decoded.get("b"), Some(&number(3)));
    assert_eq!(decoded.encode(), "d1:ai2e1:bi3ee");

    let mut dict = Dict::new();
    dict.insert("k".to_owned(), number(1));
    dict.insert("k".to_owned(), number(2));
    assert_eq!(dict.get("k"), Some(&number(2)));
    assert_eq!(dict.get("l"), None);
    assert_eq!(dict.entries.len(), 1);
}

#[test]
fn keys_are_ordered_by_their_bytes() {
    let mut dict = Dict::new();
    dict.insert("b".to_owned(), number(1));
    dict.insert("ab".to_owned(), number(2));
    dict.insert("a".to_owned(), number(3));
    dict.insert("\u{e9}".to_owned(), number(4));
    dict.insert("Z".to_owned(), number(5));
    let keys: Vec<&str> = dict.entries.iter().map(|e| e.0.as_str()).collect();
    assert_eq!(keys, vec!["Z", "a", "ab", "b", "\u{e9}"]);
}

#[test]
fn accessors_give_only_their_own_kind() {
    let list = Bencodable::List(vec![number(1)]);
    let mut dict = Dict::new();
    dict.insert("n".to_owned(), number(5));
    let dict = Bencodable::Dict(dict);
    assert_eq!(number(9).as_int(), Some(9));
    assert_eq!(text("9").as_int(), None);
    assert_eq!(text("hi").as_str(), Some("hi".to_owned()));
    assert_eq!(number(9).as_str(), None);
    assert_eq!(number(9).as_bytes(), None);
    assert_eq!(list.as_list().map(|l| l.len()), Some(1));
    assert!(dict.as_list().is_none());
    assert!(dict.as_dict().is_some());
    assert!(list.as_dict().is_none());
    assert_eq!(dict.get("n"), Some(&number(5)));
    assert_eq!(list.get("n"), None);
}

#[test]
fn numbers_out_of_range_are_refused() {
    assert!(Bencodable::decode(b"i9223372036854775808e".to_vec()).is_err());
    assert!(Bencodable::decode(b"i-9223372036854775809e".to_vec()).is_err());
    assert!(Bencodable::decode(b"i123456789012345678901234567890e".to_vec()).is_err());
    let least = Bencodable::decode(b"i-9223372036854775808e".to_vec()).unwrap();
    assert_eq!(least, number(i64::MIN));
}

#[test]
fn loose_numerals_are_read() {
    assert_eq!(Bencodable::decode(b"i007e".to_vec()).unwrap(), number(7));
    assert_eq!(Bencodable::decode(b"i-0e".to_vec()).unwrap(), number(0));
    let mut idx = 0;
    let res = tokenize_int(&b"5e".to_vec(), &mut idx);
    assert_eq!(res.unwrap(), Token::Number(5));
    assert_eq!(idx, 2);
}

#[test]
fn bad_values_are_refused() {
    for bad in ["i12x", "ie", "i-e", "i--1e", "3x:abc", "di1ei2ee", "e", "d1:ae", "li1ex"] {
        assert!(Bencodable::decode(bad.into()).is_err(), "{}", bad);
    }
}

#[test]
fn input_that_ends_inside_a_value_has_no_result() {
    for short in ["", "i42", "5:hel", "3", "d", "d1:a", "d1:ai1e", "l1:"] {
        assert!(Bencodable::try_decode(short.into()).is_none(), "{}", short);
    }
}

#[test]
fn a_list_may_end_with_the_input() {
    let decoded = Bencodable::try_decode(b"li1ei2e".to_vec()).unwrap().unwrap();
    assert_eq!(decoded, Bencodable::List(vec![number(1), number(2)]));
}

#[test]
fn what_follows_the_first_value_is_dropped() {
    assert_eq!(Bencodable::decode(b"i1ei2e".to_vec()).unwrap(), number(1));
}

#[test]
fn tokens_are_read_one_by_one() {
    let chars = b"d3:abci-1ee".to_vec();
    let mut idx = 0;
    assert_eq!(tokenize_next(&chars, &mut idx).unwrap(), Token::DictBegin);
    assert_eq!(tokenize_next(&chars, &mut idx).unwrap(), Token::String("abc".into()));
    assert_eq!(idx, 6);
    assert_eq!(tokenize_next(&chars, &mut idx).unwrap(), Token::Number(-1));
    assert_eq!(tokenize_next(&chars, &mut idx).unwrap(), Token::End);
    assert_eq!(idx, chars.len());
}
