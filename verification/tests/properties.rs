use binance::cursor::{Cursor, Error};
use binance::node::Document;

#[test]
fn whitespace_skipped_after_navigation() {
    let doc = Document::new("   [ {\"a\" : 1 } ,   2 ]");
    assert!(doc.get_char().is_some_and(|c| c == '['));

    let array = doc.as_array().unwrap();
    let first = array.get_index(0).unwrap();
    assert!(first.get_char().is_some_and(|c| c == '{'));

    let second = array.get_index(1).unwrap();
    assert!(second.get_char().is_some_and(|c| c == '2'));

    let value = first.as_object().unwrap().get_key("a").unwrap();
    assert!(value.get_char().is_some_and(|c| c == '1'));

    let end = Document::new("   ");
    assert!(end.get_char().is_none());
}

#[test]
fn siblings_do_not_interfere() {
    let text = r#"[ {"a": 52, "b": "x"}, {"a": 7} ]"#;
    let array = Document::new(text).as_array().unwrap();

    let fresh = array.get_index(1).unwrap();
    let expected_char = fresh.get_char();
    let expected = fresh
        .as_object()
        .unwrap()
        .get_key("a")
        .unwrap()
        .as_number()
        .unwrap()
        .get_value()
        .unwrap();

    let zero = array.get_index(0).unwrap();
    let inner = zero.as_object().unwrap();
    let _ = inner.get_key("b").unwrap().as_string().unwrap().get_value();
    let _ = inner.get_key("a").unwrap().as_number().unwrap().get_value();

    let again = array.get_index(1).unwrap();
    assert_eq!(again.get_char(), expected_char);
    let value = again
        .as_object()
        .unwrap()
        .get_key("a")
        .unwrap()
        .as_number()
        .unwrap()
        .get_value()
        .unwrap();
    assert_eq!(value, expected);
    assert_eq!(expected, 7);
}

#[test]
fn string_extraction_round_trip() {
    let mut cursor = Cursor::new(r#""abc""#);
    assert_eq!(cursor.advance_and_get_string().unwrap(), "abc");

    let array = Document::new(r#"["abc"]"#).as_array().unwrap();
    let s = array.get_index(0).unwrap().as_string().unwrap();
    assert_eq!(s.get_value().unwrap(), "abc");
}

#[test]
fn index_bounds() {
    let array = Document::new("[1,2,3]").as_array().unwrap();
    assert!(matches!(array.get_index(3), Err(Error::IndexNotFound(3))));
    for (i, expected) in [(0usize, 1u64), (1, 2), (2, 3)] {
        let n = array.get_index(i).unwrap().as_number().unwrap();
        assert_eq!(n.get_value().unwrap(), expected);
    }
}

#[test]
fn key_lookup_ignores_declaration_order() {
    let obj = Document::new(r#"[{"b":2,"a":1}]"#)
        .as_array()
        .unwrap()
        .get_index(0)
        .unwrap()
        .as_object()
        .unwrap();
    let a = obj.get_key("a").unwrap().as_number().unwrap();
    assert_eq!(a.get_value().unwrap(), 1);
    let b = obj.get_key("b").unwrap().as_number().unwrap();
    assert_eq!(b.get_value().unwrap(), 2);
    match obj.get_key("c") {
        Err(Error::KeyNotFound(k)) => assert_eq!(k, "c"),
        _ => panic!("expected KeyNotFound"),
    }
}

#[test]
fn fractional_numbers_are_rejected() {
    let mut cursor = Cursor::new("1.5");
    assert!(matches!(
        cursor.advance_value(),
        Err(Error::UnsupportedCharInNumber('.'))
    ));

    let mut cursor = Cursor::new("-42,");
    cursor.advance_value().unwrap();
    assert_eq!(cursor.get_char(), Some(','));
}

#[test]
fn ticker_entry_end_to_end() {
    let input = r#"[{"symbol":"BTCUSDT","priceChangePercent":"-1.23"}]"#;
    let raw = Document::new(input)
        .as_array()
        .unwrap()
        .get_index(0)
        .unwrap()
        .as_object()
        .unwrap()
        .get_key("priceChangePercent")
        .unwrap()
        .as_string()
        .unwrap()
        .get_value()
        .unwrap();
    let value: f64 = raw.parse().unwrap();
    assert_eq!(value, -1.23);
}

#[test]
fn truncated_object_fails_without_hanging() {
    let obj = Document::new(r#"[{"a":1"#)
        .as_array()
        .unwrap()
        .get_index(0)
        .unwrap()
        .as_object()
        .unwrap();
    // the scan for an absent key runs off the end of the input
    assert!(matches!(obj.get_key("b"), Err(Error::UnterminatedObject)));

    // a key without its colon reports the broken object
    let obj = Document::new(r#"[{"a" 1}]"#)
        .as_array()
        .unwrap()
        .get_index(0)
        .unwrap()
        .as_object()
        .unwrap();
    assert!(matches!(obj.get_key("a"), Err(Error::UnterminatedObject)));

    // an array cut off before the requested element
    let array = Document::new("[1,").as_array().unwrap();
    assert!(matches!(array.get_index(2), Err(Error::UnterminatedArray)));

    // an unterminated string inside a value
    let array = Document::new(r#"["abc"#).as_array().unwrap();
    assert!(matches!(array.get_index(1), Err(Error::UnterminatedString)));
}

#[test]
fn empty_containers() {
    // the lazy engine: an empty array holds no index at all
    let array = Document::new("[]").as_array().unwrap();
    assert!(matches!(array.get_index(0), Err(Error::IndexNotFound(0))));

    // the eager engine: empty containers parse to empty trees
    let value = binance::ast::parse_json("[]").unwrap();
    let binance::ast::ValueAst::Array(a) = value else {
        panic!("not an array");
    };
    assert_eq!(a.elems.len(), 0);
    assert_eq!(a.span, binance::token::Span(0, 2));

    let value = binance::ast::parse_json("{}").unwrap();
    let binance::ast::ValueAst::Object(o) = value else {
        panic!("not an object");
    };
    assert_eq!(o.elems.len(), 0);
    assert_eq!(o.span, binance::token::Span(0, 2));

    // an empty object holds no key
    let obj = Document::new("[{}]")
        .as_array()
        .unwrap()
        .get_index(0)
        .unwrap()
        .as_object()
        .unwrap();
    match obj.get_key("a") {
        Err(Error::KeyNotFound(k)) => assert_eq!(k, "a"),
        _ => panic!("expected KeyNotFound"),
    }

    // an empty string round-trips to an empty body
    let s = Document::new(r#"[""]"#)
        .as_array()
        .unwrap()
        .get_index(0)
        .unwrap()
        .as_string()
        .unwrap();
    assert_eq!(s.get_value().unwrap(), "");
}

#[test]
fn duplicate_keys_first_match_wins() {
    let obj = Document::new(r#"[{"a":1,"a":2}]"#)
        .as_array()
        .unwrap()
        .get_index(0)
        .unwrap()
        .as_object()
        .unwrap();
    let n = obj.get_key("a").unwrap().as_number().unwrap();
    assert_eq!(n.get_value().unwrap(), 1);
}
