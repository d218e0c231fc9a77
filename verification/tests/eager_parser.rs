use binance::ast::{parse_json, StringAst, ValueAst};
use binance::token::{Error, Span, Token, TokenIter, TokenType};

#[test]
fn test_tokenization() {
    let mut iter = TokenIter::new(r#"{ "type": 1, } [ ]"#);

    assert!(matches!(
        iter.next(),
        Some(Ok(Token {
            span: Span(0, 1),
            ty: TokenType::Lbrace
        }))
    ));

    assert!(matches!(
        iter.next(),
        Some(Ok(Token {
            span: Span(2, 8),
            ty: TokenType::String
        }))
    ));

    assert!(matches!(
        iter.next(),
        Some(Ok(Token {
            span: Span(8, 9),
            ty: TokenType::Colon
        }))
    ));

    assert!(matches!(
        iter.next(),
        Some(Ok(Token {
            span: Span(10, 11),
            ty: TokenType::Number
        }))
    ));

    assert!(matches!(
        iter.next(),
        Some(Ok(Token {
            span: Span(11, 12),
            ty: TokenType::Comma
        }))
    ));

    assert!(matches!(
        iter.next(),
        Some(Ok(Token {
            span: Span(13, 14),
            ty: TokenType::Rbrace
        }))
    ));

    assert!(matches!(
        iter.next(),
        Some(Ok(Token {
            span: Span(15, 16),
            ty: TokenType::Lbracket
        }))
    ));

    assert!(matches!(
        iter.next(),
        Some(Ok(Token {
            span: Span(17, 18),
            ty: TokenType::Rbracket
        }))
    ));

    assert!(matches!(iter.next(), None));
}

#[test]
fn test_parsing_string() {
    let input = r#""Hello!", {}"#;
    let value = parse_json(input).unwrap();

    assert!(matches!(
        value,
        ValueAst::String(StringAst(Token {
            span: Span(0, 8),
            ty: TokenType::String
        }))
    ));

    match value {
        ValueAst::String(s) => {
            assert_eq!(s.value(input), "Hello!");
        }
        _ => panic!("Unexpected type!"),
    }
}

#[test]
fn test_parsing_number() {
    let value = parse_json(r#"-1234.324,"#).unwrap();

    assert!(matches!(
        value,
        ValueAst::Number(binance::ast::NumberAst(Token {
            span: Span(0, 9),
            ty: TokenType::Number
        }))
    ));
}

#[test]
fn test_parsing_true() {
    let value = parse_json(r#"true,"#).unwrap();

    assert!(matches!(
        value,
        ValueAst::Bool(binance::ast::BoolAst(Token {
            span: Span(0, 4),
            ty: TokenType::True
        }))
    ));
}

#[test]
fn test_parsing_false() {
    let value = parse_json(r#"false,"#).unwrap();

    assert!(matches!(
        value,
        ValueAst::Bool(binance::ast::BoolAst(Token {
            span: Span(0, 5),
            ty: TokenType::False
        }))
    ));
}

#[test]
fn test_parsing_null() {
    let value = parse_json(r#"null,"#).unwrap();

    assert!(matches!(
        value,
        ValueAst::Null(binance::ast::NullAst(Token {
            span: Span(0, 4),
            ty: TokenType::Null
        }))
    ));
}

#[test]
fn test_parsing_array() {
    let value = parse_json(r#"[null, true, false, "test", 123], {}"#).unwrap();

    let ValueAst::Array(array) = value else {
        panic!("Value is not an array: {value:?}");
    };

    assert_eq!(array.span.0, 0);
    assert_eq!(array.span.1, 32);

    assert_eq!(array.elems.len(), 5);

    assert!(matches!(
        array.elems[0],
        ValueAst::Null(binance::ast::NullAst(Token {
            span: Span(1, 5),
            ty: TokenType::Null
        }))
    ));

    assert!(matches!(
        array.elems[1],
        ValueAst::Bool(binance::ast::BoolAst(Token {
            span: Span(7, 11),
            ty: TokenType::True
        }))
    ));

    assert!(matches!(
        array.elems[2],
        ValueAst::Bool(binance::ast::BoolAst(Token {
            span: Span(13, 18),
            ty: TokenType::False
        }))
    ));

    assert!(matches!(
        array.elems[3],
        ValueAst::String(StringAst(Token {
            span: Span(20, 26),
            ty: TokenType::String
        }))
    ));

    assert!(matches!(
        array.elems[4],
        ValueAst::Number(binance::ast::NumberAst(Token {
            span: Span(28, 31),
            ty: TokenType::Number
        }))
    ));
}

#[test]
fn test_parsing_object() {
    let value = parse_json(r#"{"hi":null, "hello":true}"#).unwrap();

    let ValueAst::Object(object) = value else {
        panic!("Value is not an object: {value:?}");
    };

    assert_eq!(object.span.0, 0);
    assert_eq!(object.span.1, 25);

    assert_eq!(object.elems.len(), 2);

    assert!(matches!(
        object.elems[0],
        (
            StringAst(Token {
                span: Span(1, 5),
                ty: TokenType::String
            }),
            ValueAst::Null(binance::ast::NullAst(Token {
                span: Span(6, 10),
                ty: TokenType::Null
            }))
        )
    ));

    assert!(matches!(
        object.elems[1],
        (
            StringAst(Token {
                span: Span(12, 19),
                ty: TokenType::String
            }),
            ValueAst::Bool(binance::ast::BoolAst(Token {
                span: Span(20, 24),
                ty: TokenType::True
            }))
        )
    ));
}

#[test]
fn get_item_finds_first_match() {
    let input = r#"{"hi":1, "ho":2, "hi":3}"#;
    let value = parse_json(input).unwrap();
    let ValueAst::Object(object) = value else {
        panic!("not an object");
    };
    let item = object.get_item(input, "ho").unwrap();
    assert_eq!(item.get_str_or_number_value(input).unwrap(), "2");
    let first = object.get_item(input, "hi").unwrap();
    assert_eq!(first.get_str_or_number_value(input).unwrap(), "1");
    assert!(matches!(
        object.get_item(input, "missing"),
        Err(binance::token::Error::KeyNotFound)
    ));
}

#[test]
fn get_raw_string_returns_spanned_text() {
    let input = r#"[null, true, "x", 12]"#;
    let value = parse_json(input).unwrap();
    assert_eq!(value.get_raw_string(input), "[null, true, \"x\", 12]");
    let ValueAst::Array(array) = value else {
        panic!("not an array");
    };
    assert_eq!(array.elems[0].get_raw_string(input), "null");
    assert_eq!(array.elems[1].get_raw_string(input), "true");
    assert_eq!(array.elems[2].get_raw_string(input), "\"x\"");
    assert_eq!(array.elems[3].get_raw_string(input), "12");
    assert!(matches!(
        array.elems[0].get_str_or_number_value(input),
        Err(binance::token::Error::InvalidTokenType)
    ));
    assert_eq!(array.elems[2].get_str_or_number_value(input).unwrap(), "x");
    assert_eq!(array.elems[3].get_str_or_number_value(input).unwrap(), "12");
}

#[test]
fn parse_errors_are_typed() {
    assert!(matches!(parse_json(""), Err(Error::EmptyJson)));
    assert!(matches!(parse_json("@"), Err(Error::InvalidToken)));
    assert!(matches!(parse_json("nul,"), Err(Error::InvalidIdentifier)));
    assert!(matches!(parse_json("\"abc"), Err(Error::UnterminatedString)));
    assert!(matches!(parse_json(","), Err(Error::UnexpectedToken)));
    assert!(matches!(
        parse_json(r#"{"a":1"#),
        Err(Error::UnterminatedJsonObject)
    ));
    assert!(matches!(
        parse_json(r#"{1:2}"#),
        Err(Error::MalformedJsonObject)
    ));
    assert!(matches!(parse_json("[1"), Err(Error::UnterminatedJsonArray)));
    assert!(matches!(
        parse_json("[1:2]"),
        Err(Error::MalformedJsonArray)
    ));
}
