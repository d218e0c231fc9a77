use binance::cursor::{Cursor, Error};
use binance::node::Document;
use binance::utils::{LazyF64, LazyU64};

#[test]
fn cursor_number() {
    let mut cursor = Cursor::new("1234543, ");
    cursor.advance_value().unwrap();

    assert!(cursor.get_char().is_some_and(|c| c == ','));

    let mut cursor = Cursor::new("-1234543, ");
    cursor.advance_value().unwrap();

    assert!(cursor.get_char().is_some_and(|c| c == ','));
}

#[test]
fn cursor_string() {
    let mut cursor = Cursor::new(r##""This is a string with escaped \" characters","##);
    cursor.advance_value().unwrap();

    assert!(cursor.get_char().is_some_and(|c| c == ','));
}

#[test]
fn cursor_object() {
    let mut cursor = Cursor::new(r##"{"key":-124,"key2":"","key3":1544}."##);
    cursor.advance_value().unwrap();

    assert!(cursor.get_char().is_some_and(|c| c == '.'));
}

#[test]
fn document_api() {
    let doc = Document::new(r###"[ {"a": 52, "b" : "c"}, 3 ]"###);

    let array = doc.as_array().unwrap();

    let index0 = array.get_index(0).unwrap();
    assert!(index0.get_char().is_some_and(|c| c == '{'));

    let index1 = array.get_index(1).unwrap();
    assert!(index1.get_char().is_some_and(|c| c == '3'));

    let object = index0.as_object().unwrap();
    let _number = index1.as_number().unwrap();

    let inner_value = object.get_key("a").unwrap();

    assert!(inner_value.get_char().is_some_and(|c| c == '5'));
    let _number = inner_value.as_number();

    let inner_value = object.get_key("b").unwrap();

    let c = inner_value.as_string().unwrap().get_value().unwrap();
    assert_eq!(c, "c");
}

#[test]
fn narrowing_rejects_wrong_kinds() {
    let doc = Document::new(r#"{"a":1}"#);
    assert!(matches!(doc.as_array(), Err(Error::NotAnArray)));

    let array = Document::new(r#"[{"a":1}, "s", 7]"#).as_array().unwrap();
    let obj_node = array.get_index(0).unwrap();
    assert!(matches!(
        array.get_index(1).unwrap().as_object(),
        Err(Error::NotAnObject)
    ));
    assert!(matches!(
        array.get_index(2).unwrap().as_string(),
        Err(Error::NotAString)
    ));
    assert!(matches!(
        array.get_index(1).unwrap().as_number(),
        Err(Error::NotANumber)
    ));
    assert!(obj_node.as_object().is_ok());
}

#[test]
fn number_get_value_reads_digits() {
    let array = Document::new(r#"[52, 7, 18446744073709551615, 18446744073709551616, -3]"#)
        .as_array()
        .unwrap();
    let n = array.get_index(0).unwrap().as_number().unwrap();
    assert_eq!(n.get_value().unwrap(), 52);
    let n = array.get_index(1).unwrap().as_number().unwrap();
    assert_eq!(n.get_value().unwrap(), 7);
    let n = array.get_index(2).unwrap().as_number().unwrap();
    assert_eq!(n.get_value().unwrap(), u64::MAX);
    let n = array.get_index(3).unwrap().as_number().unwrap();
    assert!(matches!(n.get_value(), Err(Error::NotANumber)));
    let n = array.get_index(4).unwrap().as_number().unwrap();
    assert!(matches!(n.get_value(), Err(Error::NotANumber)));
}

#[test]
fn unsupported_values_are_rejected() {
    let array = Document::new(r#"[1, true]"#).as_array().unwrap();
    assert!(matches!(
        array.get_index(2),
        Err(Error::UnexpectedValue('t'))
    ));

    let array = Document::new(r#"[1, [2]]"#).as_array().unwrap();
    assert!(matches!(
        array.get_index(2),
        Err(Error::UnexpectedValue('['))
    ));
}

#[test]
fn escapes_in_extracted_strings_are_refused() {
    let array = Document::new(r#"["a\nb"]"#).as_array().unwrap();
    let s = array.get_index(0).unwrap().as_string().unwrap();
    assert!(matches!(s.get_value(), Err(Error::UnsupportedEscape)));

    let obj = Document::new(r#"[{"a\nb":1}]"#)
        .as_array()
        .unwrap()
        .get_index(0)
        .unwrap()
        .as_object()
        .unwrap();
    assert!(matches!(obj.get_key("x"), Err(Error::UnsupportedEscape)));
}

#[test]
fn lazy_number_fields_parse_on_demand() {
    assert_eq!(LazyU64("123").get(), Some(123));
    assert_eq!(LazyU64("0").get(), Some(0));
    assert_eq!(LazyU64("18446744073709551615").get(), Some(u64::MAX));
    assert_eq!(LazyU64("18446744073709551616").get(), None);
    assert_eq!(LazyU64("").get(), None);
    assert_eq!(LazyU64("12a").get(), None);
    assert_eq!(LazyU64("-3").get(), None);
    assert_eq!(LazyU64("97").raw(), "97");
    let f = LazyF64("-1.23");
    assert_eq!(f.raw().parse::<f64>().unwrap(), -1.23);
}
