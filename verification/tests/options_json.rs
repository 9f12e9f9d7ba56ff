use verovio::json::{Decimal, JsonValue, Number};
use verovio::options::{AllOptions, TransposeMDiv};
use verovio::MarshalError;

fn key(s: &str) -> Vec<u8> {
    s.as_bytes().to_vec()
}

fn text(s: &str) -> JsonValue {
    JsonValue::Text(s.as_bytes().to_vec())
}

#[test]
fn serialize_only_set_fields() {
    let mut o = AllOptions::new();
    o.set(key("scale"), JsonValue::Num(Number::Int(50)));
    o.set(key("font"), text("Leipzig"));
    let j = o.to_json();
    assert_eq!(String::from_utf8(j).unwrap(), "{\"scale\":50,\"font\":\"Leipzig\"}");
}

#[test]
fn serialize_empty_record() {
    let o = AllOptions::new();
    assert_eq!(String::from_utf8(o.to_json()).unwrap(), "{}");
}

#[test]
fn serialize_all_value_shapes() {
    let mut o = AllOptions::new();
    o.set(key("adjustPageHeight"), JsonValue::Bool(true));
    o.set(key("noJustification"), JsonValue::Bool(false));
    o.set(key("pageHeight"), JsonValue::Num(Number::Int(2970)));
    o.set(
        key("breaksSmartSb"),
        JsonValue::Num(Number::Dec(Decimal { neg: false, mantissa: 66, scale: 1 })),
    );
    o.set(
        key("svgAdditionalAttribute"),
        JsonValue::TextList(vec![key("note@pname"), key("note@oct")]),
    );
    o.set(key("transposeMdiv"), TransposeMDiv {}.as_value());
    let j = String::from_utf8(o.to_json()).unwrap();
    assert_eq!(
        j,
        "{\"adjustPageHeight\":true,\"noJustification\":false,\"pageHeight\":2970,\
         \"breaksSmartSb\":6.6,\"svgAdditionalAttribute\":[\"note@pname\",\"note@oct\"],\
         \"transposeMdiv\":{}}"
    );
}

#[test]
fn round_trip_preserves_fields() {
    let mut o = AllOptions::new();
    o.set(key("scale"), JsonValue::Num(Number::Int(50)));
    o.set(key("xmlIdSeed"), JsonValue::Num(Number::Int(-7)));
    o.set(key("font"), text("Leipzig"));
    o.set(
        key("spacingLinear"),
        JsonValue::Num(Number::Dec(Decimal { neg: false, mantissa: 25, scale: 2 })),
    );
    o.set(key("svgCss"), text("g { fill: red; }"));
    o.set(key("handwrittenFont"), JsonValue::TextList(vec![key("Petaluma")]));
    o.set(key("transposeMdiv"), TransposeMDiv {}.as_value());
    let j = o.to_json();
    let back = AllOptions::from_json(&j).unwrap();
    assert_eq!(back, o);
    assert_eq!(back.len(), 7);
}

#[test]
fn set_replaces_in_place() {
    let mut o = AllOptions::new();
    o.set(key("scale"), JsonValue::Num(Number::Int(50)));
    o.set(key("font"), text("Leipzig"));
    o.set(key("scale"), JsonValue::Num(Number::Int(75)));
    assert_eq!(o.len(), 2);
    assert_eq!(o.get(b"scale"), Some(&JsonValue::Num(Number::Int(75))));
    assert_eq!(
        String::from_utf8(o.to_json()).unwrap(),
        "{\"scale\":75,\"font\":\"Leipzig\"}"
    );
}

#[test]
fn get_missing_is_none() {
    let mut o = AllOptions::new();
    o.set(key("scale"), JsonValue::Num(Number::Int(50)));
    assert_eq!(o.get(b"font"), None);
}

#[test]
fn text_escapes_round_trip() {
    let mut o = AllOptions::new();
    o.set(key("svgCss"), text("a\"b\\c\nd\te"));
    let j = o.to_json();
    assert_eq!(
        String::from_utf8(j.clone()).unwrap(),
        "{\"svgCss\":\"a\\\"b\\\\c\\u000ad\\u0009e\"}"
    );
    let back = AllOptions::from_json(&j).unwrap();
    assert_eq!(back, o);
}

#[test]
fn parse_accepts_standard_escapes() {
    let o = AllOptions::from_json(b"{\"a\":\"x\\n\\t\\r\\b\\f\\/\\\\\\\"y\\u0041\"}").unwrap();
    assert_eq!(
        o.get(b"a"),
        Some(&JsonValue::Text(b"x\n\t\r\x08\x0c/\\\"yA".to_vec()))
    );
}

#[test]
fn parse_accepts_whitespace() {
    let o = AllOptions::from_json(b"  {  \"scale\" :  50 , \"x\" : true }  ").unwrap();
    assert_eq!(o.get(b"scale"), Some(&JsonValue::Num(Number::Int(50))));
    assert_eq!(o.get(b"x"), Some(&JsonValue::Bool(true)));
}

#[test]
fn decimal_is_kept_exactly() {
    let o = AllOptions::from_json(b"{\"a\":-0.50,\"b\":6.6,\"c\":0.005}").unwrap();
    assert_eq!(
        o.get(b"a"),
        Some(&JsonValue::Num(Number::Dec(Decimal { neg: true, mantissa: 50, scale: 2 })))
    );
    assert_eq!(
        o.get(b"b"),
        Some(&JsonValue::Num(Number::Dec(Decimal { neg: false, mantissa: 66, scale: 1 })))
    );
    assert_eq!(
        o.get(b"c"),
        Some(&JsonValue::Num(Number::Dec(Decimal { neg: false, mantissa: 5, scale: 3 })))
    );
}

#[test]
fn integer_bounds() {
    let o = AllOptions::from_json(
        b"{\"max\":9223372036854775807,\"min\":-9223372036854775808}",
    )
    .unwrap();
    assert_eq!(o.get(b"max"), Some(&JsonValue::Num(Number::Int(i64::MAX))));
    assert_eq!(o.get(b"min"), Some(&JsonValue::Num(Number::Int(i64::MIN))));
    assert_eq!(
        AllOptions::from_json(b"{\"over\":9223372036854775808}"),
        Err(MarshalError::Json)
    );
}

#[test]
fn malformed_documents_fail() {
    assert_eq!(AllOptions::from_json(b""), Err(MarshalError::Json));
    assert_eq!(AllOptions::from_json(b"[1,2]"), Err(MarshalError::Json));
    assert_eq!(AllOptions::from_json(b"{\"a\":1"), Err(MarshalError::Json));
    assert_eq!(AllOptions::from_json(b"{\"a\":1} x"), Err(MarshalError::Json));
    assert_eq!(AllOptions::from_json(b"{\"a\":1e5}"), Err(MarshalError::Json));
    assert_eq!(AllOptions::from_json(b"{\"a\":null}"), Err(MarshalError::Json));
    assert_eq!(AllOptions::from_json(b"{\"a\":{\"b\":1}}"), Err(MarshalError::Json));
}

#[test]
fn duplicate_names_fail() {
    assert_eq!(
        AllOptions::from_json(b"{\"a\":1,\"a\":2}"),
        Err(MarshalError::Json)
    );
}

#[test]
fn empty_text_list_round_trips() {
    let mut o = AllOptions::new();
    o.set(key("fontAddCustom"), JsonValue::TextList(Vec::new()));
    let j = o.to_json();
    assert_eq!(String::from_utf8(j.clone()).unwrap(), "{\"fontAddCustom\":[]}");
    assert_eq!(AllOptions::from_json(&j).unwrap(), o);
}

#[test]
fn describe_is_nonempty() {
    assert!(!MarshalError::Json.describe().is_empty());
    assert!(!MarshalError::Base64.describe().is_empty());
    assert!(!MarshalError::InteriorNul.describe().is_empty());
}
