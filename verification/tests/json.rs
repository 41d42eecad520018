use polysemic::json::{parse, Value};

#[test]
fn parses_and_roundtrips() {
    let src = r#"{"a":[1,2.5,true,null],"b":{"c":"hi\nthere"}}"#;
    let v = parse(src).unwrap();
    assert_eq!(v.to_string(), src);
}

#[test]
fn strict_parser_refuses_trailing_comma() {
    assert!(parse(r#"{"a":1,}"#).is_err());
}

#[test]
fn handles_unicode_escapes() {
    let v = parse(r#""\u00e9 \ud83d\ude00""#).unwrap();
    assert_eq!(v, Value::Str("é 😀".to_string()));
}

#[test]
fn rejects_duplicate_object_keys() {
    let error = parse(r#"{"qty":2,"qty":3}"#).unwrap_err();
    assert!(error.msg.contains("duplicate object key"));
}

#[test]
fn rejects_non_json_and_non_finite_numbers() {
    for input in ["-", "01", "2.", "1e", "1e+", "1e999"] {
        assert!(parse(input).is_err(), "accepted invalid number {input:?}");
    }
}

#[test]
fn rejects_unpaired_surrogates_without_panicking() {
    for input in [r#""\ud800""#, r#""\ud800\u0041""#, r#""\udc00""#] {
        assert!(parse(input).is_err(), "accepted invalid escape {input:?}");
    }
}
