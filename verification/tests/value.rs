use blueprint_helpers::value::{parse_json, position, Json, Number};

fn document(text: &str) -> Json {
    parse_json(text).expect("the text should be a document")
}

fn text(s: &str) -> Json {
    Json::String(s.to_owned())
}

fn written(number: &Number) -> String {
    let mut out = vec!['>'];
    number.write_to(&mut out);
    out.into_iter().collect()
}

#[test]
fn parse_reads_every_kind_of_value() {
    assert_eq!(parse_json("null"), Some(Json::Null));
    assert_eq!(parse_json(" true "), Some(Json::Bool(true)));
    assert_eq!(parse_json("false"), Some(Json::Bool(false)));
    assert_eq!(parse_json("\"a\\nb\\u00e9\""), Some(text("a\nb\u{e9}")));
    assert_eq!(parse_json("[]"), Some(Json::Array(vec![])));
    assert_eq!(parse_json("{}"), Some(Json::Object(vec![])));
    assert_eq!(
        parse_json(r#"[1, [2, {"a": null}]]"#),
        Some(Json::Array(vec![
            Json::Number(Number::PosInt(1)),
            Json::Array(vec![
                Json::Number(Number::PosInt(2)),
                Json::Object(vec![("a".to_owned(), Json::Null)]),
            ]),
        ]))
    );
}

#[test]
fn parse_holds_integers_exactly_and_other_numbers_as_written() {
    assert_eq!(parse_json("0"), Some(Json::Number(Number::PosInt(0))));
    assert_eq!(parse_json("18446744073709551615"), Some(Json::Number(Number::PosInt(u64::MAX))));
    assert_eq!(parse_json("-1"), Some(Json::Number(Number::NegInt(-1))));
    assert_eq!(parse_json("-9223372036854775808"), Some(Json::Number(Number::NegInt(i64::MIN))));
    assert_eq!(parse_json("562949957353472"), Some(Json::Number(Number::PosInt(562949957353472))));
    assert_eq!(parse_json("-218.5"), Some(Json::Number(Number::Float("-218.5".to_owned()))));
    assert_eq!(parse_json("1.0"), Some(Json::Number(Number::Float("1.0".to_owned()))));
    assert_eq!(parse_json("1e3"), Some(Json::Number(Number::Float("1000.0".to_owned()))));
    assert_eq!(parse_json("-0"), Some(Json::Number(Number::Float("-0.0".to_owned()))));
}

#[test]
fn parse_keeps_the_order_of_the_keys() {
    assert_eq!(
        parse_json(r#"{"b": 1, "a": 2, "c": 3}"#),
        Some(Json::Object(vec![
            ("b".to_owned(), Json::Number(Number::PosInt(1))),
            ("a".to_owned(), Json::Number(Number::PosInt(2))),
            ("c".to_owned(), Json::Number(Number::PosInt(3))),
        ]))
    );
    assert_eq!(
        parse_json(r#"{"b": 1, "a": 2, "b": 3}"#),
        Some(Json::Object(vec![
            ("b".to_owned(), Json::Number(Number::PosInt(3))),
            ("a".to_owned(), Json::Number(Number::PosInt(2))),
        ]))
    );
}

#[test]
fn parse_refuses_what_is_no_document() {
    assert_eq!(parse_json(""), None);
    assert_eq!(parse_json("{"), None);
    assert_eq!(parse_json("{\"a\": 1,}"), None);
    assert_eq!(parse_json("[1] 2"), None);
    assert_eq!(parse_json("nul"), None);
    assert_eq!(parse_json("'a'"), None);
}

#[test]
fn get_finds_what_stands_under_a_key() {
    let json = document(r#"{"a": 1, "b": {"c": "d"}, "": null}"#);
    assert_eq!(json.get("a"), Some(&Json::Number(Number::PosInt(1))));
    assert_eq!(json.get("b").and_then(|b| b.get("c")), Some(&text("d")));
    assert_eq!(json.get(""), Some(&Json::Null));
    assert_eq!(json.get("c"), None);
    assert_eq!(json.get("A"), None);
    assert_eq!(document("[1]").get("0"), None);
    assert_eq!(text("a").get("a"), None);
    let twice = Json::Object(vec![("k".to_owned(), text("first")), ("k".to_owned(), text("second"))]);
    assert_eq!(twice.get("k"), Some(&text("first")));
}

#[test]
fn position_is_the_place_of_the_first_entry() {
    let entries = vec![
        ("a".to_owned(), Json::Null),
        ("b".to_owned(), Json::Null),
        ("a".to_owned(), Json::Null),
    ];
    assert_eq!(position(&entries, "a"), Some(0));
    assert_eq!(position(&entries, "b"), Some(1));
    assert_eq!(position(&entries, "c"), None);
    assert_eq!(position(&vec![], "a"), None);
}

#[test]
fn insert_replaces_in_place_or_adds_at_the_end() {
    let mut json = document(r#"{"a": 1, "b": 2}"#);
    assert_eq!(json.insert("a", text("x")), Some(Json::Number(Number::PosInt(1))));
    assert_eq!(json, document(r#"{"a": "x", "b": 2}"#));
    assert_eq!(json.insert("c", Json::Null), None);
    assert_eq!(json, document(r#"{"a": "x", "b": 2, "c": null}"#));
    let mut list = document("[1]");
    assert_eq!(list.insert("a", Json::Null), None);
    assert_eq!(list, document("[1]"));
}

#[test]
fn take_leaves_null_behind() {
    let mut json = document(r#"{"a": [1], "b": 2}"#);
    assert_eq!(json.take("a"), Some(document("[1]")));
    assert_eq!(json, document(r#"{"a": null, "b": 2}"#));
    assert_eq!(json.take("c"), None);
    assert_eq!(json, document(r#"{"a": null, "b": 2}"#));
    assert_eq!(Json::Null.take("a"), None);
}

#[test]
fn values_by_their_kind() {
    assert_eq!(text("a").as_str(), Some("a"));
    assert_eq!(Json::Null.as_str(), None);
    assert_eq!(document("[1, 2]").as_array().map(|items| items.len()), Some(2));
    assert_eq!(document("{}").as_array(), None);
    assert_eq!(document("5").as_number(), Some(&Number::PosInt(5)));
    assert_eq!(text("5").as_number(), None);
    assert_eq!(Number::PosInt(5).as_u64(), Some(5));
    assert_eq!(Number::NegInt(-5).as_u64(), None);
    assert_eq!(Number::NegInt(5).as_u64(), None);
    assert_eq!(Number::Float("5.0".to_owned()).as_u64(), None);
}

#[test]
fn numbers_as_they_are_written() {
    assert_eq!(written(&Number::PosInt(0)), ">0");
    assert_eq!(written(&Number::PosInt(10)), ">10");
    assert_eq!(written(&Number::PosInt(u64::MAX)), ">18446744073709551615");
    assert_eq!(written(&Number::NegInt(-1)), ">-1");
    assert_eq!(written(&Number::NegInt(i64::MIN)), ">-9223372036854775808");
    assert_eq!(written(&Number::NegInt(7)), ">7");
    assert_eq!(written(&Number::Float("2.5e-3".to_owned())), ">2.5e-3");
}

#[test]
fn duplicate_is_a_copy() {
    let json = document(r#"{"a": [1, -2, 3.5, "x", null, true, {"b": {}}], "c": "d"}"#);
    assert_eq!(json.duplicate(), json);
    assert_eq!(Number::Float("1.5".to_owned()).duplicate(), Number::Float("1.5".to_owned()));
}
