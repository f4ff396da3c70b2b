use blueprint_helpers::blueprint::{
    blueprint_to_json, json_to_blueprint, make_constant_combinator_json, make_filter,
    make_filters, read_text, set_filters, set_tag_in_string, strip_version, BlueprintType,
    CodecError, Quality, COMBINATOR,
};
use blueprint_helpers::value::{parse_json, Json};

fn document(text: &str) -> Json {
    parse_json(text).expect("the text should be a document")
}

const SMALL: &str = "0eNptjsEKwjAQRP9lzqvYg5f8ioi0ddGFZlOyqVhC/t0kHrx4WmaY99iMadl4jaIJLkPmoAZ3yTB56Li0TkfPcJAY9DA/2RIKQfTOb7ihXAmsSZLwl+thv+nmJ451QH94whqsIkGbv2pOxzNh77c0oyT2Ffm9RnhxtA4MpXwADuE8+w==";

#[test]
fn test_set_tag() {
    assert_eq!(
        set_tag_in_string("foo bar".into(), "t", "val"),
        "foo bar\nt: val"
    );

    // Empty string considered to be empty
    assert_eq!(set_tag_in_string("".into(), "t", "val"), "t: val");

    // Existing newlines are considered intentional
    assert_eq!(set_tag_in_string("\n".into(), "t", "val"), "\n\nt: val");
}

#[test]
fn set_tag_writes_the_line_of_the_tag_anew() {
    assert_eq!(set_tag_in_string("t: old".into(), "t", "new"), "t: new");
    assert_eq!(set_tag_in_string("t:old\nrest".into(), "t", "new"), "t: new\nrest");
    assert_eq!(set_tag_in_string("first\nt: old\nlast\n".into(), "t", "new"), "first\nt: new\nlast\n");
    assert_eq!(set_tag_in_string("first\nt: old".into(), "t", "new"), "first\nt: new");
    assert_eq!(
        set_tag_in_string("a\nt: one\nt: two".into(), "t", "new"),
        "a\nt: new\nt: two"
    );
    assert_eq!(set_tag_in_string("t: one\nx\nt: two".into(), "t", "new"), "t: new\nx\nt: two");
}

#[test]
fn set_tag_needs_the_tag_at_the_beginning_of_a_line() {
    assert_eq!(set_tag_in_string("at: old".into(), "t", "new"), "at: old\nt: new");
    assert_eq!(set_tag_in_string("x t: old".into(), "t", "new"), "x t: old\nt: new");
    assert_eq!(set_tag_in_string("t old".into(), "t", "new"), "t old\nt: new");
    assert_eq!(set_tag_in_string("\u{e9}t\u{e9}: 1".into(), "\u{e9}t\u{e9}", "\u{fc}"), "\u{e9}t\u{e9}: \u{fc}");
    assert_eq!(set_tag_in_string("x".into(), "", "v"), "x\n: v");
    assert_eq!(set_tag_in_string(":x".into(), "", "v"), ": v");
}

#[test]
fn decode_reads_a_blueprint_string() {
    let text = blueprint_to_json(SMALL).expect("the blueprint string should decode");
    assert_eq!(
        document(&text),
        document(r#"{"blueprint": {"icons": [{"signal": {"name": "iron-chest"}, "index": 1}], "entities": [{"entity_number": 1, "name": "iron-chest", "position": {"x": 0.5, "y": 0.5}}], "item": "blueprint", "version": 1}}"#)
    );
}

#[test]
fn decode_leaves_out_the_white_space_around() {
    let plain = blueprint_to_json(SMALL);
    assert!(plain.is_ok());
    assert_eq!(blueprint_to_json(&format!("  \n{SMALL}\t\r\n")), plain);
    assert_eq!(blueprint_to_json(&format!("\u{a0}{SMALL}\u{3000}")), plain);
    assert!(matches!(blueprint_to_json(&format!("0 {}", &SMALL[1..])), Err(CodecError::MalformedBase64 { .. })));
}

#[test]
fn decode_wants_the_version_marker() {
    assert_eq!(blueprint_to_json(""), Err(CodecError::UnsupportedVersion { found: None }));
    assert_eq!(blueprint_to_json("   \n"), Err(CodecError::UnsupportedVersion { found: None }));
    assert_eq!(blueprint_to_json("1eNpVjEEK"), Err(CodecError::UnsupportedVersion { found: Some('1') }));
    assert_eq!(blueprint_to_json(&SMALL[1..]), Err(CodecError::UnsupportedVersion { found: Some('e') }));
    assert_eq!(blueprint_to_json("\u{e9}abc"), Err(CodecError::UnsupportedVersion { found: Some('\u{e9}') }));
    assert_eq!(blueprint_to_json("O"), Err(CodecError::UnsupportedVersion { found: Some('O') }));
    assert_eq!(blueprint_to_json("{\"blueprint\": {}}"), Err(CodecError::UnsupportedVersion { found: Some('{') }));
}

#[test]
fn decode_malformed_base64() {
    assert!(matches!(blueprint_to_json("0***"), Err(CodecError::MalformedBase64 { .. })));
    assert!(matches!(blueprint_to_json("0eNp"), Err(CodecError::MalformedBase64 { .. })));
    assert!(matches!(blueprint_to_json("0\u{e9}"), Err(CodecError::MalformedBase64 { .. })));
    assert!(matches!(blueprint_to_json(&format!("00{}", &SMALL[1..])), Err(CodecError::MalformedBase64 { .. })));
}

#[test]
fn decode_malformed_compression() {
    assert!(matches!(blueprint_to_json("0"), Err(CodecError::MalformedCompression { .. })));
    assert!(matches!(blueprint_to_json("0aGVsbG8gd29ybGQ="), Err(CodecError::MalformedCompression { .. })));
    // a stream that ends too early
    assert!(matches!(blueprint_to_json(&SMALL[..41]), Err(CodecError::MalformedCompression { .. })));
    // a stream whose checksum does not match
    assert_eq!(blueprint_to_json("0eJzLSM3JyQcABiwCFQ=="), Ok("hello".to_owned()));
    assert!(matches!(blueprint_to_json("0eJzLSM3JyQcABiwCFg=="), Err(CodecError::MalformedCompression { .. })));
}

#[test]
fn decode_errors_say_why() {
    match blueprint_to_json("0***") {
        Err(CodecError::MalformedBase64 { reason }) => assert!(!reason.is_empty()),
        other => panic!("{other:?}"),
    }
    match blueprint_to_json("0aGVsbG8gd29ybGQ=") {
        Err(CodecError::MalformedCompression { reason }) => assert!(!reason.is_empty()),
        other => panic!("{other:?}"),
    }
    assert_eq!(blueprint_to_json("0***"), blueprint_to_json(" 0***\n"));
}

#[test]
fn decode_invalid_text() {
    // the zlib stream of the bytes ff fe
    assert_eq!(blueprint_to_json("0eJz7/w8AAv4B/g=="), Err(CodecError::InvalidText));
    assert_eq!(read_text(vec![0xff, 0xfe]), Err(CodecError::InvalidText));
    assert_eq!(read_text(vec![0xc3]), Err(CodecError::InvalidText));
    assert_eq!(read_text(vec![0xc3, 0xa9, b'x']), Ok("\u{e9}x".to_owned()));
    assert_eq!(read_text(vec![]), Ok(String::new()));
}

#[test]
fn strip_version_takes_the_marker_off() {
    assert_eq!(strip_version("0abc"), Ok("abc".to_owned()));
    assert_eq!(strip_version(" \t0 a b \n"), Ok(" a b".to_owned()));
    assert_eq!(strip_version("0"), Ok(String::new()));
    assert_eq!(strip_version("00"), Ok("0".to_owned()));
    assert_eq!(strip_version("abc"), Err(CodecError::UnsupportedVersion { found: Some('a') }));
    assert_eq!(strip_version(" "), Err(CodecError::UnsupportedVersion { found: None }));
    assert_eq!(strip_version(""), Err(CodecError::UnsupportedVersion { found: None }));
}

#[test]
fn encode_then_decode_gives_the_text_back() {
    for text in [
        "",
        "{}",
        "{\"blueprint\":{\"label\":\"caf\u{e9} \u{1f680}\",\"version\":562949957353472}}",
        "  not even a document \n",
        "0eNp",
    ] {
        let wire = json_to_blueprint(text);
        assert!(wire.starts_with('0'));
        assert_eq!(blueprint_to_json(&wire), Ok(text.to_owned()));
    }
    let long = "abc".repeat(100_000);
    let wire = json_to_blueprint(&long);
    assert!(wire.len() < long.len());
    assert_eq!(blueprint_to_json(&wire), Ok(long));
}

#[test]
fn encode_writes_marker_and_base64_of_a_zlib_stream() {
    let wire = json_to_blueprint("hello");
    assert_eq!(&wire[..1], "0");
    assert!(wire[1..].bytes().all(|b| b.is_ascii_alphanumeric() || b == b'+' || b == b'/' || b == b'='));
    assert_eq!(wire.len() % 4, 1);
    // a zlib stream begins with the byte 78
    assert!(wire.starts_with("0eA") || wire.starts_with("0eF") || wire.starts_with("0eJ") || wire.starts_with("0eN"));
}

#[test]
fn decode_does_not_need_the_encoder_s_own_packing() {
    // "hello" packed at the best level by another program
    assert_eq!(blueprint_to_json("0eNrLSM3JyQcABiwCFQ=="), Ok("hello".to_owned()));
    assert_ne!(json_to_blueprint("hello"), "0eNrLSM3JyQcABiwCFQ==");
}

#[test]
fn kind_is_the_first_of_the_four_keys() {
    let blueprint = document(r#"{"blueprint": {"label": "a"}, "index": 1}"#);
    assert!(matches!(BlueprintType::<&Json>::new(&blueprint), BlueprintType::Blueprint(_)));
    let book = document(r#"{"index": 1, "blueprint_book": {"label": "b"}}"#);
    assert!(matches!(BlueprintType::<&Json>::new(&book), BlueprintType::BlueprintBook(_)));
    let upgrade = document(r#"{"upgrade_planner": {}}"#);
    assert!(matches!(BlueprintType::<&Json>::new(&upgrade), BlueprintType::UpgradePlanner(_)));
    let deconstruction = document(r#"{"deconstruction_planner": {}}"#);
    assert!(matches!(
        BlueprintType::<&Json>::new(&deconstruction),
        BlueprintType::DeconstructionPlanner(_)
    ));
    let both = document(r#"{"deconstruction_planner": {"label": "d"}, "blueprint_book": {"label": "b"}}"#);
    let kind = BlueprintType::<&Json>::new(&both);
    assert!(matches!(kind, BlueprintType::BlueprintBook(_)));
    assert_eq!(kind.any(), &document(r#"{"label": "b"}"#));
    assert_eq!(kind.label(), Some("b"));
}

#[test]
fn kind_of_what_is_no_entry() {
    assert!(BlueprintType::detect(&document(r#"{"label": "x"}"#)).is_none());
    assert!(BlueprintType::detect(&document(r#"["blueprint"]"#)).is_none());
    assert!(BlueprintType::detect(&Json::Null).is_none());
    let blueprint = document(r#"{"blueprint": {"label": 3}}"#);
    let kind = BlueprintType::detect(&blueprint).expect("a blueprint");
    assert_eq!(kind.label(), None);
}

#[test]
fn kind_open_to_change_writes_into_the_entry() {
    let mut entry = document(r#"{"index": 2, "upgrade_planner": {"label": "u"}}"#);
    let mut kind = BlueprintType::<&mut Json>::new(&mut entry);
    assert!(matches!(kind, BlueprintType::UpgradePlanner(_)));
    assert_eq!(kind.as_ref().label(), Some("u"));
    kind.any_mut().insert("label", Json::String("v".to_owned()));
    assert_eq!(kind.as_ref().label(), Some("v"));
    assert_eq!(entry, document(r#"{"index": 2, "upgrade_planner": {"label": "v"}}"#));
}

#[test]
fn set_tag_in_description_of_an_entry() {
    let mut entry = document(r#"{"blueprint": {"label": "a"}}"#);
    BlueprintType::<&mut Json>::new(&mut entry).set_tag_in_description("count", "3");
    assert_eq!(entry, document(r#"{"blueprint": {"label": "a", "description": "count: 3"}}"#));
    BlueprintType::<&mut Json>::new(&mut entry).set_tag_in_description("by", "me");
    BlueprintType::<&mut Json>::new(&mut entry).set_tag_in_description("count", "4");
    assert_eq!(
        entry,
        document(r#"{"blueprint": {"label": "a", "description": "count: 4\nby: me"}}"#)
    );
}

#[test]
fn quality_suffix() {
    assert_eq!(Quality(None).fmt_suffix(), "");
    assert_eq!(Quality(Some("rare".to_owned())).fmt_suffix(), " (rare)");
    assert_eq!(Quality(Some(String::new())).fmt_suffix(), " ()");
}

#[test]
fn filter_of_a_signal() {
    assert_eq!(
        make_filter(0, "iron-plate", &Quality(None), 12),
        document(r#"{"index": 1, "count": 12, "signal": {"type": "item", "name": "iron-plate"}}"#)
    );
    assert_eq!(
        make_filter(41, "gear", &Quality(Some("epic".to_owned())), -3),
        document(r#"{"index": 42, "count": -3, "signal": {"type": "item", "name": "gear", "quality": "epic"}}"#)
    );
    assert_eq!(
        make_filters(&vec![
            (("a".to_owned(), Quality(None)), 0),
            (("b".to_owned(), Quality(None)), i64::MIN),
            (("c".to_owned(), Quality(None)), i64::MAX),
        ]),
        vec![
            document(r#"{"index": 1, "count": 0, "signal": {"type": "item", "name": "a"}}"#),
            document(r#"{"index": 2, "count": -9223372036854775808, "signal": {"type": "item", "name": "b"}}"#),
            document(r#"{"index": 3, "count": 9223372036854775807, "signal": {"type": "item", "name": "c"}}"#),
        ]
    );
}

#[test]
fn filters_go_into_the_one_entity() {
    let template = document(
        r#"{"blueprint": {"entities": [{"name": "c", "control_behavior": {"filters": [1, 2], "on": true}}], "item": "blueprint"}}"#,
    );
    assert_eq!(
        set_filters(template, vec![Json::Bool(true)]),
        Some(document(
            r#"{"blueprint": {"entities": [{"name": "c", "control_behavior": {"filters": [true], "on": true}}], "item": "blueprint"}}"#
        ))
    );
    for broken in [
        r#"{"blueprint_book": {}}"#,
        r#"{"blueprint": {}}"#,
        r#"{"blueprint": {"entities": {}}}"#,
        r#"{"blueprint": {"entities": []}}"#,
        r#"{"blueprint": {"entities": [{"control_behavior": {"filters": []}}, {"control_behavior": {"filters": []}}]}}"#,
        r#"{"blueprint": {"entities": [{}]}}"#,
        r#"{"blueprint": {"entities": [{"control_behavior": {}}]}}"#,
        r#"{"blueprint": {"entities": [{"control_behavior": {"filters": {}}}]}}"#,
    ] {
        assert_eq!(set_filters(document(broken), vec![]), None, "{broken}");
    }
}

#[test]
fn constant_combinator_sends_the_signals() {
    let template = document(&blueprint_to_json(COMBINATOR).expect("the combinator should decode"));
    let entities = template.get("blueprint").unwrap().get("entities").unwrap().as_array().unwrap();
    assert_eq!(entities.len(), 1);
    assert_eq!(entities[0].get("name"), Some(&Json::String("constant-combinator".to_owned())));

    let made = make_constant_combinator_json(vec![
        (("iron-plate".to_owned(), Quality(None)), 250),
        (("gear".to_owned(), Quality(Some("rare".to_owned()))), 46),
    ])
    .expect("the combinator should be made");
    let entities = made.get("blueprint").unwrap().get("entities").unwrap().as_array().unwrap();
    assert_eq!(entities.len(), 1);
    assert_eq!(
        entities[0].get("control_behavior").unwrap().get("filters"),
        Some(&document(
            r#"[
                {"index": 1, "count": 250, "signal": {"type": "item", "name": "iron-plate"}},
                {"index": 2, "count": 46, "signal": {"type": "item", "name": "gear", "quality": "rare"}}
            ]"#
        ))
    );
    assert_eq!(made.get("blueprint").unwrap().get("item"), template.get("blueprint").unwrap().get("item"));

    let none = make_constant_combinator_json(vec![]).expect("the combinator should be made");
    let filters = none.get("blueprint").unwrap().get("entities").unwrap().as_array().unwrap()[0]
        .get("control_behavior")
        .unwrap()
        .get("filters");
    assert_eq!(filters, Some(&Json::Array(vec![])));
}
