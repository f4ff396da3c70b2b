use blueprint_helpers::blueprint::blueprint_to_json;
use blueprint_helpers::layout::Layout;
use blueprint_helpers::load::{
    assemble, declared_index_of, filename_index_of, find_repeat, insert_sorted, is_manifest_json,
    load, load_at, sort_by_index, Child, LoadError, Loaded, Warning,
};
use blueprint_helpers::round_trip::will_come_back;
use blueprint_helpers::save::save;
use blueprint_helpers::value::{parse_json, Json};

fn document(text: &str) -> Json {
    parse_json(text).expect("the text should be a document")
}

fn decode(bp: &str) -> Json {
    let json = blueprint_to_json(bp).expect("the blueprint string should decode");
    parse_json(&json).expect("should contain valid json")
}

fn path(segments: &[&str]) -> Vec<String> {
    segments.iter().map(|segment| segment.to_string()).collect()
}

fn file(text: &str) -> Layout {
    Layout::File(document(text))
}

fn directory(listing: Vec<(&str, Layout)>) -> Layout {
    Layout::Directory(listing.into_iter().map(|(name, layout)| (name.to_owned(), layout)).collect())
}

fn listing_of(layout: Layout) -> Vec<(String, Layout)> {
    match layout {
        Layout::Directory(listing) => listing,
        Layout::File(_) => panic!("a directory was expected"),
    }
}

fn rename(listing: &mut Vec<(String, Layout)>, from: &str, to: &str) {
    match listing.iter_mut().find(|(name, _)| name == from) {
        Some(listed) => listed.0 = to.to_owned(),
        None => panic!("nothing is listed under {from}"),
    }
}

fn child(index: u64, name: &str) -> Child {
    Child { path: path(&[name]), index, value: Json::String(name.to_owned()) }
}

fn order(children: &[Child]) -> Vec<(u64, String)> {
    children.iter().map(|child| (child.index, child.path[0].clone())).collect()
}

const BOOK: &str = "0eNrlUdtqg0AQ/ZUwz2uIJkYU8pIPCH0vRVadliV7sXsJDeK/d1SiLYS00Mc+ztk5lz3TQSUDtlZoX1bGnKHoFsRB8fxlHN5EbfQEO/GmuRwwzRVCAVWQ50hoh9ajhZ6B0A1+QBH3LwxQe+EFTtRxuJY6qIo2i5jdl2DQGkcsowcXUkrybJ0yuBIly9cpWTTCYj1txAmDVyGJOJnc3Gfx2rQt2shYJOX3wCVlIDjo2ihFCow2VMst94ZCwQGG3MFhOat6G3AAhUc1pJ2LYSB5hVQGHJ9WJ7JbxYRdiDRGS/dJvsvzNNum212WLNVsetb9+wNYPgJ/KP/novf3mNHY93K7EzqPzeo4oZy+dcHyJvAbl/iRy3e9zQO9/hMTWy6D";
const EMPTY_MANIFEST: &str = r#"{"blueprint_book": {"blueprints": [], "label": "Shelf"}}"#;

#[test]
#[should_panic(expected = "have same index 1")]
fn test_load_duplicate() {
    let json = decode(BOOK);
    let saved = save(json.duplicate());
    assert_eq!(saved.name, "Untitled");
    let mut subfiles = listing_of(saved.layout);
    let mut names: Vec<&str> = subfiles.iter().map(|(name, _)| name.as_str()).collect();
    names.sort();
    assert_eq!(names, ["0 BP Name 1.json", "1 Nested Book", "book.json"]);

    rename(&mut subfiles, "0 BP Name 1.json", "1 BP Name 1.json");

    match load(Layout::Directory(subfiles)) {
        Ok(loaded) => assert_eq!(loaded.value, json),
        Err(LoadError::DuplicateIndex { first, second, index }) => {
            panic!("error: {first:?} and {second:?} have same index {index}")
        }
        Err(other) => panic!("{other:?}"),
    }
}

#[test]
fn load_duplicate_index_names_both_entries() {
    let saved = save(decode(BOOK));
    let mut subfiles = listing_of(saved.layout);
    rename(&mut subfiles, "0 BP Name 1.json", "1 BP Name 1.json");
    assert_eq!(
        load(Layout::Directory(subfiles)),
        Err(LoadError::DuplicateIndex {
            first: path(&["1 BP Name 1.json"]),
            second: path(&["1 Nested Book"]),
            index: 1,
        })
    );
}

#[test]
fn load_duplicate_declared_indexes() {
    let layout = directory(vec![
        ("book.json", file(EMPTY_MANIFEST)),
        ("b.json", file(r#"{"blueprint": {"label": "b"}, "index": 1}"#)),
        ("a.json", file(r#"{"blueprint": {"label": "a"}, "index": 1}"#)),
        ("c.json", file(r#"{"blueprint": {"label": "c"}, "index": 0}"#)),
    ]);
    assert_eq!(
        load(layout),
        Err(LoadError::DuplicateIndex { first: path(&["b.json"]), second: path(&["a.json"]), index: 1 })
    );
}

#[test]
fn load_after_save_gives_the_book_back() {
    let json = decode(BOOK);
    let saved = save(json.duplicate());
    assert_eq!(load(saved.layout), Ok(Loaded { value: json, warnings: vec![] }));
}

#[test]
fn load_after_save_keeps_the_order_of_two_entries() {
    let book = document(
        r#"{"blueprint_book": {"blueprints": [
            {"blueprint": {"label": "zero"}, "index": 0},
            {"blueprint": {"label": "one"}, "index": 1}
        ], "item": "blueprint-book"}}"#,
    );
    let loaded = load(save(book.duplicate()).layout).expect("the book should load");
    assert_eq!(loaded.warnings, vec![]);
    let blueprints = loaded.value.get("blueprint_book").unwrap().get("blueprints").unwrap();
    assert_eq!(
        blueprints,
        &document(r#"[{"blueprint": {"label": "zero"}, "index": 0}, {"blueprint": {"label": "one"}, "index": 1}]"#)
    );
    assert_eq!(loaded.value, book);
}

#[test]
fn will_come_back_tells_whether_load_undoes_save() {
    let cases = [
        (r#"{"blueprint": {"label": "alone"}}"#, true),
        (r#"[1, 2]"#, true),
        (r#"{"blueprint_book": {"blueprints": []}}"#, true),
        (
            r#"{"blueprint_book": {"blueprints": [
                {"blueprint": {"label": "a"}, "index": 0},
                {"blueprint_book": {"blueprints": [{"upgrade_planner": {}, "index": 3}]}, "index": 5}
            ]}}"#,
            true,
        ),
        (
            r#"{"blueprint_book": {"blueprints": [
                {"blueprint": {"label": "b"}, "index": 1},
                {"blueprint": {"label": "a"}, "index": 0}
            ]}}"#,
            false,
        ),
        (
            r#"{"blueprint_book": {"blueprints": [
                {"blueprint": {"label": "a"}, "index": 1},
                {"blueprint": {"label": "b"}, "index": 1}
            ]}}"#,
            false,
        ),
        (r#"{"blueprint_book": {"blueprints": [{"blueprint": {"label": "a"}}]}}"#, false),
        (r#"{"blueprint_book": {"blueprints": [{"blueprint": {"label": "7 a"}}]}}"#, false),
        (r#"{"blueprint_book": {"blueprints": [{"blueprint": {"label": "a"}, "index": -1}]}}"#, false),
        (r#"{"blueprint_book": {"blueprints": [{"blueprint": {"label": "a"}, "index": 1.5}]}}"#, false),
        (
            r#"{"blueprint_book": {"blueprints": [
                {"blueprint_book": {"blueprints": [{"blueprint": {}}]}, "index": 0}
            ]}}"#,
            false,
        ),
    ];
    for (text, expected) in cases {
        let json = document(text);
        assert_eq!(will_come_back(&json), expected, "{text}");
        let back = load(save(json.duplicate()).layout);
        assert_eq!(back == Ok(Loaded { value: json, warnings: vec![] }), expected, "{text}");
    }
    assert!(will_come_back(&decode(BOOK)));
}

#[test]
fn load_does_not_depend_on_the_order_of_the_listing() {
    let json = decode(BOOK);
    let mut subfiles = listing_of(save(json.duplicate()).layout);
    subfiles.reverse();
    assert_eq!(load(Layout::Directory(subfiles)), Ok(Loaded { value: json, warnings: vec![] }));
}

#[test]
fn load_uses_the_index_of_the_name_and_warns() {
    let json = decode(BOOK);
    let mut subfiles = listing_of(save(json.duplicate()).layout);
    rename(&mut subfiles, "0 BP Name 1.json", "5 BP Name 1.json");
    let loaded = load(Layout::Directory(subfiles)).expect("a mismatch is no failure");
    assert_eq!(
        loaded.warnings,
        vec![Warning::IndexMismatch { path: path(&["5 BP Name 1.json"]), declared: 0, used: 5 }]
    );
    let children = json.get("blueprint_book").unwrap().get("blueprints").unwrap().as_array().unwrap();
    let blueprints = loaded.value.get("blueprint_book").unwrap().get("blueprints").unwrap();
    assert_eq!(blueprints, &Json::Array(vec![children[1].duplicate(), children[0].duplicate()]));
    assert_eq!(declared_index_of(&blueprints.as_array().unwrap()[1]), Some(0));
}

#[test]
fn load_renamed_to_one_while_it_declares_zero() {
    let layout = directory(vec![
        ("book.json", file(EMPTY_MANIFEST)),
        ("1 renamed.json", file(r#"{"blueprint": {"label": "renamed"}, "index": 0}"#)),
        ("0 other.json", file(r#"{"blueprint": {"label": "other"}, "index": 0}"#)),
    ]);
    let loaded = load(layout).expect("a mismatch is no failure");
    assert_eq!(
        loaded.warnings,
        vec![Warning::IndexMismatch { path: path(&["1 renamed.json"]), declared: 0, used: 1 }]
    );
    assert_eq!(
        loaded.value,
        document(
            r#"{"blueprint_book": {"blueprints": [
                {"blueprint": {"label": "other"}, "index": 0},
                {"blueprint": {"label": "renamed"}, "index": 0}
            ], "label": "Shelf"}}"#
        )
    );
}

#[test]
fn load_assumes_the_index_of_the_name() {
    let layout = directory(vec![
        ("3 c.json", file(r#"{"blueprint": {"label": "c"}}"#)),
        ("book.json", file(EMPTY_MANIFEST)),
        ("+2 b.json", file(r#"{"blueprint": {"label": "b"}, "index": "x"}"#)),
    ]);
    let loaded = load(layout).expect("the index of the name should do");
    assert_eq!(
        loaded.warnings,
        vec![
            Warning::IndexAssumed { path: path(&["3 c.json"]), index: 3 },
            Warning::IndexAssumed { path: path(&["+2 b.json"]), index: 2 },
        ]
    );
    assert_eq!(
        loaded.value,
        document(
            r#"{"blueprint_book": {"blueprints": [
                {"blueprint": {"label": "b"}, "index": "x"},
                {"blueprint": {"label": "c"}}
            ], "label": "Shelf"}}"#
        )
    );
}

#[test]
fn load_missing_index() {
    let layout = directory(vec![
        ("book.json", file(EMPTY_MANIFEST)),
        ("first.json", file(r#"{"blueprint": {}, "index": 4}"#)),
        ("second one.json", file(r#"{"blueprint": {}}"#)),
        ("third.json", file(r#"{"blueprint": {}}"#)),
    ]);
    assert_eq!(load(layout), Err(LoadError::MissingIndex { path: path(&["second one.json"]) }));
    let negative = directory(vec![
        ("book.json", file(EMPTY_MANIFEST)),
        ("x.json", file(r#"{"blueprint": {}, "index": -1}"#)),
    ]);
    assert_eq!(load(negative), Err(LoadError::MissingIndex { path: path(&["x.json"]) }));
}

#[test]
fn load_missing_manifest() {
    let layout = directory(vec![("0 a.json", file(r#"{"blueprint": {}, "index": 0}"#))]);
    assert_eq!(load(layout), Err(LoadError::MissingManifest { path: path(&["book.json"]) }));
    assert_eq!(load(directory(vec![])), Err(LoadError::MissingManifest { path: path(&["book.json"]) }));
}

#[test]
fn load_manifest_not_empty() {
    let with_entries = directory(vec![(
        "book.json",
        file(r#"{"blueprint_book": {"blueprints": [{"blueprint": {}, "index": 0}]}}"#),
    )]);
    assert_eq!(load(with_entries), Err(LoadError::ManifestNotEmpty { path: path(&["book.json"]) }));
    let no_book = directory(vec![("book.json", file(r#"{"blueprint": {"blueprints": []}}"#))]);
    assert_eq!(load(no_book), Err(LoadError::ManifestNotEmpty { path: path(&["book.json"]) }));
    let no_list = directory(vec![("book.json", file(r#"{"blueprint_book": {}}"#))]);
    assert_eq!(load(no_list), Err(LoadError::ManifestNotEmpty { path: path(&["book.json"]) }));
    let no_array = directory(vec![("book.json", file(r#"{"blueprint_book": {"blueprints": {}}}"#))]);
    assert_eq!(load(no_array), Err(LoadError::ManifestNotEmpty { path: path(&["book.json"]) }));
}

#[test]
fn load_duplicate_index_comes_before_the_manifest_check() {
    let layout = directory(vec![
        ("book.json", file(r#"{"blueprint_book": {}}"#)),
        ("1 a.json", file(r#"{"blueprint": {}}"#)),
        ("1 b.json", file(r#"{"blueprint": {}}"#)),
    ]);
    assert_eq!(
        load(layout),
        Err(LoadError::DuplicateIndex { first: path(&["1 a.json"]), second: path(&["1 b.json"]), index: 1 })
    );
}

#[test]
fn load_failures_below_carry_their_path() {
    let layout = directory(vec![
        ("book.json", file(EMPTY_MANIFEST)),
        ("0 inner", directory(vec![("0 a.json", file(r#"{"blueprint": {}}"#))])),
    ]);
    assert_eq!(
        load(layout),
        Err(LoadError::MissingManifest { path: path(&["0 inner", "book.json"]) })
    );
    let deeper = directory(vec![
        ("book.json", file(EMPTY_MANIFEST)),
        (
            "0 inner",
            directory(vec![
                ("book.json", file(EMPTY_MANIFEST)),
                ("lost.json", file(r#"{"blueprint": {}}"#)),
            ]),
        ),
    ]);
    assert_eq!(load(deeper), Err(LoadError::MissingIndex { path: path(&["0 inner", "lost.json"]) }));
}

#[test]
fn load_gathers_the_warnings_of_nested_books() {
    let layout = directory(vec![
        (
            "7 inner",
            directory(vec![
                ("book.json", file(r#"{"blueprint_book": {"blueprints": []}, "index": 7}"#)),
                ("2 a.json", file(r#"{"blueprint": {}}"#)),
            ]),
        ),
        ("book.json", file(EMPTY_MANIFEST)),
    ]);
    let loaded = load_at(layout, &path(&["root"])).expect("the books should load");
    assert_eq!(
        loaded.warnings,
        vec![Warning::IndexAssumed { path: path(&["root", "7 inner", "2 a.json"]), index: 2 }]
    );
    assert_eq!(
        loaded.value,
        document(
            r#"{"blueprint_book": {"blueprints": [
                {"blueprint_book": {"blueprints": [{"blueprint": {}}]}, "index": 7}
            ], "label": "Shelf"}}"#
        )
    );
}

#[test]
fn load_file_gives_its_document() {
    assert_eq!(
        load(file(r#"{"blueprint": {"label": "x"}}"#)),
        Ok(Loaded { value: document(r#"{"blueprint": {"label": "x"}}"#), warnings: vec![] })
    );
    assert_eq!(load(file("[]")), Ok(Loaded { value: document("[]"), warnings: vec![] }));
}

#[test]
fn filename_index_is_the_word_before_the_first_space() {
    assert_eq!(filename_index_of("12 name.json"), Some(12));
    assert_eq!(filename_index_of("0 a b c"), Some(0));
    assert_eq!(filename_index_of("007 bond"), Some(7));
    assert_eq!(filename_index_of("+5 plus"), Some(5));
    assert_eq!(filename_index_of("18446744073709551615 max"), Some(u64::MAX));
    assert_eq!(filename_index_of("18446744073709551616 over"), None);
    assert_eq!(filename_index_of("99999999999999999999999 over"), None);
    assert_eq!(filename_index_of("-5 minus"), None);
    assert_eq!(filename_index_of("12"), None);
    assert_eq!(filename_index_of("12.json"), None);
    assert_eq!(filename_index_of(" 12 space first"), None);
    assert_eq!(filename_index_of("+ x"), None);
    assert_eq!(filename_index_of("1x 2"), None);
    assert_eq!(filename_index_of("book.json"), None);
    assert_eq!(filename_index_of(""), None);
    assert_eq!(filename_index_of("\u{661} x"), None);
}

#[test]
fn declared_index_is_an_unsigned_integer_under_index() {
    assert_eq!(declared_index_of(&document(r#"{"index": 3}"#)), Some(3));
    assert_eq!(declared_index_of(&document(r#"{"index": 0}"#)), Some(0));
    assert_eq!(declared_index_of(&document(r#"{"index": -3}"#)), None);
    assert_eq!(declared_index_of(&document(r#"{"index": 3.0}"#)), None);
    assert_eq!(declared_index_of(&document(r#"{"index": "3"}"#)), None);
    assert_eq!(declared_index_of(&document(r#"{"blueprint": {"index": 3}}"#)), None);
    assert_eq!(declared_index_of(&document(r#"[3]"#)), None);
}

#[test]
fn sort_keeps_entries_with_one_index_in_their_order() {
    let sorted = sort_by_index(vec![child(2, "a"), child(1, "b"), child(2, "c"), child(0, "d"), child(1, "e")]);
    assert_eq!(
        order(&sorted),
        vec![
            (0, "d".to_owned()),
            (1, "b".to_owned()),
            (1, "e".to_owned()),
            (2, "a".to_owned()),
            (2, "c".to_owned())
        ]
    );
    assert_eq!(find_repeat(&sorted), Some(1));
    let mut fewer = sort_by_index(vec![child(9, "x"), child(3, "y")]);
    assert_eq!(find_repeat(&fewer), None);
    insert_sorted(&mut fewer, child(3, "z"));
    insert_sorted(&mut fewer, child(0, "w"));
    assert_eq!(
        order(&fewer),
        vec![(0, "w".to_owned()), (3, "y".to_owned()), (3, "z".to_owned()), (9, "x".to_owned())]
    );
    assert_eq!(find_repeat(&fewer), Some(1));
    assert_eq!(find_repeat(&Vec::new()), None);
}

#[test]
fn assemble_puts_the_entries_into_the_manifest() {
    let outcome = assemble(
        Some(document(EMPTY_MANIFEST)),
        vec![child(4, "late"), child(1, "early")],
        vec![Warning::IndexAssumed { path: path(&["x"]), index: 1 }],
        &path(&["dir"]),
    );
    assert_eq!(
        outcome,
        Ok(Loaded {
            value: document(r#"{"blueprint_book": {"blueprints": ["early", "late"], "label": "Shelf"}}"#),
            warnings: vec![Warning::IndexAssumed { path: path(&["x"]), index: 1 }],
        })
    );
    assert_eq!(
        assemble(None, vec![], vec![], &path(&["dir"])),
        Err(LoadError::MissingManifest { path: path(&["dir", "book.json"]) })
    );
}

#[test]
fn manifest_is_a_book_with_an_empty_list() {
    assert!(is_manifest_json(&document(EMPTY_MANIFEST)));
    assert!(!is_manifest_json(&document(r#"{"blueprint_book": {"blueprints": [1]}}"#)));
    assert!(!is_manifest_json(&document(r#"{"blueprint_book": {"blueprints": null}}"#)));
    assert!(!is_manifest_json(&document(r#"{"blueprint": {"blueprints": []}}"#)));
    assert!(!is_manifest_json(&Json::Null));
}
