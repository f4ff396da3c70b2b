use blueprint_helpers::blueprint::blueprint_to_json;
use blueprint_helpers::layout::Layout;
use blueprint_helpers::save::{
    children_of, collect_tags, compute_entry_name, compute_name, format_entity_tag,
    format_icon_tag, format_tag, format_tile_tag, put_children, save, save_under, saved_name,
    tag_of, take_children, unique_strings, Saved, TagSource,
};
use blueprint_helpers::value::{parse_json, Json};

fn document(text: &str) -> Json {
    parse_json(text).expect("the text should be a document")
}

fn decode(bp: &str) -> Json {
    let json = blueprint_to_json(bp).expect("the blueprint string should decode");
    parse_json(&json).expect("should contain valid json")
}

/// The names that a directory lists, sorted as a listing read from disk is
/// sorted before it is compared.
fn names(layout: &Layout) -> Vec<String> {
    match layout {
        Layout::Directory(listing) => {
            let mut names: Vec<String> = listing.iter().map(|(name, _)| name.clone()).collect();
            names.sort();
            names
        }
        Layout::File(_) => panic!("a directory was expected"),
    }
}

fn under<'a>(layout: &'a Layout, name: &str) -> &'a Layout {
    match layout {
        Layout::Directory(listing) => {
            match listing.iter().find(|(listed, _)| listed == name) {
                Some((_, found)) => found,
                None => panic!("nothing is listed under {name}"),
            }
        }
        Layout::File(_) => panic!("a directory was expected"),
    }
}

fn strings(all: &[&str]) -> Vec<String> {
    all.iter().map(|s| s.to_string()).collect()
}

#[test]
fn test_save_blueprint() {
    let bp = "0eNqtlN1ugzAMhd/F12Eaf+uK1CeZJhSCu0WChDmhWlXl3Wd+1G6l6wXbFcE6Pv4OSThB1fTYkTYeihNoZY2D4uUETr8Z2Qw1I1uEAhw2qLylSNm20kbyEoIAbWr8hCIOrwLQeO01Tgbjy7E0fVshsUDcMxLQWce91gwT2S+NHwUcoYiS+Pkh5zm1Ju4aBZkAxvRkm7LCd3nQbMBdtkOSk2KewbbTomwle3rqcQYuF/E0WRNZQu756GXD6FzETisIIYhFnGR1nM2KOMr2ZkgzPpfsynYsXtCT5MJN+nQ1fbKCfiaKPEnj9kgXyNLZnhSWzrNWfUv0O3q2Gj39A/peN/4H+Fxg+dX3HjzbTtKIU8Dudop8dYr4fzZgvhfnOGTb87ma7sn1Ft05dOGirtH5IQUPXrbI+iCNwjpSmlSv/c27xv8R7bHlyuXPJOCA5MYw+VOyzbbbfJPmabZJQvgCXQumXg==";
    let json = decode(bp);
    let saved = save(json.duplicate());
    assert_eq!(saved.name, "[icon=selector-combinator].json");
    assert_eq!(saved.layout, Layout::File(json));
}

#[test]
fn test_save_book() {
    let bp = "0eNrlUdtqg0AQ/ZUwz2uIJkYU8pIPCH0vRVadliV7sXsJDeK/d1SiLYS00Mc+ztk5lz3TQSUDtlZoX1bGnKHoFsRB8fxlHN5EbfQEO/GmuRwwzRVCAVWQ50hoh9ajhZ6B0A1+QBH3LwxQe+EFTtRxuJY6qIo2i5jdl2DQGkcsowcXUkrybJ0yuBIly9cpWTTCYj1txAmDVyGJOJnc3Gfx2rQt2shYJOX3wCVlIDjo2ihFCow2VMst94ZCwQGG3MFhOat6G3AAhUc1pJ2LYSB5hVQGHJ9WJ7JbxYRdiDRGS/dJvsvzNNum212WLNVsetb9+wNYPgJ/KP/novf3mNHY93K7EzqPzeo4oZy+dcHyJvAbl/iRy3e9zQO9/hMTWy6D";
    let json = decode(bp);
    let saved = save(json.duplicate());
    assert_eq!(saved.name, "Untitled");
    let subfiles = names(&saved.layout);
    assert_eq!(subfiles, ["0 BP Name 1.json", "1 Nested Book", "book.json"]);
    let subsubfiles = names(under(&saved.layout, "1 Nested Book"));
    assert_eq!(subsubfiles, ["6 [icon=bulk-inserter].json", "book.json"]);
}

#[test]
fn test_save_deconstruction_planner() {
    let bp = "0eNptj90KwjAMhd8l1xvofhwr+CQio65Rim0620yU0Xc3ol4MvEu+E87JWcDgGChxnEe2gYbJaSKMoBZIyGzpkt4zElt+DmfrGKOQwwKkPYKC0+yupaWEURQo4DZrJ6eiUIheO0Fj8JOOmoPYwl6AJYMPUJt8LICtwyGhw0++D0Zct1/+J0/+M4LdyibLwuhFXtcpf3UKuIuPEFDtruqbvm+7uq2brsr5Baj6WmY=";
    let json = decode(bp);
    let saved = save(json.duplicate());
    assert_eq!(saved.name, "[entity=bulk-inserter] [tile=landfill].json");
    assert_eq!(saved.layout, Layout::File(json));
}

#[test]
fn test_save_upgrade_planner() {
    let bp = "0eNqtkdFqwzAMRf9FzwmUNmkbQ7+klKGuagjEsisroyX43ycz1sIGWx/6ZOkiXx10Z5hiL3iitzgiMwm4GRKpDtynUnuMkcTK/QxnCb5oeosEDoh10BtUwOhLr4KcYhCtjzSq6ZcJxzLhgIN4HE16Dz6ioAZbBDvIFWj4w/KMSesfvvZn4BNdwS1y9S/UZKPSS7D3xVi/nB9gzRNgKRqE2sFfBnR3fIBs86E0Sr6c4ivp+jvpCj4s2SEwuHa97JquazerdtVsljl/Ag1ntSg=";
    let json = decode(bp);
    let saved = save(json.duplicate());
    const EXPECTED_NAME: &str = "Upgrade [entity=fast-transport-belt] [entity=fast-underground-belt] [entity=fast-splitter].json";
    assert_eq!(saved.name, EXPECTED_NAME);
    assert_eq!(saved.layout, Layout::File(json));
}

#[test]
fn test_dedupe_names_upgrade_planner() {
    let bp = "0eNq1UMsKwjAQ/Jc9V5A+LA34JSIS2rUGmt2YbNVS8u8mYK968jaPZXaYFWY3ej3gxU2aCD2oFQKKGBpDxlY7hz7B0wpXzzZrsjgEBUhiZIECSNvMn8wD0q6/YZCk3mc9ZV8Bsbd6SlLP1mmvhdMbOEIsQPhLYBDE6ZOXbg0N+AK1j8XPKsbz/4vU8ZyJYGqyzbjbZizgkWYzTKCaQ9nVXde0VVPVbRnjGw8nfKM=";
    let json = decode(bp);
    assert_eq!(compute_name(&json), "Upgrade [entity=steel-chest]")
}

#[test]
fn test_upgrade_remove_module() {
    let bp = "0eNp1js0KwjAQhN9lzy1IfywN+CQiEsxaAtlkTbZiKXl3E7BHbzPfDrOzw8pL1Abv7LT3GEHtkFDE+iVVTZoZY5HXHZ4xUGWyMYICK0jQgNdUXWJE01Iwq8NCX6t2VrZy8CGSdgU9ArGOWkJ5AhfIDUj4W4fEsv3q2uSC1Lz1Bj+gTvlWTc2rY3977G/gXfba4EGN524e5nmc+rEfpi7nL1TiT8I=";
    let json = decode(bp);
    assert_eq!(compute_name(&json), "Upgrade [item=empty-module-slot]")
}

#[test]
fn test_upgrade_quality() {
    let bp = "0eNqVT1sKwjAQvMt+V5A+LA14EhHZtmsNdDcx3Yql5O4miAfwbx7M7M4Oq58CjnTzM4pQALPDQqpWpiVjRu8pJHjZ4R4cZ003T2CARK1uUIAgZ95bNzyQ+1RSwHPFObsGxAXGOUmDY48B1aUjcIZYgLr/61ZJPewk562M9AZzjNdMlDj73z2H354CXul/mwKmOZVd3XVNWzVV3ZYxfgDMH1WE";
    let json = decode(bp);
    assert_eq!(
        compute_name(&json),
        "Upgrade [entity=biochamber,quality=uncommon]"
    )
}

#[test]
fn save_book_lists_entries_in_their_order_and_the_manifest_last() {
    let bp = "0eNrlUdtqg0AQ/ZUwz2uIJkYU8pIPCH0vRVadliV7sXsJDeK/d1SiLYS00Mc+ztk5lz3TQSUDtlZoX1bGnKHoFsRB8fxlHN5EbfQEO/GmuRwwzRVCAVWQ50hoh9ajhZ6B0A1+QBH3LwxQe+EFTtRxuJY6qIo2i5jdl2DQGkcsowcXUkrybJ0yuBIly9cpWTTCYj1txAmDVyGJOJnc3Gfx2rQt2shYJOX3wCVlIDjo2ihFCow2VMst94ZCwQGG3MFhOat6G3AAhUc1pJ2LYSB5hVQGHJ9WJ7JbxYRdiDRGS/dJvsvzNNum212WLNVsetb9+wNYPgJ/KP/novf3mNHY93K7EzqPzeo4oZy+dcHyJvAbl/iRy3e9zQO9/hMTWy6D";
    let json = decode(bp);
    let saved = save(json.duplicate());
    let listing = match &saved.layout {
        Layout::Directory(listing) => listing,
        Layout::File(_) => panic!("a book should become a directory"),
    };
    let listed: Vec<&str> = listing.iter().map(|(name, _)| name.as_str()).collect();
    assert_eq!(listed, ["0 BP Name 1.json", "1 Nested Book", "book.json"]);

    let children = json.get("blueprint_book").unwrap().get("blueprints").unwrap().as_array().unwrap();
    assert_eq!(listing[0].1, Layout::File(children[0].duplicate()));

    let mut manifest = json.duplicate();
    let taken = take_children(&mut manifest).expect("the book has entries");
    assert_eq!(&taken, children);
    assert_eq!(listing[2].1, Layout::File(manifest.duplicate()));
    assert_eq!(
        manifest.get("blueprint_book").unwrap().get("blueprints"),
        Some(&Json::Array(vec![]))
    );
    assert_eq!(
        manifest.get("blueprint_book").unwrap().get("active_index"),
        json.get("blueprint_book").unwrap().get("active_index")
    );
}

#[test]
fn name_is_the_label() {
    let json = document(r#"{"blueprint": {"label": "My Base", "icons": [{"signal": {"name": "x"}}]}}"#);
    assert_eq!(compute_name(&json), "My Base");
}

#[test]
fn name_of_blueprint_without_label_lists_its_icons() {
    let json = document(
        r#"{"blueprint": {"icons": [
            {"signal": {"name": "selector-combinator"}, "index": 1},
            {"signal": {"name": "iron-ore", "quality": "epic"}, "index": 2},
            {"signal": {"name": "copper-ore", "quality": "normal"}, "index": 3},
            {"signal": {"type": "virtual"}, "index": 4},
            {"index": 5}
        ]}}"#,
    );
    assert_eq!(
        compute_name(&json),
        "[icon=selector-combinator] [icon=iron-ore,quality=epic] [icon=copper-ore]"
    );
    let saved = save(json);
    assert_eq!(
        saved.name,
        "[icon=selector-combinator] [icon=iron-ore,quality=epic] [icon=copper-ore].json"
    );
}

#[test]
fn name_of_one_icon_is_its_tag() {
    let json = document(r#"{"blueprint": {"icons": [{"signal": {"name": "selector-combinator"}}]}}"#);
    assert_eq!(save(json).name, "[icon=selector-combinator].json");
}

#[test]
fn name_reads_the_icons_under_settings_too() {
    let json = document(r#"{"blueprint": {"settings": {"icons": [{"signal": {"name": "a"}}]}}}"#);
    assert_eq!(compute_name(&json), "[icon=a]");
    let both = document(
        r#"{"blueprint": {"icons": [{"signal": {"name": "b"}}], "settings": {"icons": [{"signal": {"name": "a"}}]}}}"#,
    );
    assert_eq!(compute_name(&both), "[icon=b]");
}

#[test]
fn name_falls_back_when_the_label_is_empty_or_no_string() {
    let empty = document(r#"{"blueprint": {"label": "", "icons": [{"signal": {"name": "a"}}]}}"#);
    assert_eq!(compute_name(&empty), "[icon=a]");
    let number = document(r#"{"blueprint": {"label": 5, "icons": [{"signal": {"name": "a"}}]}}"#);
    assert_eq!(compute_name(&number), "[icon=a]");
    let nothing = document(r#"{"blueprint": {"label": ""}}"#);
    assert_eq!(compute_name(&nothing), "Untitled");
}

#[test]
fn name_is_untitled_without_anything_to_go_by() {
    assert_eq!(compute_name(&document(r#"{"blueprint": {}}"#)), "Untitled");
    assert_eq!(compute_name(&document(r#"{"blueprint_book": {"blueprints": []}}"#)), "Untitled");
    assert_eq!(compute_name(&document(r#"{"something": {"label": "x"}}"#)), "Untitled");
    assert_eq!(compute_name(&document(r#"[1, 2]"#)), "Untitled");
    assert_eq!(compute_name(&document(r#"{"upgrade_planner": {"settings": {"mappers": []}}}"#)), "Untitled");
    assert_eq!(compute_name(&document(r#"{"deconstruction_planner": {}}"#)), "Untitled");
}

#[test]
fn name_of_book_without_label_lists_its_icons() {
    let book = document(
        r#"{"blueprint_book": {"blueprints": [], "icons": [{"signal": {"name": "a"}}, {"signal": {"name": "b", "quality": "rare"}}]}}"#,
    );
    assert_eq!(compute_name(&book), "[icon=a] [icon=b,quality=rare]");
    let planner = document(
        r#"{"deconstruction_planner": {"settings": {"icons": [{"signal": {"name": "a"}}], "entity_filters": [{"name": "e"}]}}}"#,
    );
    assert_eq!(compute_name(&planner), "[entity=e]");
}

#[test]
fn name_goes_by_the_first_kind_that_the_entry_has() {
    let json = document(
        r#"{"deconstruction_planner": {"label": "second"}, "blueprint": {"label": "first"}}"#,
    );
    assert_eq!(compute_name(&json), "first");
}

fn mappers(targets: &[&str]) -> Json {
    let mappers: Vec<String> = targets
        .iter()
        .enumerate()
        .map(|(index, to)| format!(r#"{{"from": {{"type": "entity", "name": "x"}}, "to": {to}, "index": {index}}}"#))
        .collect();
    document(&format!(
        r#"{{"upgrade_planner": {{"settings": {{"mappers": [{}]}}, "item": "upgrade-planner"}}}}"#,
        mappers.join(", ")
    ))
}

#[test]
fn name_of_upgrade_planner_lists_four_targets_at_most() {
    let four = mappers(&[
        r#"{"type": "entity", "name": "a"}"#,
        r#"{"type": "entity", "name": "b"}"#,
        r#"{"type": "item", "name": "c"}"#,
        r#"{"type": "entity", "name": "d"}"#,
    ]);
    assert_eq!(compute_name(&four), "Upgrade [entity=a] [entity=b] [item=c] [entity=d]");

    let five = mappers(&[
        r#"{"type": "entity", "name": "a"}"#,
        r#"{"type": "entity", "name": "b"}"#,
        r#"{"type": "item", "name": "c"}"#,
        r#"{"type": "entity", "name": "d"}"#,
        r#"{"type": "entity", "name": "e"}"#,
    ]);
    let name = compute_name(&five);
    assert_eq!(name, "Upgrade [entity=a] [entity=b] [item=c] [entity=d]\u{2026}");
    assert!(name.starts_with("Upgrade "));
    assert!(name.ends_with('\u{2026}'));
}

#[test]
fn name_of_upgrade_planner_counts_each_target_once() {
    let repeated = mappers(&[
        r#"{"type": "entity", "name": "a"}"#,
        r#"{"type": "entity", "name": "a"}"#,
        r#"{"type": "entity", "name": "b"}"#,
        r#"{"type": "entity", "name": "a"}"#,
        r#"{"type": "entity", "name": "c"}"#,
        r#"{"type": "entity", "name": "d"}"#,
    ]);
    assert_eq!(compute_name(&repeated), "Upgrade [entity=a] [entity=b] [entity=c] [entity=d]");
}

#[test]
fn name_of_upgrade_planner_takes_the_bare_name_without_a_type() {
    let bare = mappers(&[
        r#"{"name": "a"}"#,
        r#"{"type": "entity"}"#,
        r#"{"type": 3, "name": "b"}"#,
        r#"{"type": "entity", "name": "c", "quality": "rare"}"#,
    ]);
    assert_eq!(compute_name(&bare), "Upgrade a b [entity=c,quality=rare]");
    let without_target = document(
        r#"{"upgrade_planner": {"settings": {"mappers": [{"from": {"name": "x"}, "index": 0}]}}}"#,
    );
    assert_eq!(compute_name(&without_target), "Untitled");
}

#[test]
fn name_of_deconstruction_planner_lists_entities_then_tiles() {
    let json = document(
        r#"{"deconstruction_planner": {"settings": {
            "tile_filters": [{"name": "landfill", "index": 0}, {"name": "concrete", "index": 1}],
            "entity_filters": [
                {"name": "a", "quality": "normal", "index": 0},
                {"name": "b", "quality": "rare", "index": 1},
                {"name": "c", "index": 2}
            ]
        }}}"#,
    );
    assert_eq!(
        compute_name(&json),
        "[entity=a] [entity=b,quality=rare] [entity=c] [tile=landfill]\u{2026}"
    );
    let four = document(
        r#"{"deconstruction_planner": {"settings": {
            "tile_filters": [{"name": "landfill", "index": 0}],
            "entity_filters": [{"name": "a"}, {"name": "b"}, {"name": "c"}]
        }}}"#,
    );
    assert_eq!(compute_name(&four), "[entity=a] [entity=b] [entity=c] [tile=landfill]");
}

#[test]
fn entry_name_puts_the_index_first() {
    let json = document(r#"{"blueprint": {"label": "Base"}, "index": 12}"#);
    assert_eq!(compute_entry_name(&json), "12 Base");
    let negative = document(r#"{"blueprint": {"label": "Base"}, "index": -3}"#);
    assert_eq!(compute_entry_name(&negative), "-3 Base");
    let lowest = document(r#"{"blueprint": {"label": "Base"}, "index": -9223372036854775808}"#);
    assert_eq!(compute_entry_name(&lowest), "-9223372036854775808 Base");
    let highest = document(r#"{"blueprint": {"label": "Base"}, "index": 18446744073709551615}"#);
    assert_eq!(compute_entry_name(&highest), "18446744073709551615 Base");
    let broken = document(r#"{"blueprint": {"label": "Base"}, "index": 1.5}"#);
    assert_eq!(compute_entry_name(&broken), "1.5 Base");
    let text = document(r#"{"blueprint": {"label": "Base"}, "index": "7"}"#);
    assert_eq!(compute_entry_name(&text), "Base");
    let zero = document(r#"{"blueprint": {"label": "Base"}, "index": 0}"#);
    assert_eq!(compute_entry_name(&zero), "0 Base");
}

#[test]
fn save_makes_the_name_safe() {
    let json = document(r#"{"blueprint": {"label": "a/b:c?d"}, "index": 2}"#);
    let saved = save(json.duplicate());
    assert_eq!(saved.name, "2 a_b_c_d.json");
    assert_eq!(saved.layout, Layout::File(json));
    let dots = document(r#"{"blueprint": {"label": ".."}}"#);
    assert_eq!(save(dots).name, "_.json");
}

#[test]
fn save_under_takes_the_name_as_it_is() {
    let json = document(r#"{"blueprint": {"label": "ignored"}}"#);
    assert_eq!(
        save_under(json.duplicate(), "a/b".to_owned()),
        Saved { name: "a/b.json".to_owned(), layout: Layout::File(json) }
    );
    let book = document(
        r#"{"blueprint_book": {"blueprints": [{"blueprint": {"label": "x"}, "index": 0}], "label": "ignored"}}"#,
    );
    let saved = save_under(book, "shelf".to_owned());
    assert_eq!(saved.name, "shelf");
    assert_eq!(names(&saved.layout), ["0 x.json", "book.json"]);
}

#[test]
fn save_empty_book_is_one_file() {
    let json = document(r#"{"blueprint_book": {"blueprints": [], "label": "Empty"}, "index": 3}"#);
    let saved = save(json.duplicate());
    assert_eq!(saved, Saved { name: "3 Empty.json".to_owned(), layout: Layout::File(json) });
    let odd = document(r#"{"blueprint_book": {"blueprints": {}, "label": "Odd"}}"#);
    assert_eq!(save(odd.duplicate()).layout, Layout::File(odd));
}

#[test]
fn saved_name_is_the_name_that_save_gives() {
    for text in [
        r#"{"blueprint": {"label": "a/b"}, "index": 2}"#,
        r#"{"blueprint_book": {"blueprints": [{"blueprint": {}, "index": 0}], "label": "shelf"}, "index": 1}"#,
        r#"{"blueprint_book": {"blueprints": [], "label": "empty"}}"#,
        r#"null"#,
    ] {
        let json = document(text);
        assert_eq!(saved_name(&json), save(json.duplicate()).name, "{text}");
    }
    assert_eq!(
        saved_name(&document(r#"{"blueprint_book": {"blueprints": [1], "label": "shelf"}, "index": 1}"#)),
        "1 shelf"
    );
    assert_eq!(children_of(&document(r#"{"blueprint_book": {"blueprints": [1, 2]}}"#)).map(|c| c.len()), Some(2));
    assert_eq!(children_of(&document(r#"{"blueprint_book": {"blueprints": []}}"#)), None);
    assert_eq!(children_of(&document(r#"{"blueprint": {"blueprints": [1]}}"#)), None);
}

#[test]
fn take_children_leaves_anything_but_a_book_alone() {
    let mut json = document(r#"{"blueprint": {"blueprints": [1]}}"#);
    assert_eq!(take_children(&mut json), None);
    assert_eq!(json, document(r#"{"blueprint": {"blueprints": [1]}}"#));
    let mut hidden = document(r#"{"blueprint": {}, "blueprint_book": {"blueprints": [1]}}"#);
    assert_eq!(take_children(&mut hidden), None);
}

#[test]
fn put_children_undoes_take_children() {
    let book = document(
        r#"{"blueprint_book": {"label": "b", "blueprints": [{"blueprint": {}, "index": 0}, {"blueprint": {}, "index": 1}], "version": 1}}"#,
    );
    let mut manifest = book.duplicate();
    let children = take_children(&mut manifest).expect("the book has entries");
    assert_eq!(
        manifest,
        document(r#"{"blueprint_book": {"label": "b", "blueprints": [], "version": 1}}"#)
    );
    put_children(&mut manifest, children);
    assert_eq!(manifest, book);
    let mut other = document(r#"{"blueprint": {}}"#);
    put_children(&mut other, vec![Json::Null]);
    assert_eq!(other, document(r#"{"blueprint": {}}"#));
}

#[test]
fn format_tag_writes_name_and_quality() {
    let name = Json::String("iron-ore".to_owned());
    let rare = Json::String("rare".to_owned());
    let normal = Json::String("normal".to_owned());
    assert_eq!(format_tag("item", Some(&name), None), Some("[item=iron-ore]".to_owned()));
    assert_eq!(
        format_tag("item", Some(&name), Some(&rare)),
        Some("[item=iron-ore,quality=rare]".to_owned())
    );
    assert_eq!(format_tag("item", Some(&name), Some(&normal)), Some("[item=iron-ore]".to_owned()));
    assert_eq!(format_tag("item", Some(&name), Some(&Json::Null)), Some("[item=iron-ore]".to_owned()));
    assert_eq!(format_tag("item", None, Some(&rare)), None);
    assert_eq!(format_tag("item", Some(&Json::Bool(true)), None), None);
    assert_eq!(format_tag("", Some(&Json::String(String::new())), None), Some("[=]".to_owned()));
}

#[test]
fn format_tags_by_kind() {
    let thing = document(r#"{"name": "x", "quality": "epic"}"#);
    assert_eq!(format_entity_tag(&thing), Some("[entity=x,quality=epic]".to_owned()));
    assert_eq!(format_icon_tag(&thing), Some("[icon=x,quality=epic]".to_owned()));
    assert_eq!(format_tile_tag(&thing), Some("[tile=x,quality=epic]".to_owned()));
    assert_eq!(format_entity_tag(&Json::Null), None);
    assert_eq!(tag_of(TagSource::Icon, &document(r#"{"signal": {"name": "x"}}"#)), Some("[icon=x]".to_owned()));
    assert_eq!(tag_of(TagSource::Icon, &thing), None);
    assert_eq!(tag_of(TagSource::Entity, &thing), Some("[entity=x,quality=epic]".to_owned()));
    assert_eq!(tag_of(TagSource::Tile, &thing), Some("[tile=x,quality=epic]".to_owned()));
    assert_eq!(tag_of(TagSource::Mapper, &document(r#"{"to": {"name": "x"}}"#)), Some("x".to_owned()));
}

#[test]
fn collect_tags_adds_behind_what_is_there() {
    let items = vec![document(r#"{"name": "a"}"#), Json::Null, document(r#"{"name": "b"}"#)];
    let mut tags = strings(&["first"]);
    collect_tags(TagSource::Tile, &items, &mut tags);
    assert_eq!(tags, strings(&["first", "[tile=a]", "[tile=b]"]));
}

#[test]
fn unique_strings_keeps_first_occurrences() {
    assert_eq!(unique_strings(strings(&["b", "a", "b", "c", "a", "b"])), strings(&["b", "a", "c"]));
    assert_eq!(unique_strings(strings(&[])), strings(&[]));
    assert_eq!(unique_strings(strings(&["", ""])), strings(&[""]));
}
