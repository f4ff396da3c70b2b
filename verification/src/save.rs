//! From an entry to its place on disk: the name that an entry is saved
//! under, and the files and directories that a book becomes.

use vstd::prelude::*;
use crate::blueprint::{entry_kind, BlueprintType};
use crate::text::{str_eq, strings_view};
use crate::layout::{lemma_directory_view, listing_view, Layout, LayoutView, BOOK_FILE};
use crate::value::{
    depth, held, items_view, lemma_get_depth, lemma_items_depth, lemma_with_twice, Json, JsonView,
};

verus! {

/// What a quality adds to a tag: nothing for no quality, for one that is no
/// string and for the default quality `normal`.
pub open spec fn quality_suffix(quality: Option<JsonView>) -> Seq<char> {
    match quality {
        Some(JsonView::String(q)) => if q != "normal"@ {
            ",quality="@ + q
        } else {
            Seq::empty()
        },
        _ => Seq::empty(),
    }
}

/// The tag `[typ=name]`, with the quality behind the name where it counts.
/// `None` where the name is missing or no string.
pub open spec fn tag_text(typ: Seq<char>, name: Option<JsonView>, quality: Option<JsonView>) -> Option<
    Seq<char>,
> {
    match name {
        Some(JsonView::String(n)) => Some("["@ + typ + "="@ + n + quality_suffix(quality) + "]"@),
        _ => None,
    }
}

/// The tag of a thing that has a `name` and maybe a `quality`.
pub open spec fn named_tag(typ: Seq<char>, thing: JsonView) -> Option<Seq<char>> {
    tag_text(typ, thing.get("name"@), thing.get("quality"@))
}

/// The tag of one icon: that of its signal.
pub open spec fn icon_tag(icon: JsonView) -> Option<Seq<char>> {
    match icon.get("signal"@) {
        Some(signal) => named_tag("icon"@, signal),
        None => None,
    }
}

/// The tag of one mapper of an upgrade planner: that of its target, by the
/// target's type, or the bare name where the target has no type.
pub open spec fn mapper_tag(mapper: JsonView) -> Option<Seq<char>> {
    match mapper.get("to"@) {
        Some(to) => match (to.text_at("type"@), to.text_at("name"@)) {
            (Some(typ), Some(_)) => tag_text(typ, to.get("name"@), to.get("quality"@)),
            (None, Some(name)) => Some(name),
            _ => None,
        },
        None => None,
    }
}

/// Where the tags of a name come from.
#[derive(Clone, Copy, Debug, PartialEq, Eq)]
pub enum TagSource {
    /// The signal of an icon.
    Icon,
    /// An entity filter.
    Entity,
    /// A tile filter.
    Tile,
    /// The target of a mapper.
    Mapper,
}

/// The tag that one item gives, where it gives one.
pub open spec fn tag_from(source: TagSource, item: JsonView) -> Option<Seq<char>> {
    match source {
        TagSource::Icon => icon_tag(item),
        TagSource::Entity => named_tag("entity"@, item),
        TagSource::Tile => named_tag("tile"@, item),
        TagSource::Mapper => mapper_tag(item),
    }
}

/// The tags of the items, in order; an item that gives none is passed over.
pub open spec fn tags_of(source: TagSource, items: Seq<JsonView>) -> Seq<Seq<char>>
    decreases items.len(),
{
    if items.len() == 0 {
        Seq::empty()
    } else {
        let before = tags_of(source, items.drop_last());
        match tag_from(source, items.last()) {
            Some(tag) => before.push(tag),
            None => before,
        }
    }
}

/// A name with one more part: parts are set apart by one space, and nothing
/// is put before the first part written.
pub open spec fn with_part(name: Seq<char>, part: Seq<char>) -> Seq<char> {
    if name.len() == 0 {
        part
    } else {
        name + " "@ + part
    }
}

/// The parts, joined into a name.
pub open spec fn joined(parts: Seq<Seq<char>>) -> Seq<char>
    decreases parts.len(),
{
    if parts.len() == 0 {
        Seq::empty()
    } else {
        with_part(joined(parts.drop_last()), parts.last())
    }
}

/// The most parts that a shortened name lists.
pub const MAX_PARTS: usize = 4;

/// The first four parts, joined, and the ellipsis where there are more.
pub open spec fn shortened(parts: Seq<Seq<char>>) -> Seq<char> {
    if parts.len() > MAX_PARTS {
        joined(parts.take(MAX_PARTS as int)) + "\u{2026}"@
    } else {
        joined(parts)
    }
}

/// The texts without repetitions: each stays where it first stood.
pub open spec fn unique(texts: Seq<Seq<char>>) -> Seq<Seq<char>>
    decreases texts.len(),
{
    if texts.len() == 0 {
        Seq::empty()
    } else {
        let before = unique(texts.drop_last());
        if before.contains(texts.last()) {
            before
        } else {
            before.push(texts.last())
        }
    }
}

/// The items of the array under `key`; none where there is no array.
pub open spec fn list_at(thing: Option<JsonView>, key: Seq<char>) -> Seq<JsonView> {
    match thing {
        Some(t) => match t.get(key) {
            Some(JsonView::Array(items)) => items,
            _ => Seq::empty(),
        },
        None => Seq::empty(),
    }
}

/// The icons of a payload: the array under `icons`, or else under
/// `settings.icons`.
pub open spec fn icon_list(payload: JsonView) -> Seq<JsonView> {
    let icons = match payload.get("icons"@) {
        Some(icons) => Some(icons),
        None => match payload.get("settings"@) {
            Some(settings) => settings.get("icons"@),
            None => None,
        },
    };
    match icons {
        Some(JsonView::Array(items)) => items,
        _ => Seq::empty(),
    }
}

/// The tags of a deconstruction planner: those of its entity filters, then
/// those of its tile filters.
pub open spec fn filter_tags(payload: JsonView) -> Seq<Seq<char>> {
    let settings = payload.get("settings"@);
    tags_of(TagSource::Entity, list_at(settings, "entity_filters"@)) + tags_of(
        TagSource::Tile,
        list_at(settings, "tile_filters"@),
    )
}

/// The tags of the targets of an upgrade planner's mappers.
pub open spec fn mapper_tags(payload: JsonView) -> Seq<Seq<char>> {
    tags_of(TagSource::Mapper, list_at(payload.get("settings"@), "mappers"@))
}

/// The name that the payload of each kind gives where the entry has no
/// label: a blueprint and a book give the tags of their icons, an upgrade
/// planner the word `Upgrade` and the tags of the targets of its mappers,
/// each once, a deconstruction planner the tags of its filters. The planners
/// list four tags at most. The name may be empty.
pub open spec fn synthesized(kind: BlueprintType<JsonView>) -> Seq<char> {
    match kind {
        BlueprintType::Blueprint(payload) => joined(tags_of(TagSource::Icon, icon_list(payload))),
        BlueprintType::BlueprintBook(payload) => joined(
            tags_of(TagSource::Icon, icon_list(payload)),
        ),
        BlueprintType::UpgradePlanner(payload) => {
            let short = shortened(unique(mapper_tags(payload)));
            if short.len() > 0 {
                "Upgrade "@ + short
            } else {
                short
            }
        },
        BlueprintType::DeconstructionPlanner(payload) => shortened(filter_tags(payload)),
    }
}

/// The name of an entry: its label where that is a string and not empty,
/// else what its kind gives, else `Untitled`.
pub open spec fn name_of(entry: JsonView) -> Seq<char> {
    match entry_kind(entry) {
        Some(kind) => {
            let label = kind.payload().text_at("label"@);
            if label is Some && label->0.len() > 0 {
                label->0
            } else if synthesized(kind).len() > 0 {
                synthesized(kind)
            } else {
                "Untitled"@
            }
        },
        None => "Untitled"@,
    }
}

/// The name of an entry with its place in its book: the index, where the
/// entry has one that is a number, a space, and the name.
pub open spec fn entry_name(entry: JsonView) -> Seq<char> {
    match entry.get("index"@) {
        Some(JsonView::Number(index)) => index.text() + " "@ + name_of(entry),
        _ => name_of(entry),
    }
}

/// Whether names are made safe for the file systems of Windows too.
pub const FOR_WINDOWS: bool = true;

/// Whether names are cut to a length that every file system takes.
pub const CUT_LONG_NAMES: bool = true;

/// What stands in a name for what no file name may hold.
pub const REPLACEMENT: &'static str = "_";

/// What `sanitize_filename::sanitize_with_options` makes of a name under the
/// given options.
pub uninterp spec fn sanitized_name(
    name: Seq<char>,
    windows: bool,
    truncate: bool,
    replacement: Seq<char>,
) -> Seq<char>;

/// The name of an entry's file or directory, before any extension.
pub open spec fn safe_name(entry: JsonView) -> Seq<char> {
    sanitized_name(entry_name(entry), FOR_WINDOWS, CUT_LONG_NAMES, REPLACEMENT@)
}

/// The entries of a book that has some: those under `blueprints` in the
/// payload of an entry whose kind is `blueprint_book`.
pub open spec fn book_children(entry: JsonView) -> Option<Seq<JsonView>> {
    match entry_kind(entry) {
        Some(BlueprintType::BlueprintBook(payload)) => match payload.get("blueprints"@) {
            Some(JsonView::Array(children)) => if children.len() > 0 {
                Some(children)
            } else {
                None
            },
            _ => None,
        },
        _ => None,
    }
}

/// A book with the given entries under `blueprints`, and all else as it
/// was.
pub open spec fn with_children(book: JsonView, children: Seq<JsonView>) -> JsonView {
    match book.get("blueprint_book"@) {
        Some(payload) => book.with(
            "blueprint_book"@,
            payload.with("blueprints"@, JsonView::Array(children)),
        ),
        None => book,
    }
}

/// The entry of a book without its entries.
pub open spec fn manifest_of(book: JsonView) -> JsonView {
    with_children(book, Seq::empty())
}

/// An entry of a book is less deep than the book.
pub proof fn lemma_child_depth(entry: JsonView, i: int)
    requires
        book_children(entry) is Some,
        0 <= i < book_children(entry)->0.len(),
    ensures
        depth(book_children(entry)->0[i]) < depth(entry),
{
    let payload = entry_kind(entry)->0.payload();
    assert(entry.get("blueprint_book"@) == Some(payload));
    lemma_get_depth(entry, "blueprint_book"@);
    lemma_get_depth(payload, "blueprints"@);
    lemma_items_depth(book_children(entry)->0, i);
}

/// The name and the layout that an entry is saved as.
pub open spec fn saved_as(entry: JsonView) -> (Seq<char>, LayoutView)
    decreases depth(entry), 1nat,
{
    saved_under(entry, safe_name(entry))
}

/// The name and the layout of an entry that is saved under the given safe
/// name. A book that has entries becomes a directory: its entries in their
/// order, each as it is saved itself, and behind them the book's own entry,
/// without its entries, as the file `book.json`. Anything else becomes one
/// file, `.json` behind its name.
pub open spec fn saved_under(entry: JsonView, name: Seq<char>) -> (Seq<char>, LayoutView)
    decreases depth(entry), 0nat,
{
    match book_children(entry) {
        Some(children) => (
            name,
            LayoutView::Directory(
                Seq::new(
                    (children.len() + 1) as nat,
                    |i: int|
                        if 0 <= i < children.len() {
                            proof {
                                lemma_child_depth(entry, i);
                            }
                            saved_as(children[i])
                        } else {
                            (BOOK_FILE@, LayoutView::File(manifest_of(entry)))
                        },
                ),
            ),
        ),
        None => (name + ".json"@, LayoutView::File(entry)),
    }
}

/// One more item adds its tag, where it gives one, behind those of the
/// items before it.
pub proof fn lemma_tags_step(source: TagSource, items: Seq<JsonView>, i: int)
    requires
        0 <= i < items.len(),
    ensures
        tags_of(source, items.take(i + 1)) == match tag_from(source, items[i]) {
            Some(tag) => tags_of(source, items.take(i)).push(tag),
            None => tags_of(source, items.take(i)),
        },
{
    assert(items.take(i + 1).drop_last() =~= items.take(i));
}

/// The tag `[typ=name]`, with `,quality=..` behind the name where the
/// quality is a string other than `normal`.
pub fn format_tag(typ: &str, name: Option<&Json>, quality: Option<&Json>) -> (tag: Option<String>)
    ensures
        match tag {
            Some(t) => tag_text(typ@, held(name), held(quality)) == Some(t@),
            None => tag_text(typ@, held(name), held(quality)) is None,
        },
{
    let name = match name {
        Some(n) => match n.as_str() {
            Some(text) => text,
            None => {
                return None;
            },
        },
        None => {
            return None;
        },
    };
    let mut tag = String::new();
    tag.append("[");
    tag.append(typ);
    tag.append("=");
    tag.append(name);
    if let Some(q) = quality {
        if let Some(q) = q.as_str() {
            if !str_eq(q, "normal") {
                tag.append(",quality=");
                tag.append(q);
            }
        }
    }
    tag.append("]");
    proof {
        assert(tag@ =~= "["@ + typ@ + "="@ + name@ + quality_suffix(held(quality)) + "]"@);
    }
    Some(tag)
}

/// The tag of an entity filter.
pub fn format_entity_tag(entity: &Json) -> (tag: Option<String>)
    ensures
        match tag {
            Some(t) => named_tag("entity"@, entity@) == Some(t@),
            None => named_tag("entity"@, entity@) is None,
        },
{
    format_tag("entity", entity.get("name"), entity.get("quality"))
}

/// The tag of the signal of an icon.
pub fn format_icon_tag(icon: &Json) -> (tag: Option<String>)
    ensures
        match tag {
            Some(t) => named_tag("icon"@, icon@) == Some(t@),
            None => named_tag("icon"@, icon@) is None,
        },
{
    format_tag("icon", icon.get("name"), icon.get("quality"))
}

/// The tag of a tile filter.
pub fn format_tile_tag(tile: &Json) -> (tag: Option<String>)
    ensures
        match tag {
            Some(t) => named_tag("tile"@, tile@) == Some(t@),
            None => named_tag("tile"@, tile@) is None,
        },
{
    format_tag("tile", tile.get("name"), tile.get("quality"))
}

/// Whether `text` is among `strings`.
fn holds(strings: &Vec<String>, text: &str) -> (found: bool)
    ensures
        found == strings_view(strings@).contains(text@),
{
    let mut i: usize = 0;
    while i < strings.len()
        invariant
            i <= strings@.len(),
            forall|j: int| 0 <= j < i ==> strings_view(strings@)[j] != text@,
        decreases strings@.len() - i,
    {
        if str_eq(strings[i].as_str(), text) {
            assert(strings_view(strings@)[i as int] == text@);
            return true;
        }
        i += 1;
    }
    false
}

/// The strings without repetitions: each stays where it first stood.
pub fn unique_strings(strings: Vec<String>) -> (kept: Vec<String>)
    ensures
        strings_view(kept@) == unique(strings_view(strings@)),
{
    let mut kept: Vec<String> = Vec::new();
    let mut i: usize = 0;
    let ghost texts = strings_view(strings@);
    while i < strings.len()
        invariant
            i <= strings@.len(),
            texts == strings_view(strings@),
            strings_view(kept@) == unique(texts.take(i as int)),
        decreases strings@.len() - i,
    {
        proof {
            assert(texts.take(i + 1).drop_last() =~= texts.take(i as int));
            assert(texts.take(i + 1).last() == strings@[i as int]@);
        }
        if !holds(&kept, strings[i].as_str()) {
            let ghost before = strings_view(kept@);
            kept.push(strings[i].clone());
            proof {
                assert(strings_view(kept@) =~= before.push(strings@[i as int]@));
            }
        }
        i += 1;
    }
    proof {
        assert(texts.take(i as int) =~= texts);
    }
    kept
}

/// The tag that one item gives, where it gives one.
pub fn tag_of(source: TagSource, item: &Json) -> (tag: Option<String>)
    ensures
        match tag {
            Some(t) => tag_from(source, item@) == Some(t@),
            None => tag_from(source, item@) is None,
        },
{
    match source {
        TagSource::Icon => match item.get("signal") {
            Some(signal) => format_icon_tag(signal),
            None => None,
        },
        TagSource::Entity => format_entity_tag(item),
        TagSource::Tile => format_tile_tag(item),
        TagSource::Mapper => {
            let to = match item.get("to") {
                Some(to) => to,
                None => {
                    return None;
                },
            };
            let name = to.get("name");
            let bare = match name {
                Some(n) => n.as_str(),
                None => None,
            };
            let typ = match to.get("type") {
                Some(t) => t.as_str(),
                None => None,
            };
            match (typ, bare) {
                (Some(typ), Some(_)) => format_tag(typ, name, to.get("quality")),
                (None, Some(bare)) => Some(bare.to_owned()),
                _ => None,
            }
        },
    }
}

/// Appends the tags of the items to `tags`.
pub fn collect_tags(source: TagSource, items: &Vec<Json>, tags: &mut Vec<String>)
    ensures
        strings_view(final(tags)@) == strings_view(old(tags)@) + tags_of(source, items_view(items@)),
{
    let ghost models = items_view(items@);
    let mut i: usize = 0;
    proof {
        assert(strings_view(tags@) =~= strings_view(old(tags)@) + tags_of(source, models.take(0)));
    }
    while i < items.len()
        invariant
            i <= items@.len(),
            models == items_view(items@),
            strings_view(tags@) == strings_view(old(tags)@) + tags_of(source, models.take(i as int)),
        decreases items@.len() - i,
    {
        proof {
            lemma_tags_step(source, models, i as int);
        }
        let ghost before = strings_view(tags@);
        if let Some(tag) = tag_of(source, &items[i]) {
            tags.push(tag);
            proof {
                assert(strings_view(tags@) =~= before.push(tag@));
                assert(before.push(tag@) =~= strings_view(old(tags)@) + tags_of(
                    source,
                    models.take(i + 1),
                ));
            }
        }
        i += 1;
    }
    proof {
        assert(models.take(i as int) =~= models);
    }
}

/// The first `count` parts, joined.
fn join_parts(parts: &Vec<String>, count: usize) -> (name: String)
    requires
        count <= parts@.len(),
    ensures
        name@ == joined(strings_view(parts@).take(count as int)),
{
    let ghost texts = strings_view(parts@);
    let mut name = String::new();
    let mut i: usize = 0;
    proof {
        assert(texts.take(0) =~= Seq::<Seq<char>>::empty());
    }
    while i < count
        invariant
            i <= count <= parts@.len(),
            texts == strings_view(parts@),
            name@ == joined(texts.take(i as int)),
        decreases count - i,
    {
        proof {
            assert(texts.take(i + 1).drop_last() =~= texts.take(i as int));
            assert(texts.take(i + 1).last() == parts@[i as int]@);
        }
        if !name.as_str().is_empty() {
            name.append(" ");
        }
        name.append(parts[i].as_str());
        i += 1;
    }
    name
}

/// The first four parts, joined, and the ellipsis where there are more.
fn shorten(parts: &Vec<String>) -> (name: String)
    ensures
        name@ == shortened(strings_view(parts@)),
{
    if parts.len() > MAX_PARTS {
        let mut name = join_parts(parts, MAX_PARTS);
        name.append("\u{2026}");
        name
    } else {
        proof {
            assert(strings_view(parts@).take(parts@.len() as int) =~= strings_view(parts@));
        }
        join_parts(parts, parts.len())
    }
}

/// The array under `key`, where `thing` has one.
fn array_at<'a>(thing: Option<&'a Json>, key: &str) -> (items: Option<&'a Vec<Json>>)
    ensures
        match items {
            Some(a) => list_at(held(thing), key@) == items_view(a@),
            None => list_at(held(thing), key@) == Seq::<JsonView>::empty(),
        },
{
    match thing {
        Some(t) => match t.get(key) {
            Some(found) => found.as_array(),
            None => None,
        },
        None => None,
    }
}

/// The tags of the icons of a payload, joined.
fn icon_name(payload: &Json) -> (name: String)
    ensures
        name@ == joined(tags_of(TagSource::Icon, icon_list(payload@))),
{
    let mut tags: Vec<String> = Vec::new();
    proof {
        assert(strings_view(tags@) =~= Seq::<Seq<char>>::empty());
    }
    let icons = match payload.get("icons") {
        Some(icons) => Some(icons),
        None => match payload.get("settings") {
            Some(settings) => settings.get("icons"),
            None => None,
        },
    };
    let list = match icons {
        Some(icons) => icons.as_array(),
        None => None,
    };
    if let Some(list) = list {
        collect_tags(TagSource::Icon, list, &mut tags);
    }
    proof {
        assert(strings_view(tags@) =~= tags_of(TagSource::Icon, icon_list(payload@)));
        assert(strings_view(tags@).take(tags@.len() as int) =~= strings_view(tags@));
    }
    join_parts(&tags, tags.len())
}

/// The name that the payload of each kind gives where the entry has no
/// label.
fn synthesize(kind: &BlueprintType<&Json>) -> (name: String)
    ensures
        name@ == synthesized(kind@),
{
    let mut tags: Vec<String> = Vec::new();
    proof {
        assert(strings_view(tags@) =~= Seq::<Seq<char>>::empty());
    }
    match kind {
        BlueprintType::Blueprint(payload) => icon_name(payload),
        BlueprintType::BlueprintBook(payload) => icon_name(payload),
        BlueprintType::UpgradePlanner(payload) => {
            if let Some(mappers) = array_at(payload.get("settings"), "mappers") {
                collect_tags(TagSource::Mapper, mappers, &mut tags);
            }
            proof {
                assert(strings_view(tags@) =~= mapper_tags(payload@));
            }
            let short = shorten(&unique_strings(tags));
            if short.as_str().is_empty() {
                short
            } else {
                let mut name = "Upgrade ".to_owned();
                name.append(short.as_str());
                name
            }
        },
        BlueprintType::DeconstructionPlanner(payload) => {
            let settings = payload.get("settings");
            if let Some(entities) = array_at(settings, "entity_filters") {
                collect_tags(TagSource::Entity, entities, &mut tags);
            }
            if let Some(tiles) = array_at(settings, "tile_filters") {
                collect_tags(TagSource::Tile, tiles, &mut tags);
            }
            proof {
                assert(strings_view(tags@) =~= filter_tags(payload@));
            }
            shorten(&tags)
        },
    }
}

/// The name of an entry: its label where that is a string and not empty,
/// else what its kind gives, else `Untitled`.
pub fn compute_name(json: &Json) -> (name: String)
    ensures
        name@ == name_of(json@),
{
    if let Some(kind) = BlueprintType::detect(json) {
        if let Some(label) = kind.label() {
            if !label.is_empty() {
                return label.to_owned();
            }
        }
        let name = synthesize(&kind);
        if !name.as_str().is_empty() {
            return name;
        }
    }
    "Untitled".to_owned()
}

/// `sanitize_filename::sanitize_with_options`, with the options spelled
/// out.
#[verifier::external_body]
fn sanitize(name: String, windows: bool, truncate: bool, replacement: &str) -> (safe: String)
    ensures
        safe@ == sanitized_name(name@, windows, truncate, replacement@),
{
    sanitize_filename::sanitize_with_options(
        name,
        sanitize_filename::Options { windows, truncate, replacement },
    )
}

/// The name of an entry with its place in its book before it.
pub fn compute_entry_name(json: &Json) -> (name: String)
    ensures
        name@ == entry_name(json@),
{
    let name = compute_name(json);
    let index = match json.get("index") {
        Some(index) => index.as_number(),
        None => None,
    };
    match index {
        Some(index) => {
            let mut digits: Vec<char> = Vec::new();
            index.write_to(&mut digits);
            let mut full = crate::text::string_of(&digits);
            full.append(" ");
            full.append(name.as_str());
            full
        },
        None => name,
    }
}

/// An entry as it is saved: the name of its file or directory, and what
/// stands under that name.
#[derive(Debug, PartialEq, Eq)]
pub struct Saved {
    pub name: String,
    pub layout: Layout,
}

impl View for Saved {
    type V = (Seq<char>, LayoutView);

    open spec fn view(&self) -> (Seq<char>, LayoutView) {
        (self.name@, self.layout@)
    }
}

/// The entries of a book that has some.
pub fn children_of(json: &Json) -> (children: Option<&Vec<Json>>)
    ensures
        match children {
            Some(c) => book_children(json@) == Some(items_view(c@)),
            None => book_children(json@) is None,
        },
{
    match BlueprintType::detect(json) {
        Some(BlueprintType::BlueprintBook(payload)) => match array_at(Some(payload), "blueprints") {
            Some(children) => if children.len() > 0 {
                assert(items_view(children@).len() > 0);
                Some(children)
            } else {
                assert(items_view(children@).len() == 0);
                None
            },
            None => None,
        },
        _ => None,
    }
}

/// The name that an entry is saved under: that of its directory for a book
/// that has entries, that of its file for anything else.
pub fn saved_name(json: &Json) -> (name: String)
    ensures
        name@ == saved_as(json@).0,
{
    let mut name = sanitize(compute_entry_name(json), FOR_WINDOWS, CUT_LONG_NAMES, REPLACEMENT);
    if children_of(json).is_none() {
        name.append(".json");
    }
    name
}

/// Takes the entries out of a book that has some, and leaves the book's own
/// entry. Anything else stays as it is.
pub fn take_children(book: &mut Json) -> (children: Option<Vec<Json>>)
    ensures
        match children {
            Some(c) => book_children(old(book)@) == Some(items_view(c@)) && final(book)@
                == manifest_of(old(book)@),
            None => book_children(old(book)@) is None && final(book)@ == old(book)@,
        },
{
    if children_of(&*book).is_none() {
        return None;
    }
    let ghost payload_before = book@.get("blueprint_book"@)->0;
    let mut payload = match book.insert("blueprint_book", Json::Null) {
        Some(payload) => payload,
        None => Json::Null,
    };
    let none: Vec<Json> = Vec::new();
    proof {
        crate::value::lemma_array_view(none);
        assert(items_view(none@) =~= Seq::<JsonView>::empty());
    }
    let taken = payload.insert("blueprints", Json::Array(none));
    proof {
        lemma_with_twice(
            old(book)@,
            "blueprint_book"@,
            JsonView::Null,
            payload_before.with("blueprints"@, JsonView::Array(Seq::empty())),
        );
    }
    book.insert("blueprint_book", payload);
    match taken {
        Some(Json::Array(children)) => {
            proof {
                crate::value::lemma_array_view(children);
            }
            Some(children)
        },
        _ => None,
    }
}

/// Puts entries into a book, in the place of those that it has.
pub fn put_children(book: &mut Json, children: Vec<Json>)
    ensures
        final(book)@ == with_children(old(book)@, items_view(children@)),
{
    if book.get("blueprint_book").is_none() {
        return ;
    }
    let ghost payload_before = book@.get("blueprint_book"@)->0;
    let mut payload = match book.insert("blueprint_book", Json::Null) {
        Some(payload) => payload,
        None => Json::Null,
    };
    proof {
        crate::value::lemma_array_view(children);
        lemma_with_twice(
            old(book)@,
            "blueprint_book"@,
            JsonView::Null,
            payload_before.with("blueprints"@, JsonView::Array(items_view(children@))),
        );
    }
    payload.insert("blueprints", Json::Array(children));
    book.insert("blueprint_book", payload);
}

/// Saves an entry: gives the name and the layout that it is to have on
/// disk. The name is the entry's name, with its index before it where it has
/// one, made safe for a file system.
pub fn save(json: Json) -> (saved: Saved)
    ensures
        saved@ == saved_as(json@),
    decreases depth(json@), 1nat,
{
    let name = sanitize(compute_entry_name(&json), FOR_WINDOWS, CUT_LONG_NAMES, REPLACEMENT);
    save_under(json, name)
}

/// Saves an entry under a name that is safe already. A book that has
/// entries becomes a directory of its entries, saved each in turn and in
/// their order, with the book's own entry behind them as `book.json`;
/// anything else becomes one file, `.json` behind its name.
pub fn save_under(json: Json, name: String) -> (saved: Saved)
    ensures
        saved@ == saved_under(json@, name@),
    decreases depth(json@), 0nat,
{
    let mut name = name;
    let ghost entry = json@;
    let mut manifest = json;
    match take_children(&mut manifest) {
        Some(children) => {
            let ghost models = items_view(children@);
            let mut listing: Vec<(String, Layout)> = Vec::new();
            for child in it: children
                invariant
                    entry == json@,
                    models == items_view(it.seq()),
                    book_children(entry) == Some(models),
                    listing@.len() == it.index(),
                    forall|i: int|
                        0 <= i < it.index() ==> (#[trigger] listing@[i]).0@ == saved_as(
                            models[i],
                        ).0 && listing@[i].1@ == saved_as(models[i]).1,
            {
                proof {
                    lemma_child_depth(entry, it.index() as int);
                    assert(child@ == models[it.index() as int]);
                }
                let part = save(child);
                listing.push((part.name, part.layout));
            }
            listing.push((BOOK_FILE.to_owned(), Layout::File(manifest)));
            proof {
                lemma_directory_view(listing);
                assert(listing_view(listing@) =~= saved_under(entry, name@).1->Directory_0);
            }
            Saved { name, layout: Layout::Directory(listing) }
        },
        None => {
            name.append(".json");
            Saved { name, layout: Layout::File(manifest) }
        },
    }
}

} // verus!
