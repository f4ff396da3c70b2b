//! From a layout on disk back to an entry: the entries of a book are put
//! in the order of their indexes, and the book's own entry takes them up
//! again.

use vstd::prelude::*;
use crate::layout::{
    lemma_directory_view, lemma_listing_nesting, listing_nesting, listing_view, nesting, Layout,
    LayoutView, BOOK_FILE,
};
use crate::save::{put_children, with_children};
use crate::text::{
    char_index, chars_of, copy_strings, find_char, parse_u64, parsed_u64, str_eq, strings_view,
    take_chars,
};
use crate::value::{items_view, owned, Json, JsonView};

verus! {

/// Why a layout cannot be loaded. Every path is counted from the layout
/// that was to be loaded.
#[derive(Debug, PartialEq, Eq)]
pub enum LoadError {
    /// A directory has no `book.json`; the path is where it should be.
    MissingManifest { path: Vec<String> },
    /// A `book.json` whose `blueprint_book.blueprints` is not an empty array.
    ManifestNotEmpty { path: Vec<String> },
    /// An entry that has an index neither in its name nor in its document.
    MissingIndex { path: Vec<String> },
    /// Two entries of one book with the same index.
    DuplicateIndex { first: Vec<String>, second: Vec<String>, index: u64 },
}

/// What a `LoadError` stands for.
pub enum LoadErrorView {
    MissingManifest { path: Seq<Seq<char>> },
    ManifestNotEmpty { path: Seq<Seq<char>> },
    MissingIndex { path: Seq<Seq<char>> },
    DuplicateIndex { first: Seq<Seq<char>>, second: Seq<Seq<char>>, index: u64 },
}

impl View for LoadError {
    type V = LoadErrorView;

    open spec fn view(&self) -> LoadErrorView {
        match self {
            LoadError::MissingManifest { path } => LoadErrorView::MissingManifest {
                path: strings_view(path@),
            },
            LoadError::ManifestNotEmpty { path } => LoadErrorView::ManifestNotEmpty {
                path: strings_view(path@),
            },
            LoadError::MissingIndex { path } => LoadErrorView::MissingIndex {
                path: strings_view(path@),
            },
            LoadError::DuplicateIndex { first, second, index } => LoadErrorView::DuplicateIndex {
                first: strings_view(first@),
                second: strings_view(second@),
                index: *index,
            },
        }
    }
}

/// What was put right while loading, without stopping the load.
#[derive(Debug, PartialEq, Eq)]
pub enum Warning {
    /// The index in the name and the one in the document differ; the one in
    /// the name was used.
    IndexMismatch { path: Vec<String>, declared: u64, used: u64 },
    /// The document has no index; the one in the name was used.
    IndexAssumed { path: Vec<String>, index: u64 },
}

/// What a `Warning` stands for.
pub enum WarningView {
    IndexMismatch { path: Seq<Seq<char>>, declared: u64, used: u64 },
    IndexAssumed { path: Seq<Seq<char>>, index: u64 },
}

impl View for Warning {
    type V = WarningView;

    open spec fn view(&self) -> WarningView {
        match self {
            Warning::IndexMismatch { path, declared, used } => WarningView::IndexMismatch {
                path: strings_view(path@),
                declared: *declared,
                used: *used,
            },
            Warning::IndexAssumed { path, index } => WarningView::IndexAssumed {
                path: strings_view(path@),
                index: *index,
            },
        }
    }
}

/// The warnings that a run of warnings stands for.
pub open spec fn warnings_view(warnings: Seq<Warning>) -> Seq<WarningView> {
    warnings.map_values(|w: Warning| w@)
}

/// An entry that was loaded, with the warnings that came up.
#[derive(Debug, PartialEq, Eq)]
pub struct Loaded {
    pub value: Json,
    pub warnings: Vec<Warning>,
}

impl View for Loaded {
    type V = (JsonView, Seq<WarningView>);

    open spec fn view(&self) -> (JsonView, Seq<WarningView>) {
        (self.value@, warnings_view(self.warnings@))
    }
}

/// What the outcome of a load stands for.
pub open spec fn outcome_view(outcome: Result<Loaded, LoadError>) -> Result<
    (JsonView, Seq<WarningView>),
    LoadErrorView,
> {
    match outcome {
        Ok(loaded) => Ok(loaded@),
        Err(error) => Err(error@),
    }
}

/// An entry of a book as it was found: where, with which index, and what.
pub struct ChildView {
    pub path: Seq<Seq<char>>,
    pub index: u64,
    pub value: JsonView,
}

/// The index that a name begins with: the word before the first space,
/// where there is a space and the word is an unsigned integer.
pub open spec fn filename_index(name: Seq<char>) -> Option<u64> {
    match char_index(name, ' ') {
        Some(i) => parsed_u64(name.take(i)),
        None => None,
    }
}

/// The index that a document declares: what stands under `index`, where
/// that is an unsigned integer.
pub open spec fn declared_index(entry: JsonView) -> Option<u64> {
    match entry.get("index"@) {
        Some(JsonView::Number(n)) => n.as_u64(),
        _ => None,
    }
}

/// The index that an entry is given: the one in its name, or else the one
/// that it declares.
pub open spec fn resolved_index(name: Seq<char>, entry: JsonView) -> Option<u64> {
    match filename_index(name) {
        Some(index) => Some(index),
        None => declared_index(entry),
    }
}

/// The warning that giving an entry its index brings: one where the name
/// has an index that the document does not confirm.
pub open spec fn index_warning(path: Seq<Seq<char>>, name: Seq<char>, entry: JsonView) -> Option<
    WarningView,
> {
    match (filename_index(name), declared_index(entry)) {
        (Some(used), Some(declared)) => if used != declared {
            Some(WarningView::IndexMismatch { path, declared, used })
        } else {
            None
        },
        (Some(index), None) => Some(WarningView::IndexAssumed { path, index }),
        _ => None,
    }
}

/// Where a new entry goes among those in order: behind the last one whose
/// index is no larger.
pub open spec fn place_for(sorted: Seq<ChildView>, index: u64) -> int
    decreases sorted.len(),
{
    if sorted.len() == 0 {
        0
    } else if sorted.last().index <= index {
        sorted.len() as int
    } else {
        place_for(sorted.drop_last(), index)
    }
}

/// The entries in the order of their indexes; entries with the same index
/// stay in the order in which they were found.
pub open spec fn sorted_by_index(children: Seq<ChildView>) -> Seq<ChildView>
    decreases children.len(),
{
    if children.len() == 0 {
        Seq::empty()
    } else {
        let before = sorted_by_index(children.drop_last());
        before.insert(place_for(before, children.last().index), children.last())
    }
}

/// The first place at or after `from` where two neighbours have the same
/// index.
pub open spec fn repeat_from(sorted: Seq<ChildView>, from: int) -> Option<int>
    decreases sorted.len() - from,
{
    if from < 0 || from + 1 >= sorted.len() {
        None
    } else if sorted[from].index == sorted[from + 1].index {
        Some(from)
    } else {
        repeat_from(sorted, from + 1)
    }
}

/// The documents of the entries.
pub open spec fn values_of(children: Seq<ChildView>) -> Seq<JsonView> {
    children.map_values(|child: ChildView| child.value)
}

/// Whether a document is the entry of a book without its entries: the array
/// under `blueprint_book.blueprints` is there and empty.
pub open spec fn is_manifest(entry: JsonView) -> bool {
    match entry.get("blueprint_book"@) {
        Some(payload) => payload.get("blueprints"@) == Some(JsonView::Array(Seq::empty())),
        None => false,
    }
}

/// What was gathered from a directory: its `book.json`, its entries in the
/// order in which they are listed, and the warnings so far.
pub struct Gathered {
    pub manifest: Option<JsonView>,
    pub children: Seq<ChildView>,
    pub warnings: Seq<WarningView>,
}

/// What was gathered, and one listed thing more: `book.json` becomes the
/// manifest, anything else an entry with its index. An entry without an
/// index stops the load.
pub open spec fn with_listed(
    gathered: Gathered,
    here: Seq<Seq<char>>,
    name: Seq<char>,
    value: JsonView,
    warnings: Seq<WarningView>,
) -> Result<Gathered, LoadErrorView> {
    let all = gathered.warnings + warnings;
    if name == BOOK_FILE@ {
        Ok(Gathered { manifest: Some(value), children: gathered.children, warnings: all })
    } else {
        match resolved_index(name, value) {
            Some(index) => Ok(
                Gathered {
                    manifest: gathered.manifest,
                    children: gathered.children.push(ChildView { path: here, index, value }),
                    warnings: match index_warning(here, name, value) {
                        Some(warning) => all.push(warning),
                        None => all,
                    },
                },
            ),
            None => Err(LoadErrorView::MissingIndex { path: here }),
        }
    }
}

/// The book that was gathered: the manifest must be there, no two entries
/// may have the same index, and the manifest must be without entries; then
/// the entries go into it in the order of their indexes.
pub open spec fn assembled(gathered: Gathered, path: Seq<Seq<char>>) -> Result<
    (JsonView, Seq<WarningView>),
    LoadErrorView,
> {
    match gathered.manifest {
        None => Err(LoadErrorView::MissingManifest { path: path.push(BOOK_FILE@) }),
        Some(manifest) => {
            let sorted = sorted_by_index(gathered.children);
            match repeat_from(sorted, 0) {
                Some(i) => Err(
                    LoadErrorView::DuplicateIndex {
                        first: sorted[i].path,
                        second: sorted[i + 1].path,
                        index: sorted[i].index,
                    },
                ),
                None => if is_manifest(manifest) {
                    Ok((with_children(manifest, values_of(sorted)), gathered.warnings))
                } else {
                    Err(LoadErrorView::ManifestNotEmpty { path: path.push(BOOK_FILE@) })
                },
            }
        },
    }
}

/// What loading the layout at `path` gives. A file gives its document. A
/// directory gives the book that its listing makes: each listed thing is
/// loaded in turn, and the first failure is the outcome.
pub open spec fn loaded_at(layout: LayoutView, path: Seq<Seq<char>>) -> Result<
    (JsonView, Seq<WarningView>),
    LoadErrorView,
>
    decreases nesting(layout), 0nat,
{
    match layout {
        LayoutView::File(value) => Ok((value, Seq::empty())),
        LayoutView::Directory(listing) => match gathered(listing, path, listing.len()) {
            Ok(found) => assembled(found, path),
            Err(error) => Err(error),
        },
    }
}

/// What the first `count` listed things of a directory give.
pub open spec fn gathered(listing: Seq<(Seq<char>, LayoutView)>, path: Seq<Seq<char>>, count: nat) -> Result<
    Gathered,
    LoadErrorView,
>
    decreases listing_nesting(listing), count,
{
    if count == 0 || count > listing.len() {
        Ok(Gathered { manifest: None, children: Seq::empty(), warnings: Seq::empty() })
    } else {
        match gathered(listing, path, (count - 1) as nat) {
            Ok(before) => {
                let name = listing[count - 1].0;
                let here = path.push(name);
                proof {
                    lemma_listing_nesting(listing, count - 1);
                }
                match loaded_at(listing[count - 1].1, here) {
                    Ok((value, warnings)) => with_listed(before, here, name, value, warnings),
                    Err(error) => Err(error),
                }
            },
            Err(error) => Err(error),
        }
    }
}

/// What loading a layout gives.
pub open spec fn loaded(layout: LayoutView) -> Result<(JsonView, Seq<WarningView>), LoadErrorView> {
    loaded_at(layout, Seq::empty())
}

/// An entry of a book as it was found: where, with which index, and what.
pub struct Child {
    pub path: Vec<String>,
    pub index: u64,
    pub value: Json,
}

impl View for Child {
    type V = ChildView;

    open spec fn view(&self) -> ChildView {
        ChildView { path: strings_view(self.path@), index: self.index, value: self.value@ }
    }
}

/// The entries that a run of entries stands for.
pub open spec fn children_view(children: Seq<Child>) -> Seq<ChildView> {
    children.map_values(|child: Child| child@)
}

/// The index that a name begins with.
pub fn filename_index_of(name: &str) -> (index: Option<u64>)
    ensures
        index == filename_index(name@),
{
    let chars = chars_of(name);
    match find_char(&chars, ' ') {
        Some(space) => parse_u64(&take_chars(&chars, space)),
        None => None,
    }
}

/// The index that a document declares.
pub fn declared_index_of(entry: &Json) -> (index: Option<u64>)
    ensures
        index == declared_index(entry@),
{
    match entry.get("index") {
        Some(index) => match index.as_number() {
            Some(number) => number.as_u64(),
            None => None,
        },
        None => None,
    }
}

/// Puts an entry in its place among those in order.
pub fn insert_sorted(sorted: &mut Vec<Child>, child: Child)
    ensures
        children_view(final(sorted)@) == children_view(old(sorted)@).insert(
            place_for(children_view(old(sorted)@), child.index),
            child@,
        ),
{
    let ghost before = children_view(sorted@);
    let mut place: usize = sorted.len();
    proof {
        assert(before.take(place as int) =~= before);
    }
    while place > 0 && sorted[place - 1].index > child.index
        invariant
            place <= sorted@.len(),
            sorted@ == old(sorted)@,
            before == children_view(sorted@),
            place_for(before, child.index) == place_for(before.take(place as int), child.index),
        decreases place,
    {
        proof {
            assert(before.take(place as int).drop_last() =~= before.take(place - 1));
        }
        place -= 1;
    }
    proof {
        if place > 0 {
            assert(before.take(place as int).last() == before[place - 1]);
        }
    }
    sorted.insert(place, child);
    proof {
        assert(children_view(sorted@) =~= before.insert(place as int, child@));
    }
}

/// The first place where two neighbours have the same index.
pub fn find_repeat(sorted: &Vec<Child>) -> (place: Option<usize>)
    ensures
        match place {
            Some(i) => repeat_from(children_view(sorted@), 0) == Some(i as int) && i + 1
                < sorted@.len(),
            None => repeat_from(children_view(sorted@), 0) is None,
        },
{
    if sorted.len() < 2 {
        return None;
    }
    let mut i: usize = 0;
    while i < sorted.len() - 1
        invariant
            sorted@.len() >= 2,
            repeat_from(children_view(sorted@), 0) == repeat_from(
                children_view(sorted@),
                i as int,
            ),
        decreases sorted@.len() - i,
    {
        if sorted[i].index == sorted[i + 1].index {
            return Some(i);
        }
        i += 1;
    }
    None
}

/// Whether a document is the entry of a book without its entries.
pub fn is_manifest_json(entry: &Json) -> (empty: bool)
    ensures
        empty == is_manifest(entry@),
{
    match entry.get("blueprint_book") {
        Some(payload) => match payload.get("blueprints") {
            Some(blueprints) => match blueprints.as_array() {
                Some(items) => {
                    proof {
                        if items@.len() == 0 {
                            assert(items_view(items@) =~= Seq::<JsonView>::empty());
                        } else {
                            assert(items_view(items@).len() != Seq::<JsonView>::empty().len());
                        }
                    }
                    items.len() == 0
                },
                None => false,
            },
            None => false,
        },
        None => false,
    }
}

/// Once gathering has failed, listing more changes nothing.
pub proof fn lemma_gathered_fails(
    listing: Seq<(Seq<char>, LayoutView)>,
    path: Seq<Seq<char>>,
    count: nat,
    more: nat,
)
    requires
        count <= more <= listing.len(),
        gathered(listing, path, count) is Err,
    ensures
        gathered(listing, path, more) == gathered(listing, path, count),
    decreases more,
{
    if more > count {
        lemma_gathered_fails(listing, path, count, (more - 1) as nat);
    }
}

/// The documents of the entries, in their order.
fn into_values(children: Vec<Child>) -> (values: Vec<Json>)
    ensures
        items_view(values@) == values_of(children_view(children@)),
{
    let mut values: Vec<Json> = Vec::new();
    let ghost models = children_view(children@);
    for child in it: children
        invariant
            models == children_view(it.seq()),
            items_view(values@) == values_of(models.take(it.index() as int)),
    {
        let ghost before = items_view(values@);
        values.push(child.value);
        proof {
            assert(items_view(values@) =~= before.push(child.value@));
            assert(values_of(models.take(it.index() + 1)) =~= values_of(
                models.take(it.index() as int),
            ).push(child.value@));
        }
    }
    proof {
        assert(models.take(children@.len() as int) =~= models);
    }
    values
}

/// The entries in the order of their indexes; entries with the same index
/// stay in the order in which they were found.
pub fn sort_by_index(children: Vec<Child>) -> (sorted: Vec<Child>)
    ensures
        children_view(sorted@) == sorted_by_index(children_view(children@)),
{
    let mut sorted: Vec<Child> = Vec::new();
    let ghost models = children_view(children@);
    proof {
        assert(children_view(sorted@) =~= sorted_by_index(models.take(0)));
    }
    for child in it: children
        invariant
            models == children_view(it.seq()),
            children_view(sorted@) == sorted_by_index(models.take(it.index() as int)),
    {
        proof {
            assert(models.take(it.index() + 1).drop_last() =~= models.take(it.index() as int));
            assert(models.take(it.index() + 1).last() == child@);
        }
        insert_sorted(&mut sorted, child);
    }
    proof {
        assert(models.take(children@.len() as int) =~= models);
    }
    sorted
}

/// Makes the book of what was gathered from the directory at `path`: the
/// manifest must be there, no two entries may have the same index, and the
/// manifest must be without entries; then the entries go into it in the order
/// of their indexes.
pub fn assemble(
    manifest: Option<Json>,
    children: Vec<Child>,
    warnings: Vec<Warning>,
    path: &Vec<String>,
) -> (outcome: Result<Loaded, LoadError>)
    ensures
        outcome_view(outcome) == assembled(
            Gathered {
                manifest: owned(manifest),
                children: children_view(children@),
                warnings: warnings_view(warnings@),
            },
            strings_view(path@),
        ),
{
    let mut manifest_path = copy_strings(path);
    let ghost base = strings_view(manifest_path@);
    manifest_path.push(BOOK_FILE.to_owned());
    proof {
        assert(strings_view(manifest_path@) =~= base.push(BOOK_FILE@));
    }
    let mut manifest = match manifest {
        Some(manifest) => manifest,
        None => {
            return Err(LoadError::MissingManifest { path: manifest_path });
        },
    };
    let sorted = sort_by_index(children);
    if let Some(i) = find_repeat(&sorted) {
        return Err(
            LoadError::DuplicateIndex {
                first: copy_strings(&sorted[i].path),
                second: copy_strings(&sorted[i + 1].path),
                index: sorted[i].index,
            },
        );
    }
    if !is_manifest_json(&manifest) {
        return Err(LoadError::ManifestNotEmpty { path: manifest_path });
    }
    put_children(&mut manifest, into_values(sorted));
    Ok(Loaded { value: manifest, warnings })
}

/// Loads the layout that lies at `path`.
pub fn load_at(layout: Layout, path: &Vec<String>) -> (outcome: Result<Loaded, LoadError>)
    ensures
        outcome_view(outcome) == loaded_at(layout@, strings_view(path@)),
    decreases nesting(layout@),
{
    let listing = match layout {
        Layout::File(value) => {
            let none: Vec<Warning> = Vec::new();
            proof {
                assert(warnings_view(none@) =~= Seq::<WarningView>::empty());
            }
            return Ok(Loaded { value, warnings: none });
        },
        Layout::Directory(listing) => listing,
    };
    proof {
        lemma_directory_view(listing);
    }
    let ghost models = listing_view(listing@);
    let ghost root = strings_view(path@);
    let mut manifest: Option<Json> = None;
    let mut children: Vec<Child> = Vec::new();
    let mut warnings: Vec<Warning> = Vec::new();
    proof {
        assert(children_view(children@) =~= Seq::<ChildView>::empty());
        assert(warnings_view(warnings@) =~= Seq::<WarningView>::empty());
    }
    for listed in it: listing
        invariant
            layout@ == LayoutView::Directory(models),
            models == listing_view(it.seq()),
            root == strings_view(path@),
            gathered(models, root, it.index() as nat) == Ok::<Gathered, LoadErrorView>(
                Gathered {
                    manifest: owned(manifest),
                    children: children_view(children@),
                    warnings: warnings_view(warnings@),
                },
            ),
    {
        let ghost count = it.index() as nat;
        let (name, sub) = listed;
        let mut here = copy_strings(path);
        let is_manifest_file = str_eq(name.as_str(), BOOK_FILE);
        let index_in_name = filename_index_of(name.as_str());
        here.push(name);
        proof {
            assert(strings_view(here@) =~= root.push(name@));
            assert(models[count as int] == (name@, sub@));
            lemma_listing_nesting(models, count as int);
        }
        let found = match load_at(sub, &here) {
            Ok(found) => found,
            Err(error) => {
                proof {
                    lemma_gathered_fails(models, root, count + 1, models.len());
                }
                return Err(error);
            },
        };
        let ghost warnings_before = warnings_view(warnings@);
        let mut inner = found.warnings;
        let ghost inner_view = warnings_view(inner@);
        warnings.append(&mut inner);
        proof {
            assert(warnings_view(warnings@) =~= warnings_before + inner_view);
        }
        if is_manifest_file {
            manifest = Some(found.value);
        } else {
            let declared = declared_index_of(&found.value);
            let index = match (index_in_name, declared) {
                (Some(used), Some(declared)) => {
                    if used != declared {
                        let ghost before = warnings_view(warnings@);
                        let warning = Warning::IndexMismatch {
                            path: copy_strings(&here),
                            declared,
                            used,
                        };
                        warnings.push(warning);
                        proof {
                            assert(warnings_view(warnings@) =~= before.push(warning@));
                        }
                    }
                    used
                },
                (Some(used), None) => {
                    let ghost before = warnings_view(warnings@);
                    let warning = Warning::IndexAssumed { path: copy_strings(&here), index: used };
                    warnings.push(warning);
                    proof {
                        assert(warnings_view(warnings@) =~= before.push(warning@));
                    }
                    used
                },
                (None, Some(declared)) => declared,
                (None, None) => {
                    proof {
                        lemma_gathered_fails(models, root, count + 1, models.len());
                    }
                    return Err(LoadError::MissingIndex { path: here });
                },
            };
            let ghost before = children_view(children@);
            let child = Child { path: here, index, value: found.value };
            children.push(child);
            proof {
                assert(children_view(children@) =~= before.push(child@));
            }
        }
    }
    assemble(manifest, children, warnings, path)
}

/// Loads a layout: a file gives its document, a directory the book that it
/// holds.
pub fn load(layout: Layout) -> (outcome: Result<Loaded, LoadError>)
    ensures
        outcome_view(outcome) == loaded(layout@),
{
    let root: Vec<String> = Vec::new();
    proof {
        assert(strings_view(root@) =~= Seq::<Seq<char>>::empty());
    }
    load_at(layout, &root)
}

/// Whether the indexes rise from each entry to the next.
pub open spec fn rising(children: Seq<ChildView>) -> bool {
    forall|i: int, j: int|
        0 <= i < j < children.len() ==> (#[trigger] children[i]).index < (
        #[trigger] children[j]).index
}

/// Whether the indexes never fall from one entry to the next.
pub open spec fn in_order(children: Seq<ChildView>) -> bool {
    forall|i: int, j: int|
        0 <= i <= j < children.len() ==> (#[trigger] children[i]).index <= (
        #[trigger] children[j]).index
}

/// How many of the entries have the index.
pub open spec fn index_count(children: Seq<ChildView>, index: u64) -> nat
    decreases children.len(),
{
    if children.len() == 0 {
        0
    } else {
        index_count(children.drop_last(), index) + if children.last().index == index {
            1nat
        } else {
            0nat
        }
    }
}

/// The place for a new entry lies within the entries; before it no index is
/// larger than the new one, from it on every index is larger.
pub proof fn lemma_place_for(sorted: Seq<ChildView>, index: u64)
    requires
        in_order(sorted),
    ensures
        0 <= place_for(sorted, index) <= sorted.len(),
        forall|i: int| 0 <= i < place_for(sorted, index) ==> (#[trigger] sorted[i]).index <= index,
        forall|i: int|
            place_for(sorted, index) <= i < sorted.len() ==> (#[trigger] sorted[i]).index > index,
    decreases sorted.len(),
{
    if sorted.len() > 0 {
        if sorted.last().index <= index {
            assert forall|i: int| 0 <= i < sorted.len() implies (#[trigger] sorted[i]).index
                <= index by {
                assert(sorted[i].index <= sorted[sorted.len() - 1].index);
            }
        } else {
            let before = sorted.drop_last();
            assert(in_order(before)) by {
                assert forall|i: int, j: int| 0 <= i <= j < before.len() implies (
                #[trigger] before[i]).index <= (#[trigger] before[j]).index by {
                    assert(before[i] == sorted[i] && before[j] == sorted[j]);
                }
            }
            lemma_place_for(before, index);
            assert forall|i: int| 0 <= i < place_for(sorted, index) implies (
            #[trigger] sorted[i]).index <= index by {
                assert(sorted[i] == before[i]);
            }
            assert forall|i: int| place_for(sorted, index) <= i < sorted.len() implies (
            #[trigger] sorted[i]).index > index by {
                if i < before.len() {
                    assert(sorted[i] == before[i]);
                }
            }
        }
    }
}

/// Counting an index among entries with one entry more, wherever it was
/// put.
pub proof fn lemma_count_insert(children: Seq<ChildView>, place: int, child: ChildView, index: u64)
    requires
        0 <= place <= children.len(),
    ensures
        index_count(children.insert(place, child), index) == index_count(children, index) + if child.index
            == index {
            1nat
        } else {
            0nat
        },
    decreases children.len() - place,
{
    let more = children.insert(place, child);
    if place == children.len() {
        assert(more.drop_last() =~= children);
    } else {
        assert(more.drop_last() =~= children.drop_last().insert(place, child));
        assert(more.last() == children.last());
        lemma_count_insert(children.drop_last(), place, child, index);
    }
}

/// Putting the entries in order keeps them: they come out with indexes that
/// never fall, as many as went in, and each index as often as before.
pub proof fn lemma_sorted_by_index(children: Seq<ChildView>)
    ensures
        in_order(sorted_by_index(children)),
        sorted_by_index(children).len() == children.len(),
        forall|index: u64| #[trigger]
            index_count(sorted_by_index(children), index) == index_count(children, index),
    decreases children.len(),
{
    if children.len() > 0 {
        let before = sorted_by_index(children.drop_last());
        let child = children.last();
        lemma_sorted_by_index(children.drop_last());
        lemma_place_for(before, child.index);
        let place = place_for(before, child.index);
        let sorted = before.insert(place, child);
        assert(in_order(sorted)) by {
            assert forall|i: int, j: int| 0 <= i <= j < sorted.len() implies (
            #[trigger] sorted[i]).index <= (#[trigger] sorted[j]).index by {
                if i < place {
                    assert(sorted[i] == before[i]);
                }
                if i > place {
                    assert(sorted[i] == before[i - 1]);
                }
                if j < place {
                    assert(sorted[j] == before[j]);
                }
                if j > place {
                    assert(sorted[j] == before[j - 1]);
                }
            }
        }
        assert forall|index: u64| #[trigger]
            index_count(sorted_by_index(children), index) == index_count(children, index) by {
            lemma_count_insert(before, place, child, index);
        }
    }
}

/// Where neighbours repeat an index, the search finds the first such
/// place.
pub proof fn lemma_repeat_from(sorted: Seq<ChildView>, from: int, at: int)
    requires
        0 <= from <= at,
        at + 1 < sorted.len(),
        sorted[at].index == sorted[at + 1].index,
    ensures
        repeat_from(sorted, from) is Some,
        from <= repeat_from(sorted, from)->0 <= at,
        sorted[repeat_from(sorted, from)->0].index == sorted[repeat_from(sorted, from)->0 + 1].index,
    decreases at - from,
{
    if sorted[from].index != sorted[from + 1].index {
        lemma_repeat_from(sorted, from + 1, at);
    }
}

/// What the search finds is a place where neighbours repeat an index.
pub proof fn lemma_repeat_found(sorted: Seq<ChildView>, from: int)
    requires
        0 <= from,
        repeat_from(sorted, from) is Some,
    ensures
        from <= repeat_from(sorted, from)->0,
        repeat_from(sorted, from)->0 + 1 < sorted.len(),
        sorted[repeat_from(sorted, from)->0].index == sorted[repeat_from(sorted, from)->0 + 1].index,
    decreases sorted.len() - from,
{
    if from + 1 < sorted.len() && sorted[from].index != sorted[from + 1].index {
        lemma_repeat_found(sorted, from + 1);
    }
}

/// Where the search finds nothing, no neighbours repeat an index.
pub proof fn lemma_no_repeat(sorted: Seq<ChildView>, from: int)
    requires
        0 <= from,
        repeat_from(sorted, from) is None,
    ensures
        forall|i: int|
            from <= i && i + 1 < sorted.len() ==> (#[trigger] sorted[i]).index != sorted[i
                + 1].index,
    decreases sorted.len() - from,
{
    if from + 1 < sorted.len() {
        lemma_no_repeat(sorted, from + 1);
    }
}

/// An index that is counted has an entry.
pub proof fn lemma_counted_index(children: Seq<ChildView>, index: u64) -> (at: int)
    requires
        index_count(children, index) > 0,
    ensures
        0 <= at < children.len(),
        children[at].index == index,
    decreases children.len(),
{
    if children.last().index == index {
        children.len() - 1
    } else {
        lemma_counted_index(children.drop_last(), index)
    }
}

/// Two entries with one index count as two at least.
pub proof fn lemma_two_counted(children: Seq<ChildView>, i: int, j: int)
    requires
        0 <= i < j < children.len(),
        children[i].index == children[j].index,
    ensures
        index_count(children, children[i].index) >= 2,
    decreases children.len(),
{
    let index = children[i].index;
    let before = children.drop_last();
    if j == children.len() - 1 {
        lemma_one_counted(before, i);
    } else {
        lemma_two_counted(before, i, j);
    }
}

/// An entry counts for its index.
pub proof fn lemma_one_counted(children: Seq<ChildView>, i: int)
    requires
        0 <= i < children.len(),
    ensures
        index_count(children, children[i].index) >= 1,
    decreases children.len(),
{
    if i < children.len() - 1 {
        lemma_one_counted(children.drop_last(), i);
    }
}

/// Among entries in order, an index that occurs twice stands at two
/// neighbours.
pub proof fn lemma_repeat_in_order(sorted: Seq<ChildView>, index: u64)
    requires
        in_order(sorted),
        index_count(sorted, index) >= 2,
    ensures
        repeat_from(sorted, 0) is Some,
    decreases sorted.len(),
{
    let before = sorted.drop_last();
    if index_count(before, index) >= 2 {
        assert(in_order(before)) by {
            assert forall|i: int, j: int| 0 <= i <= j < before.len() implies (
            #[trigger] before[i]).index <= (#[trigger] before[j]).index by {
                assert(before[i] == sorted[i] && before[j] == sorted[j]);
            }
        }
        lemma_repeat_in_order(before, index);
        lemma_repeat_found(before, 0);
        let at = repeat_from(before, 0)->0;
        assert(sorted[at] == before[at] && sorted[at + 1] == before[at + 1]);
        lemma_repeat_from(sorted, 0, at);
    } else {
        let at = lemma_counted_index(before, index);
        let last = sorted.len() - 1;
        assert(sorted[at] == before[at]);
        assert(sorted[at].index <= sorted[last - 1].index);
        assert(sorted[last - 1].index <= sorted[last].index);
        lemma_repeat_from(sorted, 0, last - 1);
    }
}

/// The index in a name wins, and a mismatch is no failure: a listed thing
/// whose name begins with an index is taken up under that index whatever its
/// document declares, with a warning unless the document declares the same
/// index.
pub proof fn lemma_filename_index_wins(
    gathered: Gathered,
    here: Seq<Seq<char>>,
    name: Seq<char>,
    value: JsonView,
    warnings: Seq<WarningView>,
)
    requires
        name != BOOK_FILE@,
        filename_index(name) is Some,
    ensures
        with_listed(gathered, here, name, value, warnings) is Ok,
        with_listed(gathered, here, name, value, warnings)->Ok_0.children == gathered.children.push(
            ChildView { path: here, index: filename_index(name)->0, value },
        ),
        with_listed(gathered, here, name, value, warnings)->Ok_0.manifest == gathered.manifest,
        with_listed(gathered, here, name, value, warnings)->Ok_0.warnings == if declared_index(value)
            == filename_index(name) {
            gathered.warnings + warnings
        } else {
            (gathered.warnings + warnings).push(index_warning(here, name, value)->0)
        },
        declared_index(value) != filename_index(name) ==> index_warning(here, name, value) is Some,
{
}

/// Where a book can be made of what was gathered, its entries stand in it
/// in the order of their indexes, and the indexes rise from each entry to the
/// next.
pub proof fn lemma_assembled_in_order(found: Gathered, path: Seq<Seq<char>>)
    requires
        assembled(found, path) is Ok,
    ensures
        found.manifest is Some,
        rising(sorted_by_index(found.children)),
        assembled(found, path)->Ok_0.0 == with_children(
            found.manifest->0,
            values_of(sorted_by_index(found.children)),
        ),
        assembled(found, path)->Ok_0.1 == found.warnings,
{
    let sorted = sorted_by_index(found.children);
    lemma_sorted_by_index(found.children);
    lemma_no_repeat(sorted, 0);
    assert forall|i: int, j: int| 0 <= i < j < sorted.len() implies (#[trigger] sorted[i]).index < (
    #[trigger] sorted[j]).index by {
        assert(sorted[i].index <= sorted[j - 1].index);
        assert(sorted[j - 1].index != sorted[j].index);
        assert(sorted[j - 1].index <= sorted[j].index);
    }
}

/// Two entries of one directory that are given the same index stop the
/// load with `DuplicateIndex`: neither is picked over the other. This holds
/// of every directory that has its `book.json` and whose listed things could
/// all be loaded and given an index.
pub proof fn lemma_duplicate_index_fails(
    listing: Seq<(Seq<char>, LayoutView)>,
    path: Seq<Seq<char>>,
    i: int,
    j: int,
)
    requires
        gathered(listing, path, listing.len()) is Ok,
        gathered(listing, path, listing.len())->Ok_0.manifest is Some,
        0 <= i < j < gathered(listing, path, listing.len())->Ok_0.children.len(),
        gathered(listing, path, listing.len())->Ok_0.children[i].index == gathered(
            listing,
            path,
            listing.len(),
        )->Ok_0.children[j].index,
    ensures
        loaded_at(LayoutView::Directory(listing), path) is Err,
        loaded_at(LayoutView::Directory(listing), path)->Err_0 is DuplicateIndex,
{
    let found = gathered(listing, path, listing.len())->Ok_0;
    let index = found.children[i].index;
    lemma_two_counted(found.children, i, j);
    lemma_sorted_by_index(found.children);
    assert(index_count(sorted_by_index(found.children), index) == index_count(
        found.children,
        index,
    ));
    lemma_repeat_in_order(sorted_by_index(found.children), index);
}

/// The error `DuplicateIndex` names two entries that were given the same
/// index, and that index.
pub proof fn lemma_duplicate_index_names(found: Gathered, path: Seq<Seq<char>>)
    requires
        assembled(found, path) is Err,
        assembled(found, path)->Err_0 is DuplicateIndex,
    ensures
        exists|a: int, b: int|
            0 <= a < b < sorted_by_index(found.children).len() && (#[trigger] sorted_by_index(
                found.children,
            )[a]).index == (#[trigger] sorted_by_index(found.children)[b]).index && assembled(
                found,
                path,
            )->Err_0 == (LoadErrorView::DuplicateIndex {
                first: sorted_by_index(found.children)[a].path,
                second: sorted_by_index(found.children)[b].path,
                index: sorted_by_index(found.children)[a].index,
            }),
{
    let sorted = sorted_by_index(found.children);
    lemma_repeat_found(sorted, 0);
    let at = repeat_from(sorted, 0)->0;
    assert(sorted[at].index == sorted[at + 1].index);
}

} // verus!
