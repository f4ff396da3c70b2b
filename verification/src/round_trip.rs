//! Saving a book and loading it again.

use vstd::prelude::*;
use crate::layout::{LayoutView, BOOK_FILE};
use crate::load::{declared_index_of, filename_index_of};
use crate::save::{children_of, saved_name};
use crate::text::str_eq;
use crate::value::{items_view, lemma_items_depth, Json};
use crate::load::{
    declared_index, filename_index, gathered, index_warning, is_manifest, lemma_repeat_found,
    loaded_at, place_for, repeat_from, resolved_index, rising, sorted_by_index, values_of,
    with_listed, ChildView, Gathered, LoadErrorView, WarningView,
};
use crate::save::{book_children, lemma_child_depth, manifest_of, saved_as, with_children};
use crate::value::{depth, lemma_with_same, lemma_with_twice, JsonView};

verus! {

/// Whether an entry comes back as it is when it is saved and then loaded.
/// Anything but a book with entries does. A book with entries does where
/// each entry declares an index, the indexes rise from each entry to the
/// next, no entry is saved under the name `book.json` or under a name that
/// begins with another index than the entry declares, and each entry comes
/// back itself.
pub open spec fn comes_back(entry: JsonView) -> bool
    decreases depth(entry),
{
    match book_children(entry) {
        Some(children) => {
            &&& forall|i: int|
                0 <= i < children.len() ==> {
                    &&& declared_index(#[trigger] children[i]) is Some
                    &&& saved_as(children[i]).0 != BOOK_FILE@
                    &&& filename_index(saved_as(children[i]).0) is Some ==> filename_index(
                        saved_as(children[i]).0,
                    ) == declared_index(children[i])
                    &&& {
                        proof {
                            lemma_child_depth(entry, i);
                        }
                        comes_back(children[i])
                    }
                }
            &&& forall|i: int, j: int|
                0 <= i < j < children.len() ==> declared_index(#[trigger] children[i])->0
                    < declared_index(#[trigger] children[j])->0
        },
        None => true,
    }
}

/// Whether an entry comes back as it is when it is saved and then loaded.
pub fn will_come_back(json: &Json) -> (yes: bool)
    ensures
        yes == comes_back(json@),
    decreases depth(json@),
{
    let children = match children_of(json) {
        Some(children) => children,
        None => {
            return true;
        },
    };
    let ghost models = items_view(children@);
    let mut last: Option<u64> = None;
    let mut i: usize = 0;
    while i < children.len()
        invariant
            i <= children@.len(),
            models == items_view(children@),
            book_children(json@) == Some(models),
            forall|k: int|
                0 <= k < i ==> {
                    &&& declared_index(#[trigger] models[k]) is Some
                    &&& saved_as(models[k]).0 != BOOK_FILE@
                    &&& filename_index(saved_as(models[k]).0) is Some ==> filename_index(
                        saved_as(models[k]).0,
                    ) == declared_index(models[k])
                    &&& comes_back(models[k])
                },
            forall|a: int, b: int|
                0 <= a < b < i ==> declared_index(#[trigger] models[a])->0 < declared_index(
                    #[trigger] models[b],
                )->0,
            i == 0 ==> last is None,
            i > 0 ==> last == declared_index(models[i - 1]),
            forall|a: int|
                0 <= a < i ==> declared_index(#[trigger] models[a])->0 <= declared_index(
                    models[i - 1],
                )->0,
        decreases children@.len() - i,
    {
        let child = &children[i];
        let ghost model = models[i as int];
        assert(child@ == model);
        let declared = match declared_index_of(child) {
            Some(declared) => declared,
            None => {
                return false;
            },
        };
        let name = saved_name(child);
        if str_eq(name.as_str(), BOOK_FILE) {
            return false;
        }
        if let Some(used) = filename_index_of(name.as_str()) {
            if used != declared {
                return false;
            }
        }
        if let Some(before) = last {
            if before >= declared {
                assert(!(declared_index(models[i - 1])->0 < declared_index(models[i as int])->0));
                return false;
            }
        }
        proof {
            lemma_child_depth(json@, i as int);
        }
        if !will_come_back(child) {
            return false;
        }
        last = Some(declared);
        i += 1;
    }
    true
}

/// Entries whose indexes rise are in order already, and no two of them have
/// the same index.
pub proof fn lemma_rising_is_sorted(children: Seq<ChildView>)
    requires
        rising(children),
    ensures
        sorted_by_index(children) == children,
        repeat_from(children, 0) is None,
    decreases children.len(),
{
    if children.len() > 0 {
        let before = children.drop_last();
        assert(rising(before)) by {
            assert forall|i: int, j: int| 0 <= i < j < before.len() implies (
            #[trigger] before[i]).index < (#[trigger] before[j]).index by {
                assert(before[i] == children[i] && before[j] == children[j]);
            }
        }
        lemma_rising_is_sorted(before);
        if before.len() > 0 {
            assert(before.last() == children[before.len() - 1]);
            assert(before.last().index < children[children.len() - 1].index);
        }
        assert(place_for(before, children.last().index) == before.len());
        assert(before.insert(before.len() as int, children.last()) =~= children);
    }
    if repeat_from(children, 0) is Some {
        lemma_repeat_found(children, 0);
        let at = repeat_from(children, 0)->0;
        assert(children[at].index < children[at + 1].index);
    }
}

/// The entry of a book without its entries is a manifest, and with the
/// entries put back it is the book again.
pub proof fn lemma_manifest_takes_back(book: JsonView)
    requires
        book_children(book) is Some,
    ensures
        is_manifest(manifest_of(book)),
        with_children(manifest_of(book), book_children(book)->0) == book,
{
    let children = book_children(book)->0;
    let payload = book.get("blueprint_book"@)->0;
    let none = JsonView::Array(Seq::empty());
    let emptied = payload.with("blueprints"@, none);
    lemma_with_twice(book, "blueprint_book"@, emptied, emptied);
    lemma_with_twice(payload, "blueprints"@, none, JsonView::Array(children));
    lemma_with_twice(
        book,
        "blueprint_book"@,
        emptied,
        emptied.with("blueprints"@, JsonView::Array(children)),
    );
    lemma_with_same(payload, "blueprints"@);
    lemma_with_same(book, "blueprint_book"@);
}

/// The entries of a book as they are found again in its directory: each at
/// the place of the directory under its name, with the index that it
/// declares.
pub open spec fn found_children(book: JsonView, path: Seq<Seq<char>>, count: nat) -> Seq<ChildView> {
    Seq::new(
        count,
        |i: int|
            ChildView {
                path: path.push(saved_as(book_children(book)->0[i]).0),
                index: declared_index(book_children(book)->0[i])->0,
                value: book_children(book)->0[i],
            },
    )
}

/// Load after save on books: a book that is saved and then loaded comes
/// back as it was, its entries under `blueprints` in their order, and
/// without a warning. This holds of every entry that `comes_back` admits,
/// wherever the layout lies.
pub proof fn lemma_load_inverts_save(entry: JsonView, path: Seq<Seq<char>>)
    requires
        comes_back(entry),
    ensures
        loaded_at(saved_as(entry).1, path) == Ok::<(JsonView, Seq<WarningView>), LoadErrorView>(
            (entry, Seq::empty()),
        ),
    decreases depth(entry), 1nat, 0nat,
{
    match book_children(entry) {
        Some(children) => {
            let listing = saved_as(entry).1->Directory_0;
            let count = children.len();
            lemma_gathered_again(entry, path, count);
            let before = gathered(listing, path, count)->Ok_0;
            assert(listing.len() == count + 1);
            assert(listing[count as int] == (BOOK_FILE@, LayoutView::File(manifest_of(entry))));
            let here = path.push(BOOK_FILE@);
            assert(loaded_at(LayoutView::File(manifest_of(entry)), here) == Ok::<
                (JsonView, Seq<WarningView>),
                LoadErrorView,
            >((manifest_of(entry), Seq::empty())));
            assert(before.warnings + Seq::<WarningView>::empty() =~= Seq::<WarningView>::empty());
            assert(with_listed(before, here, BOOK_FILE@, manifest_of(entry), Seq::empty()) == Ok::<
                Gathered,
                LoadErrorView,
            >(
                Gathered {
                    manifest: Some(manifest_of(entry)),
                    children: found_children(entry, path, count),
                    warnings: Seq::empty(),
                },
            ));
            assert(gathered(listing, path, (count + 1) as nat) == with_listed(
                before,
                here,
                BOOK_FILE@,
                manifest_of(entry),
                Seq::empty(),
            ));
            let found = gathered(listing, path, listing.len())->Ok_0;
            assert(rising(found.children));
            lemma_rising_is_sorted(found.children);
            lemma_manifest_takes_back(entry);
            assert(values_of(found.children) =~= children);
        },
        None => {},
    }
}

/// What is gathered from the first entries of a saved book: the entries
/// themselves, and no warning.
pub proof fn lemma_gathered_again(book: JsonView, path: Seq<Seq<char>>, count: nat)
    requires
        comes_back(book),
        book_children(book) is Some,
        count <= book_children(book)->0.len(),
    ensures
        gathered(saved_as(book).1->Directory_0, path, count) == Ok::<Gathered, LoadErrorView>(
            Gathered {
                manifest: None,
                children: found_children(book, path, count),
                warnings: Seq::empty(),
            },
        ),
    decreases depth(book), 0nat, count,
{
    let children = book_children(book)->0;
    let listing = saved_as(book).1->Directory_0;
    if count == 0 {
        assert(found_children(book, path, 0) =~= Seq::<ChildView>::empty());
    } else {
        let last = (count - 1) as int;
        lemma_gathered_again(book, path, (count - 1) as nat);
        lemma_child_depth(book, last);
        let child = children[last];
        assert(listing[last] == saved_as(child));
        let name = saved_as(child).0;
        let here = path.push(name);
        lemma_load_inverts_save(child, here);
        assert(resolved_index(name, child) == declared_index(child));
        assert(index_warning(here, name, child) is None);
        let before = gathered(listing, path, (count - 1) as nat)->Ok_0;
        assert(before.warnings + Seq::<WarningView>::empty() =~= Seq::<WarningView>::empty());
        assert(found_children(book, path, (count - 1) as nat).push(
            ChildView { path: here, index: declared_index(child)->0, value: child },
        ) =~= found_children(book, path, count));
    }
}

} // verus!
