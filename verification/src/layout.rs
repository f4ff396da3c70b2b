//! A blueprint or a book as it lies on disk: a file that holds one document,
//! or a directory of named files and directories.

use vstd::prelude::*;
use crate::value::{Json, JsonView};

verus! {

/// The name of the file that holds a book's own entry.
pub const BOOK_FILE: &'static str = "book.json";

/// A file or a directory, without its own name.
#[derive(Debug, PartialEq, Eq)]
pub enum Layout {
    /// A file, by the document in it.
    File(Json),
    /// A directory, by what it lists: each name with what stands under it.
    Directory(Vec<(String, Layout)>),
}

/// What a `Layout` stands for.
pub enum LayoutView {
    File(JsonView),
    Directory(Seq<(Seq<char>, LayoutView)>),
}

/// What a layout stands for.
pub open spec fn layout_of(layout: Layout) -> LayoutView
    decreases layout,
{
    match layout {
        Layout::File(json) => LayoutView::File(json@),
        Layout::Directory(listing) => LayoutView::Directory(
            Seq::new(
                listing@.len(),
                |i: int|
                    if 0 <= i < listing@.len() {
                        (listing@[i].0@, layout_of(listing@[i].1))
                    } else {
                        (Seq::empty(), LayoutView::Directory(Seq::empty()))
                    },
            ),
        ),
    }
}

impl View for Layout {
    type V = LayoutView;

    open spec fn view(&self) -> LayoutView {
        layout_of(*self)
    }
}

/// The names and layouts that a listing stands for.
pub open spec fn listing_view(listing: Seq<(String, Layout)>) -> Seq<(Seq<char>, LayoutView)> {
    listing.map_values(|named: (String, Layout)| (named.0@, named.1@))
}

/// A directory stands for its names and what stands under them, in their
/// order.
pub proof fn lemma_directory_view(listing: Vec<(String, Layout)>)
    ensures
        Layout::Directory(listing)@ == LayoutView::Directory(listing_view(listing@)),
{
    assert(Layout::Directory(listing)@->Directory_0 =~= listing_view(listing@));
}

/// How many directories lie one inside the other.
pub open spec fn nesting(layout: LayoutView) -> nat
    decreases layout,
{
    match layout {
        LayoutView::File(_) => 0,
        LayoutView::Directory(listing) => 1 + listing_nesting(listing),
    }
}

/// The nesting of the most nested of the listed.
pub open spec fn listing_nesting(listing: Seq<(Seq<char>, LayoutView)>) -> nat
    decreases listing,
{
    if listing.len() == 0 {
        0
    } else {
        let before = listing_nesting(listing.drop_last());
        let last = nesting(listing.last().1);
        if last > before {
            last
        } else {
            before
        }
    }
}

/// Nothing listed is more nested than the most nested.
pub proof fn lemma_listing_nesting(listing: Seq<(Seq<char>, LayoutView)>, i: int)
    requires
        0 <= i < listing.len(),
    ensures
        nesting(listing[i].1) <= listing_nesting(listing),
    decreases listing.len(),
{
    if i < listing.len() - 1 {
        lemma_listing_nesting(listing.drop_last(), i);
    }
}

} // verus!
