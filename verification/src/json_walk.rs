//! A walk over a document: every node is shown to a visitor, parents before
//! their children, with the path that leads to it.

use vstd::prelude::*;
use crate::json_walk::string_stack::StringStack;
use crate::text::strings_view;
use crate::value::{entries_view, items_view, lemma_array_view, lemma_object_view, Json, JsonView};

pub mod path_log;
pub mod string_stack;

verus! {

/// What a visitor answers when it is shown a node.
#[derive(Clone, Copy, Debug, PartialEq, Eq, Structural)]
pub enum WalkAction {
    /// Go on into the children of the node.
    Enter,
    /// Leave the children of the node out.
    Break,
}

/// The segment that stands in a path for an item of an array.
pub const ITEM: &'static str = "[]";

/// What one visit leaves: the visitor's notes, the node, and the answer.
pub struct Visit<N> {
    pub notes: N,
    pub node: JsonView,
    pub action: WalkAction,
}

/// What a walk leaves: the visitor's notes and the node.
pub struct Walk<N> {
    pub notes: N,
    pub node: JsonView,
}

/// What is shown the nodes of a walk. A visitor may take notes and may
/// change the node that it is shown; what a visit does is a function of the
/// notes taken so far, the path and the node. A visitor that says nothing of
/// itself is taken to keep no notes, to change nothing and to enter
/// everywhere.
pub trait Visitor {
    /// What the visitor knows.
    type Notes;

    /// What the visitor knows now.
    open spec fn notes(&self) -> Self::Notes {
        arbitrary()
    }

    /// What a visit does.
    open spec fn visited(notes: Self::Notes, path: Seq<Seq<char>>, node: JsonView) -> Visit<
        Self::Notes,
    > {
        Visit { notes, node, action: WalkAction::Enter }
    }

    /// Shows the visitor the node at `path`.
    fn visit(&mut self, path: &[String], node: &mut Json) -> (action: WalkAction)
        ensures
            Self::visited(old(self).notes(), strings_view(path@), old(node)@) == (Visit {
                notes: final(self).notes(),
                node: final(node)@,
                action,
            }),
    ;
}

/// What the walk of a node leaves. The node is visited; unless the answer
/// is `Break`, its children, as the visit left them, are walked in their
/// order, the items of an array under the segment `[]`, what stands in an
/// object under its key. `levels` is how many levels below the node the
/// walk may still go.
pub open spec fn walked<V: Visitor>(
    notes: V::Notes,
    path: Seq<Seq<char>>,
    node: JsonView,
    levels: nat,
) -> Walk<V::Notes>
    decreases levels, 0nat,
{
    let visit = V::visited(notes, path, node);
    if visit.action == WalkAction::Break || levels == 0 {
        Walk { notes: visit.notes, node: visit.node }
    } else {
        match visit.node {
            JsonView::Array(items) => {
                let below = walked_items::<V>(
                    visit.notes,
                    path.push(ITEM@),
                    items,
                    (levels - 1) as nat,
                    items.len(),
                );
                Walk { notes: below.0, node: JsonView::Array(below.1) }
            },
            JsonView::Object(entries) => {
                let below = walked_entries::<V>(
                    visit.notes,
                    path,
                    entries,
                    (levels - 1) as nat,
                    entries.len(),
                );
                Walk { notes: below.0, node: JsonView::Object(below.1) }
            },
            _ => Walk { notes: visit.notes, node: visit.node },
        }
    }
}

/// What the walks of the first `count` items leave: the notes, and the
/// items, the first `count` of them as their walks left them.
pub open spec fn walked_items<V: Visitor>(
    notes: V::Notes,
    path: Seq<Seq<char>>,
    items: Seq<JsonView>,
    levels: nat,
    count: nat,
) -> (V::Notes, Seq<JsonView>)
    decreases levels, count,
{
    if count == 0 || count > items.len() {
        (notes, items)
    } else {
        let before = walked_items::<V>(notes, path, items, levels, (count - 1) as nat);
        let walk = walked::<V>(before.0, path, items[count - 1], levels);
        (walk.notes, before.1.update(count - 1, walk.node))
    }
}

/// What the walks of what stands under the first `count` keys leave: the
/// notes, and the entries, the first `count` of them as their walks left
/// them.
pub open spec fn walked_entries<V: Visitor>(
    notes: V::Notes,
    path: Seq<Seq<char>>,
    entries: Seq<(Seq<char>, JsonView)>,
    levels: nat,
    count: nat,
) -> (V::Notes, Seq<(Seq<char>, JsonView)>)
    decreases levels, count,
{
    if count == 0 || count > entries.len() {
        (notes, entries)
    } else {
        let before = walked_entries::<V>(notes, path, entries, levels, (count - 1) as nat);
        let key = entries[count - 1].0;
        let walk = walked::<V>(before.0, path.push(key), entries[count - 1].1, levels);
        (walk.notes, before.1.update(count - 1, (key, walk.node)))
    }
}

/// Break leaves the descendants out: where the visitor answers `Break` at a
/// node, the walk of that node is that one visit and nothing more. The notes
/// and the node are as the visit left them.
pub proof fn lemma_break_skips_below<V: Visitor>(
    notes: V::Notes,
    path: Seq<Seq<char>>,
    node: JsonView,
    levels: nat,
)
    requires
        V::visited(notes, path, node).action == WalkAction::Break,
    ensures
        walked::<V>(notes, path, node, levels) == (Walk {
            notes: V::visited(notes, path, node).notes,
            node: V::visited(notes, path, node).node,
        }),
{
}

/// Break leaves the siblings in: each item of an array is walked with the
/// notes that the walks of the items before it left, whatever the visitor
/// answered there, and each walk begins with the visit of the item itself.
pub proof fn lemma_items_all_walked<V: Visitor>(
    notes: V::Notes,
    path: Seq<Seq<char>>,
    items: Seq<JsonView>,
    levels: nat,
    place: nat,
)
    requires
        place < items.len(),
    ensures
        walked_items::<V>(notes, path, items, levels, place + 1).0 == walked::<V>(
            walked_items::<V>(notes, path, items, levels, place).0,
            path,
            items[place as int],
            levels,
        ).notes,
        walked_items::<V>(notes, path, items, levels, place + 1).1[place as int] == walked::<V>(
            walked_items::<V>(notes, path, items, levels, place).0,
            path,
            items[place as int],
            levels,
        ).node,
{
    lemma_walked_items_len::<V>(notes, path, items, levels, place);
}

/// Break leaves the siblings in: what stands under each key of an object
/// is walked with the notes that the walks under the keys before it left,
/// whatever the visitor answered there.
pub proof fn lemma_entries_all_walked<V: Visitor>(
    notes: V::Notes,
    path: Seq<Seq<char>>,
    entries: Seq<(Seq<char>, JsonView)>,
    levels: nat,
    place: nat,
)
    requires
        place < entries.len(),
    ensures
        walked_entries::<V>(notes, path, entries, levels, place + 1).0 == walked::<V>(
            walked_entries::<V>(notes, path, entries, levels, place).0,
            path.push(entries[place as int].0),
            entries[place as int].1,
            levels,
        ).notes,
        walked_entries::<V>(notes, path, entries, levels, place + 1).1[place as int] == (
            entries[place as int].0,
            walked::<V>(
                walked_entries::<V>(notes, path, entries, levels, place).0,
                path.push(entries[place as int].0),
                entries[place as int].1,
                levels,
            ).node,
        ),
{
    lemma_walked_entries_len::<V>(notes, path, entries, levels, place);
}

/// The walks of items leave as many items as there were.
pub proof fn lemma_walked_items_len<V: Visitor>(
    notes: V::Notes,
    path: Seq<Seq<char>>,
    items: Seq<JsonView>,
    levels: nat,
    count: nat,
)
    ensures
        walked_items::<V>(notes, path, items, levels, count).1.len() == items.len(),
    decreases count,
{
    if count > 0 && count <= items.len() {
        lemma_walked_items_len::<V>(notes, path, items, levels, (count - 1) as nat);
    }
}

/// The walks of entries leave as many entries as there were.
pub proof fn lemma_walked_entries_len<V: Visitor>(
    notes: V::Notes,
    path: Seq<Seq<char>>,
    entries: Seq<(Seq<char>, JsonView)>,
    levels: nat,
    count: nat,
)
    ensures
        walked_entries::<V>(notes, path, entries, levels, count).1.len() == entries.len(),
    decreases count,
{
    if count > 0 && count <= entries.len() {
        lemma_walked_entries_len::<V>(notes, path, entries, levels, (count - 1) as nat);
    }
}

/// Walks a document: shows the visitor every node, a parent before its
/// children, children in their order, with the path from the root. The
/// children of a node are those that the node has after its visit; where the
/// visitor answers `Break`, they are left out.
pub fn walk_json<V: Visitor>(to_walk: &mut Json, visitor: &mut V)
    ensures
        walked::<V>(old(visitor).notes(), Seq::empty(), old(to_walk)@, usize::MAX as nat) == (Walk {
            notes: final(visitor).notes(),
            node: final(to_walk)@,
        }),
{
    let mut storage: Vec<String> = Vec::new();
    let path = StringStack::new(&mut storage);
    walk_json_inner(path, to_walk, visitor, usize::MAX);
}

/// Walks the node that lies at `path`, and no more than `levels` levels
/// below it.
fn walk_json_inner<V: Visitor>(
    mut path: StringStack<'_>,
    to_walk: &mut Json,
    visitor: &mut V,
    levels: usize,
)
    requires
        path.len <= old(path.storage)@.len(),
    ensures
        walked::<V>(
            old(visitor).notes(),
            strings_view(old(path.storage)@.take(path.len as int)),
            old(to_walk)@,
            levels as nat,
        ) == (Walk { notes: final(visitor).notes(), node: final(to_walk)@ }),
        (*final(path.storage))@.len() >= path.len,
        (*final(path.storage))@.take(path.len as int) == old(path.storage)@.take(path.len as int),
    decreases levels,
{
    let ghost here = path.path();
    let ghost kept = path.storage@.take(path.len as int);
    let ghost depth = path.len;
    let action = visitor.visit(path.as_slice(), to_walk);
    if action == WalkAction::Break || levels == 0 {
        return ;
    }
    let ghost seen = visitor.notes();
    match to_walk {
        Json::Array(values) => {
            proof {
                lemma_array_view(*values);
            }
            let ghost items = items_view(values@);
            let mut i: usize = 0;
            while i < values.len()
                invariant
                    i <= values@.len(),
                    values@.len() == items.len(),
                    levels > 0,
                    path.len == depth,
                    path.wf(),
                    path.storage@.take(depth as int) == kept,
                    here == strings_view(kept),
                    *final(path.storage) == *final(old(path.storage)),
                    walked_items::<V>(seen, here.push(ITEM@), items, (levels - 1) as nat, i as nat)
                        == (visitor.notes(), items_view(values@)),
                    forall|j: int| i <= j < items.len() ==> values@[j]@ == #[trigger] items[j],
                decreases values@.len() - i,
            {
                let ghost before = items_view(values@);
                let ghost notes_before = visitor.notes();
                let below = path.push(ITEM);
                proof {
                    assert(below.path() == here.push(ITEM@));
                    assert(strings_view(below.storage@.take(below.len as int)) == here.push(ITEM@));
                    assert(below.storage@.take(below.len as int).take(depth as int)
                        =~= below.storage@.take(depth as int));
                }
                walk_json_inner(below, &mut values[i], visitor, levels - 1);
                proof {
                    assert(path.storage@.take(depth as int) =~= kept);
                    assert(items_view(values@) =~= before.update(i as int, values@[i as int]@));
                    assert(walked::<V>(
                        notes_before,
                        here.push(ITEM@),
                        items[i as int],
                        (levels - 1) as nat,
                    ) == (Walk { notes: visitor.notes(), node: values@[i as int]@ }));
                }
                i += 1;
            }
            proof {
                lemma_array_view(*values);
            }
        },
        Json::Object(entries) => {
            proof {
                lemma_object_view(*entries);
            }
            let ghost listed = entries_view(entries@);
            let mut i: usize = 0;
            while i < entries.len()
                invariant
                    i <= entries@.len(),
                    entries@.len() == listed.len(),
                    levels > 0,
                    path.len == depth,
                    path.wf(),
                    path.storage@.take(depth as int) == kept,
                    here == strings_view(kept),
                    *final(path.storage) == *final(old(path.storage)),
                    walked_entries::<V>(seen, here, listed, (levels - 1) as nat, i as nat) == (
                        visitor.notes(),
                        entries_view(entries@),
                    ),
                    forall|j: int|
                        i <= j < listed.len() ==> entries_view(entries@)[j] == #[trigger] listed[j],
                    forall|j: int|
                        0 <= j < listed.len() ==> entries@[j].0@ == (#[trigger] listed[j]).0,
                decreases entries@.len() - i,
            {
                let ghost before = entries_view(entries@);
                let ghost notes_before = visitor.notes();
                let below = path.push(entries[i].0.as_str());
                proof {
                    assert(below.path() == here.push(listed[i as int].0));
                    assert(strings_view(below.storage@.take(below.len as int)) == here.push(
                        listed[i as int].0,
                    ));
                    assert(below.storage@.take(below.len as int).take(depth as int)
                        =~= below.storage@.take(depth as int));
                }
                walk_json_inner(below, &mut entries[i].1, visitor, levels - 1);
                proof {
                    assert(path.storage@.take(depth as int) =~= kept);
                    assert(entries_view(entries@) =~= before.update(
                        i as int,
                        (before[i as int].0, entries@[i as int].1@),
                    ));
                    assert(walked::<V>(
                        notes_before,
                        here.push(listed[i as int].0),
                        listed[i as int].1,
                        (levels - 1) as nat,
                    ) == (Walk { notes: visitor.notes(), node: entries@[i as int].1@ }));
                }
                i += 1;
            }
            proof {
                lemma_object_view(*entries);
            }
        },
        _ => {},
    }
}

} // verus!
