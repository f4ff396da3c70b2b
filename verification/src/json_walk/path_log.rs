//! A visitor that writes down where a walk went, and that keeps the walk
//! out of what lies below given paths.

use vstd::prelude::*;
use crate::json_walk::{walked, walked_entries, walked_items, Visit, Visitor, WalkAction, ITEM};
use crate::text::{str_eq, strings_view};
use crate::value::{Json, JsonView};

verus! {

/// Writes down the path of every node that it is shown, and answers
/// `Break` at the nodes whose path is one of `stops`.
pub struct PathLog {
    pub stops: Vec<Vec<String>>,
    pub seen: Vec<Vec<String>>,
}

/// What a `PathLog` knows: where to stop, and where the walk has been.
pub struct PathLogNotes {
    pub stops: Seq<Seq<Seq<char>>>,
    pub seen: Seq<Seq<Seq<char>>>,
}

/// The paths that a run of paths stands for.
pub open spec fn paths_view(paths: Seq<Vec<String>>) -> Seq<Seq<Seq<char>>> {
    paths.map_values(|path: Vec<String>| strings_view(path@))
}

/// Whether two paths hold the same segments.
fn same_path(a: &Vec<String>, b: &[String]) -> (same: bool)
    ensures
        same == (strings_view(a@) == strings_view(b@)),
{
    if a.len() != b.len() {
        assert(strings_view(a@).len() != strings_view(b@).len());
        return false;
    }
    let mut i: usize = 0;
    while i < a.len()
        invariant
            i <= a@.len(),
            a@.len() == b@.len(),
            forall|j: int| 0 <= j < i ==> strings_view(a@)[j] == strings_view(b@)[j],
        decreases a@.len() - i,
    {
        if !str_eq(a[i].as_str(), b[i].as_str()) {
            assert(strings_view(a@)[i as int] != strings_view(b@)[i as int]);
            return false;
        }
        i += 1;
    }
    assert(strings_view(a@) =~= strings_view(b@));
    true
}

/// A copy of a path.
fn copy_path(path: &[String]) -> (copy: Vec<String>)
    ensures
        strings_view(copy@) == strings_view(path@),
{
    let mut copy: Vec<String> = Vec::new();
    let mut i: usize = 0;
    while i < path.len()
        invariant
            i <= path@.len(),
            strings_view(copy@) == strings_view(path@).take(i as int),
        decreases path@.len() - i,
    {
        let ghost before = strings_view(copy@);
        copy.push(path[i].clone());
        proof {
            assert(strings_view(copy@) =~= before.push(path@[i as int]@));
            assert(strings_view(path@).take(i + 1) =~= strings_view(path@).take(i as int).push(
                path@[i as int]@,
            ));
        }
        i += 1;
    }
    proof {
        assert(strings_view(path@).take(i as int) =~= strings_view(path@));
    }
    copy
}

impl PathLog {
    /// A log that has seen nothing yet.
    pub fn new(stops: Vec<Vec<String>>) -> (log: PathLog)
        ensures
            log.notes() == (PathLogNotes { stops: paths_view(stops@), seen: Seq::empty() }),
    {
        let log = PathLog { stops, seen: Vec::new() };
        proof {
            assert(paths_view(log.seen@) =~= Seq::<Seq<Seq<char>>>::empty());
        }
        log
    }

    /// Whether the walk is to stop at `path`.
    fn stops_at(&self, path: &[String]) -> (stop: bool)
        ensures
            stop == paths_view(self.stops@).contains(strings_view(path@)),
    {
        let mut i: usize = 0;
        while i < self.stops.len()
            invariant
                i <= self.stops@.len(),
                forall|j: int| 0 <= j < i ==> paths_view(self.stops@)[j] != strings_view(path@),
            decreases self.stops@.len() - i,
        {
            if same_path(&self.stops[i], path) {
                assert(paths_view(self.stops@)[i as int] == strings_view(path@));
                return true;
            }
            i += 1;
        }
        false
    }
}

impl Visitor for PathLog {
    type Notes = PathLogNotes;

    open spec fn notes(&self) -> PathLogNotes {
        PathLogNotes { stops: paths_view(self.stops@), seen: paths_view(self.seen@) }
    }

    open spec fn visited(notes: PathLogNotes, path: Seq<Seq<char>>, node: JsonView) -> Visit<
        PathLogNotes,
    > {
        Visit {
            notes: PathLogNotes { stops: notes.stops, seen: notes.seen.push(path) },
            node,
            action: if notes.stops.contains(path) {
                WalkAction::Break
            } else {
                WalkAction::Enter
            },
        }
    }

    fn visit(&mut self, path: &[String], node: &mut Json) -> (action: WalkAction) {
        let ghost before = paths_view(self.seen@);
        self.seen.push(copy_path(path));
        proof {
            assert(paths_view(self.seen@) =~= before.push(strings_view(path@)));
        }
        if self.stops_at(path) {
            WalkAction::Break
        } else {
            WalkAction::Enter
        }
    }
}

/// Whether a path lies below another: it is longer and begins with it.
pub open spec fn below(path: Seq<Seq<char>>, above: Seq<Seq<char>>) -> bool {
    above.len() < path.len() && path.take(above.len() as int) == above
}

/// Whether a path lies at another or below it.
pub open spec fn within(path: Seq<Seq<char>>, above: Seq<Seq<char>>) -> bool {
    path == above || below(path, above)
}

/// Whether a path lies below one of the paths at which the walk stops.
pub open spec fn below_a_stop(stops: Seq<Seq<Seq<char>>>, path: Seq<Seq<char>>) -> bool {
    exists|i: int| 0 <= i < stops.len() && below(path, #[trigger] stops[i])
}

/// Whether the log has grown by visits that all lie at `path` or below
/// it, and none of which lies below a stop unless `path` does.
pub open spec fn grown_within(before: PathLogNotes, after: PathLogNotes, path: Seq<Seq<char>>) -> bool {
    &&& after.stops == before.stops
    &&& before.seen.len() <= after.seen.len()
    &&& after.seen.take(before.seen.len() as int) == before.seen
    &&& forall|i: int|
        before.seen.len() <= i < after.seen.len() ==> within(#[trigger] after.seen[i], path)
    &&& !below_a_stop(before.stops, path) ==> forall|i: int|
        before.seen.len() <= i < after.seen.len() ==> !below_a_stop(
            before.stops,
            #[trigger] after.seen[i],
        )
}

/// What lies right under a path that is no stop and below no stop is below
/// no stop either.
pub proof fn lemma_child_clear(stops: Seq<Seq<Seq<char>>>, path: Seq<Seq<char>>, segment: Seq<char>)
    requires
        !stops.contains(path),
        !below_a_stop(stops, path),
    ensures
        !below_a_stop(stops, path.push(segment)),
{
    let child = path.push(segment);
    if below_a_stop(stops, child) {
        let i = choose|i: int| 0 <= i < stops.len() && below(child, #[trigger] stops[i]);
        let stop = stops[i];
        if stop.len() == path.len() {
            assert(child.take(stop.len() as int) =~= path);
            assert(stops.contains(path));
        } else {
            assert(path.take(stop.len() as int) =~= child.take(stop.len() as int));
            assert(below(path, stops[i]));
        }
    }
}

/// What lies within what lies right under a path lies below the path.
pub proof fn lemma_within_child(path: Seq<Seq<char>>, segment: Seq<char>, deep: Seq<Seq<char>>)
    requires
        within(deep, path.push(segment)),
    ensures
        below(deep, path),
{
    let child = path.push(segment);
    if deep == child {
        assert(child.take(path.len() as int) =~= path);
    } else {
        assert(deep.take(path.len() as int) =~= deep.take(child.len() as int).take(
            path.len() as int,
        ));
        assert(child.take(path.len() as int) =~= path);
    }
}

/// No path lies above the root.
pub proof fn lemma_root_clear(stops: Seq<Seq<Seq<char>>>)
    ensures
        !below_a_stop(stops, Seq::empty()),
{
}

/// A log that has grown within what lies right under a path, where the
/// path is no stop, has grown within the path.
pub proof fn lemma_grown_under(
    before: PathLogNotes,
    after: PathLogNotes,
    path: Seq<Seq<char>>,
    segment: Seq<char>,
)
    requires
        grown_within(before, after, path.push(segment)),
        !before.stops.contains(path),
    ensures
        grown_within(before, after, path),
{
    assert forall|i: int| before.seen.len() <= i < after.seen.len() implies within(
        #[trigger] after.seen[i],
        path,
    ) by {
        lemma_within_child(path, segment, after.seen[i]);
    }
    if !below_a_stop(before.stops, path) {
        lemma_child_clear(before.stops, path, segment);
    }
}

/// A log that has grown within a path and then within the same path has
/// grown within it.
pub proof fn lemma_grown_twice(
    first: PathLogNotes,
    second: PathLogNotes,
    third: PathLogNotes,
    path: Seq<Seq<char>>,
)
    requires
        grown_within(first, second, path),
        grown_within(second, third, path),
    ensures
        grown_within(first, third, path),
{
    assert(third.seen.take(first.seen.len() as int) =~= third.seen.take(
        second.seen.len() as int,
    ).take(first.seen.len() as int));
    assert forall|i: int| first.seen.len() <= i < third.seen.len() implies within(
        #[trigger] third.seen[i],
        path,
    ) by {
        if i < second.seen.len() {
            assert(third.seen[i] == third.seen.take(second.seen.len() as int)[i]);
        }
    }
    if !below_a_stop(first.stops, path) {
        assert forall|i: int| first.seen.len() <= i < third.seen.len() implies !below_a_stop(
            first.stops,
            #[trigger] third.seen[i],
        ) by {
            if i < second.seen.len() {
                assert(third.seen[i] == third.seen.take(second.seen.len() as int)[i]);
            }
        }
    }
}

/// Break leaves the descendants out. A walk with a `PathLog` leaves every
/// node as it was. It writes down the path at which it begins, then only
/// paths below that one; and unless it begins below a stop, it writes down
/// no path that lies below a stop.
pub proof fn lemma_walk_stays_out(
    notes: PathLogNotes,
    path: Seq<Seq<char>>,
    node: JsonView,
    levels: nat,
)
    ensures
        walked::<PathLog>(notes, path, node, levels).node == node,
        grown_within(notes, walked::<PathLog>(notes, path, node, levels).notes, path),
        walked::<PathLog>(notes, path, node, levels).notes.seen.len() > notes.seen.len(),
        walked::<PathLog>(notes, path, node, levels).notes.seen[notes.seen.len() as int] == path,
    decreases levels, 0nat,
{
    let visit = PathLog::visited(notes, path, node);
    assert(visit.notes.seen.take(notes.seen.len() as int) =~= notes.seen);
    assert(grown_within(notes, visit.notes, path));
    if visit.action != WalkAction::Break && levels > 0 {
        match node {
            JsonView::Array(items) => {
                lemma_items_stay_out(
                    visit.notes,
                    path.push(ITEM@),
                    items,
                    (levels - 1) as nat,
                    items.len(),
                );
                let after = walked_items::<PathLog>(
                    visit.notes,
                    path.push(ITEM@),
                    items,
                    (levels - 1) as nat,
                    items.len(),
                ).0;
                lemma_grown_under(visit.notes, after, path, ITEM@);
                lemma_grown_twice(notes, visit.notes, after, path);
                assert(after.seen[notes.seen.len() as int] == after.seen.take(
                    visit.notes.seen.len() as int,
                )[notes.seen.len() as int]);
            },
            JsonView::Object(entries) => {
                lemma_entries_stay_out(visit.notes, path, entries, (levels - 1) as nat, entries.len());
                let after = walked_entries::<PathLog>(
                    visit.notes,
                    path,
                    entries,
                    (levels - 1) as nat,
                    entries.len(),
                ).0;
                lemma_grown_twice(notes, visit.notes, after, path);
                assert(after.seen[notes.seen.len() as int] == after.seen.take(
                    visit.notes.seen.len() as int,
                )[notes.seen.len() as int]);
            },
            _ => {},
        }
    }
}

/// The walk of a whole document stays out of what lies below a stop: it
/// writes down no path that lies below one of the stops.
pub proof fn lemma_whole_walk_stays_out(notes: PathLogNotes, node: JsonView, levels: nat)
    ensures
        forall|i: int|
            notes.seen.len() <= i < walked::<PathLog>(
                notes,
                Seq::empty(),
                node,
                levels,
            ).notes.seen.len() ==> !below_a_stop(
                notes.stops,
                #[trigger] walked::<PathLog>(notes, Seq::empty(), node, levels).notes.seen[i],
            ),
{
    lemma_root_clear(notes.stops);
    lemma_walk_stays_out(notes, Seq::empty(), node, levels);
}

/// Break leaves the siblings in. The walks of the first `count` items of
/// an array leave the items as they were and write down the path of the
/// items once at least for each of them, whatever the stops are.
pub proof fn lemma_items_stay_out(
    notes: PathLogNotes,
    path: Seq<Seq<char>>,
    items: Seq<JsonView>,
    levels: nat,
    count: nat,
)
    requires
        count <= items.len(),
    ensures
        walked_items::<PathLog>(notes, path, items, levels, count).1 == items,
        grown_within(notes, walked_items::<PathLog>(notes, path, items, levels, count).0, path),
        walked_items::<PathLog>(notes, path, items, levels, count).0.seen.len() >= notes.seen.len()
            + count,
    decreases levels, count,
{
    if count == 0 {
        assert(notes.seen.take(notes.seen.len() as int) =~= notes.seen);
    } else {
        lemma_items_stay_out(notes, path, items, levels, (count - 1) as nat);
        let before = walked_items::<PathLog>(notes, path, items, levels, (count - 1) as nat);
        lemma_walk_stays_out(before.0, path, items[count - 1], levels);
        let walk = walked::<PathLog>(before.0, path, items[count - 1], levels);
        lemma_grown_twice(notes, before.0, walk.notes, path);
        assert(items.update(count - 1, items[count - 1]) =~= items);
    }
}

/// Break leaves the siblings in. The walks of what stands under the first
/// `count` keys of an object that is no stop leave the entries as they were
/// and write down the path of each of those keys, whatever the stops are.
pub proof fn lemma_entries_stay_out(
    notes: PathLogNotes,
    path: Seq<Seq<char>>,
    entries: Seq<(Seq<char>, JsonView)>,
    levels: nat,
    count: nat,
)
    requires
        !notes.stops.contains(path),
        count <= entries.len(),
    ensures
        walked_entries::<PathLog>(notes, path, entries, levels, count).1 == entries,
        grown_within(notes, walked_entries::<PathLog>(notes, path, entries, levels, count).0, path),
        forall|k: int|
            0 <= k < count ==> exists|i: int|
                notes.seen.len() <= i < walked_entries::<PathLog>(
                    notes,
                    path,
                    entries,
                    levels,
                    count,
                ).0.seen.len() && #[trigger] walked_entries::<PathLog>(
                    notes,
                    path,
                    entries,
                    levels,
                    count,
                ).0.seen[i] == path.push(#[trigger] entries[k].0),
    decreases levels, count,
{
    if count == 0 {
        assert(notes.seen.take(notes.seen.len() as int) =~= notes.seen);
    } else {
        lemma_entries_stay_out(notes, path, entries, levels, (count - 1) as nat);
        let before = walked_entries::<PathLog>(notes, path, entries, levels, (count - 1) as nat);
        let key = entries[count - 1].0;
        lemma_walk_stays_out(before.0, path.push(key), entries[count - 1].1, levels);
        let walk = walked::<PathLog>(before.0, path.push(key), entries[count - 1].1, levels);
        lemma_grown_under(before.0, walk.notes, path, key);
        lemma_grown_twice(notes, before.0, walk.notes, path);
        assert(entries.update(count - 1, (key, entries[count - 1].1)) =~= entries);
        let after = walked_entries::<PathLog>(notes, path, entries, levels, count).0;
        assert(after == walk.notes);
        assert forall|k: int| 0 <= k < count implies exists|i: int|
            notes.seen.len() <= i < after.seen.len() && #[trigger] after.seen[i] == path.push(
                #[trigger] entries[k].0,
            ) by {
            if k < count - 1 {
                let i = choose|i: int|
                    notes.seen.len() <= i < before.0.seen.len() && #[trigger] before.0.seen[i]
                        == path.push(entries[k].0);
                assert(after.seen[i] == after.seen.take(before.0.seen.len() as int)[i]);
            } else {
                assert(after.seen[before.0.seen.len() as int] == path.push(key));
            }
        }
    }
}

} // verus!
