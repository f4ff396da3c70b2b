//! Counting the entities of a blueprint or of a book.

use vstd::prelude::*;
use crate::blueprint::Quality;
use crate::text::{
    compare_text, lemma_text_lt_irreflexive, lemma_text_lt_transitive, str_eq, text_lt, Rank,
};

verus! {

/// One entity of a blueprint, as far as counting reads it.
#[derive(Debug, PartialEq, Eq)]
pub struct Entity {
    pub name: String,
    pub quality: Option<String>,
}

/// A blueprint, as far as counting reads it.
#[derive(Debug, PartialEq, Eq)]
pub struct Blueprint {
    pub entities: Vec<Entity>,
}

/// A book, as far as counting reads it.
#[derive(Debug, PartialEq, Eq)]
pub struct BlueprintBook {
    pub blueprints: Vec<Top>,
}

/// An entry, as far as counting reads it: it may hold a blueprint, a book,
/// both or neither.
#[derive(Debug, PartialEq, Eq)]
pub struct Top {
    pub blueprint: Option<Blueprint>,
    pub book: Option<BlueprintBook>,
}

/// What is counted: a name and a quality.
pub type Key = (Seq<char>, Option<Seq<char>>);

/// What an `Entity` stands for.
pub struct EntityView {
    pub name: Seq<char>,
    pub quality: Option<Seq<char>>,
}

/// What a `Top` stands for.
pub struct TopView {
    pub blueprint: Option<Seq<EntityView>>,
    pub book: Option<Seq<TopView>>,
}

impl View for Entity {
    type V = EntityView;

    open spec fn view(&self) -> EntityView {
        EntityView {
            name: self.name@,
            quality: match self.quality {
                Some(quality) => Some(quality@),
                None => None,
            },
        }
    }
}

/// The entities that a run of entities stands for.
pub open spec fn entities_view(entities: Seq<Entity>) -> Seq<EntityView> {
    entities.map_values(|entity: Entity| entity@)
}

impl View for Blueprint {
    type V = Seq<EntityView>;

    open spec fn view(&self) -> Seq<EntityView> {
        entities_view(self.entities@)
    }
}

/// What an entry stands for.
pub open spec fn top_of(top: Top) -> TopView
    decreases top,
{
    TopView {
        blueprint: match top.blueprint {
            Some(blueprint) => Some(blueprint@),
            None => None,
        },
        book: match top.book {
            Some(book) => Some(
                Seq::new(
                    book.blueprints@.len(),
                    |i: int|
                        if 0 <= i < book.blueprints@.len() {
                            top_of(book.blueprints@[i])
                        } else {
                            TopView { blueprint: None, book: None }
                        },
                ),
            ),
            None => None,
        },
    }
}

impl View for Top {
    type V = TopView;

    open spec fn view(&self) -> TopView {
        top_of(*self)
    }
}

/// The entries that a run of entries stands for.
pub open spec fn tops_view(tops: Seq<Top>) -> Seq<TopView> {
    tops.map_values(|top: Top| top@)
}

/// Under which key an entity is counted, and for how many: the pieces of
/// rail are counted as so many rails, anything else as one of itself.
pub open spec fn counted_as(entity: EntityView) -> (Key, nat) {
    if entity.name == "curved-rail-a"@ || entity.name == "curved-rail-b"@ {
        (("rail"@, entity.quality), 3)
    } else if entity.name == "half-diagonal-rail"@ {
        (("rail"@, entity.quality), 2)
    } else if entity.name == "straight-rail"@ {
        (("rail"@, entity.quality), 1)
    } else {
        ((entity.name, entity.quality), 1)
    }
}

/// How many the entities count for under a key.
pub open spec fn entities_total(entities: Seq<EntityView>, key: Key) -> nat
    decreases entities.len(),
{
    if entities.len() == 0 {
        0
    } else {
        entities_total(entities.drop_last(), key) + if counted_as(entities.last()).0 == key {
            counted_as(entities.last()).1
        } else {
            0
        }
    }
}

/// How many an entry counts for under a key: its blueprint, and every entry
/// of its book.
pub open spec fn top_total(top: TopView, key: Key) -> nat
    decreases top,
{
    (match top.blueprint {
        Some(entities) => entities_total(entities, key),
        None => 0,
    }) + (match top.book {
        Some(tops) => tops_total(tops, key),
        None => 0,
    })
}

/// How many the entries count for under a key.
pub open spec fn tops_total(tops: Seq<TopView>, key: Key) -> nat
    decreases tops,
{
    if tops.len() == 0 {
        0
    } else {
        tops_total(tops.drop_last(), key) + top_total(tops.last(), key)
    }
}

/// Whether one quality stands before another: no quality stands before
/// every quality, and qualities are in the order of their names.
pub open spec fn quality_lt(a: Option<Seq<char>>, b: Option<Seq<char>>) -> bool {
    match (a, b) {
        (None, Some(_)) => true,
        (Some(x), Some(y)) => text_lt(x, y),
        _ => false,
    }
}

/// Whether one key stands before another: by the names, and under one name
/// by the qualities.
pub open spec fn key_lt(a: Key, b: Key) -> bool {
    text_lt(a.0, b.0) || (a.0 == b.0 && quality_lt(a.1, b.1))
}

/// The counts that a run of counts stands for.
pub open spec fn counts_view(counts: Seq<((String, Quality), u64)>) -> Seq<(Key, u64)> {
    counts.map_values(|count: ((String, Quality), u64)| ((count.0.0@, count.0.1@), count.1))
}

/// Whether counts are in the order of their keys, each key before the
/// next.
pub open spec fn ordered(counts: Seq<(Key, u64)>) -> bool {
    forall|i: int, j: int|
        0 <= i < j < counts.len() ==> key_lt((#[trigger] counts[i]).0, (#[trigger] counts[j]).0)
}

/// Whether no count is zero.
pub open spec fn positive(counts: Seq<(Key, u64)>) -> bool {
    forall|i: int| 0 <= i < counts.len() ==> (#[trigger] counts[i]).1 > 0
}

/// How many the counts hold under a key.
pub open spec fn total_in(counts: Seq<(Key, u64)>, key: Key) -> nat
    decreases counts.len(),
{
    if counts.len() == 0 {
        0
    } else {
        total_in(counts.drop_last(), key) + if counts.last().0 == key {
            counts.last().1 as nat
        } else {
            0
        }
    }
}

/// No key stands before itself.
pub proof fn lemma_key_lt_irreflexive(a: Key)
    ensures
        !key_lt(a, a),
{
    lemma_text_lt_irreflexive(a.0);
    if let Some(quality) = a.1 {
        lemma_text_lt_irreflexive(quality);
    }
}

/// What stands before a key stands before all that the key stands before.
pub proof fn lemma_key_lt_transitive(a: Key, b: Key, c: Key)
    requires
        key_lt(a, b),
        key_lt(b, c),
    ensures
        key_lt(a, c),
{
    lemma_text_lt_irreflexive(a.0);
    lemma_text_lt_irreflexive(b.0);
    if text_lt(a.0, b.0) && text_lt(b.0, c.0) {
        lemma_text_lt_transitive(a.0, b.0, c.0);
    }
    if a.0 == b.0 && b.0 == c.0 {
        match (a.1, b.1, c.1) {
            (Some(x), Some(y), Some(z)) => {
                lemma_text_lt_transitive(x, y, z);
            },
            _ => {},
        }
    }
}

/// Counts that hold no entry under a key hold nothing under it.
pub proof fn lemma_total_absent(counts: Seq<(Key, u64)>, key: Key)
    requires
        forall|i: int| 0 <= i < counts.len() ==> (#[trigger] counts[i]).0 != key,
    ensures
        total_in(counts, key) == 0,
    decreases counts.len(),
{
    if counts.len() > 0 {
        assert(counts.last() == counts[counts.len() - 1]);
        assert forall|i: int| 0 <= i < counts.drop_last().len() implies (
        #[trigger] counts.drop_last()[i]).0 != key by {
            assert(counts.drop_last()[i] == counts[i]);
        }
        lemma_total_absent(counts.drop_last(), key);
    }
}

/// Counts in order hold under the key of an entry what that entry holds.
pub proof fn lemma_total_at(counts: Seq<(Key, u64)>, at: int)
    requires
        ordered(counts),
        0 <= at < counts.len(),
    ensures
        total_in(counts, counts[at].0) == counts[at].1,
    decreases counts.len(),
{
    let key = counts[at].0;
    let before = counts.drop_last();
    assert(ordered(before)) by {
        assert forall|i: int, j: int| 0 <= i < j < before.len() implies key_lt(
            (#[trigger] before[i]).0,
            (#[trigger] before[j]).0,
        ) by {
            assert(before[i] == counts[i] && before[j] == counts[j]);
        }
    }
    if at == counts.len() - 1 {
        assert forall|i: int| 0 <= i < before.len() implies (#[trigger] before[i]).0 != key by {
            assert(before[i] == counts[i]);
            assert(key_lt(counts[i].0, counts[at].0));
            lemma_key_lt_irreflexive(key);
        }
        lemma_total_absent(before, key);
    } else {
        assert(key_lt(counts[at].0, counts[counts.len() - 1].0));
        lemma_key_lt_irreflexive(key);
        assert(before[at] == counts[at]);
        lemma_total_at(before, at);
    }
}

/// What counts hold under a key after an entry was put in.
pub proof fn lemma_total_insert(counts: Seq<(Key, u64)>, at: int, entry: (Key, u64), key: Key)
    requires
        0 <= at <= counts.len(),
    ensures
        total_in(counts.insert(at, entry), key) == total_in(counts, key) + if entry.0 == key {
            entry.1 as nat
        } else {
            0
        },
    decreases counts.len() - at,
{
    let more = counts.insert(at, entry);
    if at == counts.len() {
        assert(more.drop_last() =~= counts);
    } else {
        assert(more.drop_last() =~= counts.drop_last().insert(at, entry));
        assert(more.last() == counts.last());
        lemma_total_insert(counts.drop_last(), at, entry, key);
    }
}

/// What counts hold under a key after an entry was written anew under its
/// own key.
pub proof fn lemma_total_update(counts: Seq<(Key, u64)>, at: int, amount: u64, key: Key)
    requires
        0 <= at < counts.len(),
    ensures
        total_in(counts.update(at, (counts[at].0, amount)), key) == total_in(counts, key) + if counts[at].0
            == key {
            amount - counts[at].1
        } else {
            0
        },
    decreases counts.len(),
{
    let changed = counts.update(at, (counts[at].0, amount));
    if at == counts.len() - 1 {
        assert(changed.drop_last() =~= counts.drop_last());
    } else {
        assert(changed.drop_last() =~= counts.drop_last().update(at, (counts[at].0, amount)));
        assert(changed.last() == counts.last());
        assert(counts.drop_last()[at] == counts[at]);
        lemma_total_update(counts.drop_last(), at, amount, key);
    }
}

/// How one key stands to another.
pub fn compare_keys(name: &str, quality: &Quality, other_name: &str, other_quality: &Quality) -> (rank:
    Rank)
    ensures
        match rank {
            Rank::Before => key_lt((name@, quality@), (other_name@, other_quality@)),
            Rank::Same => (name@, quality@) == (other_name@, other_quality@),
            Rank::After => key_lt((other_name@, other_quality@), (name@, quality@)),
        },
{
    match compare_text(name, other_name) {
        Rank::Before => Rank::Before,
        Rank::After => Rank::After,
        Rank::Same => match (&quality.0, &other_quality.0) {
            (None, None) => Rank::Same,
            (None, Some(_)) => Rank::Before,
            (Some(_), None) => Rank::After,
            (Some(a), Some(b)) => compare_text(a.as_str(), b.as_str()),
        },
    }
}

/// Adds an amount to what the counts hold under a key; a key that the
/// counts do not hold yet gets its entry in the place where it belongs. Where
/// the sum is too large for 64 bits, nothing is done and the answer is
/// `false`.
pub fn add_count(
    counts: &mut Vec<((String, Quality), u64)>,
    name: String,
    quality: Quality,
    amount: u64,
) -> (fits: bool)
    requires
        ordered(counts_view(old(counts)@)),
    ensures
        fits == (total_in(counts_view(old(counts)@), (name@, quality@)) + amount <= u64::MAX),
        ordered(counts_view(final(counts)@)),
        fits ==> forall|key: Key| #[trigger]
            total_in(counts_view(final(counts)@), key) == total_in(
                counts_view(old(counts)@),
                key,
            ) + if key == (name@, quality@) {
                amount as nat
            } else {
                0
            },
        !fits ==> final(counts)@ == old(counts)@,
        amount > 0 && positive(counts_view(old(counts)@)) ==> positive(
            counts_view(final(counts)@),
        ),
{
    let ghost before = counts_view(counts@);
    let ghost key: Key = (name@, quality@);
    let mut i: usize = 0;
    while i < counts.len()
        invariant
            i <= counts@.len(),
            counts@ == old(counts)@,
            before == counts_view(counts@),
            ordered(before),
            key == (name@, quality@),
            forall|j: int| 0 <= j < i ==> key_lt((#[trigger] before[j]).0, key),
        ensures
            i < counts@.len() ==> key_lt(key, before[i as int].0),
        decreases counts@.len() - i,
    {
        match compare_keys(counts[i].0.0.as_str(), &counts[i].0.1, name.as_str(), &quality) {
            Rank::Before => {},
            Rank::Same => {
                proof {
                    lemma_total_at(before, i as int);
                }
                let sum = match counts[i].1.checked_add(amount) {
                    Some(sum) => sum,
                    None => {
                        return false;
                    },
                };
                counts[i].1 = sum;
                proof {
                    assert(counts_view(counts@) =~= before.update(i as int, (before[i as int].0, sum)));
                    assert forall|k: Key| #[trigger]
                        total_in(counts_view(counts@), k) == total_in(before, k) + if k == key {
                            amount as nat
                        } else {
                            0
                        } by {
                        lemma_total_update(before, i as int, sum, k);
                    }
                    assert(ordered(counts_view(counts@))) by {
                        assert forall|a: int, b: int| 0 <= a < b < counts@.len() implies key_lt(
                            (#[trigger] counts_view(counts@)[a]).0,
                            (#[trigger] counts_view(counts@)[b]).0,
                        ) by {
                            assert(key_lt(before[a].0, before[b].0));
                        }
                    }
                }
                return true;
            },
            Rank::After => {
                break ;
            },
        }
        i += 1;
    }
    proof {
        assert forall|j: int| 0 <= j < before.len() implies (#[trigger] before[j]).0 != key by {
            if j < i {
                lemma_key_lt_irreflexive(key);
            } else {
                assert(key_lt(key, before[i as int].0));
                if j > i {
                    assert(key_lt(before[i as int].0, before[j].0));
                    lemma_key_lt_transitive(key, before[i as int].0, before[j].0);
                }
                lemma_key_lt_irreflexive(key);
            }
        }
        lemma_total_absent(before, key);
    }
    counts.insert(i, ((name, quality), amount));
    proof {
        let after = counts_view(counts@);
        assert(after =~= before.insert(i as int, (key, amount)));
        assert forall|k: Key| #[trigger]
            total_in(after, k) == total_in(before, k) + if k == key {
                amount as nat
            } else {
                0
            } by {
            lemma_total_insert(before, i as int, (key, amount), k);
        }
        assert(ordered(after)) by {
            assert forall|a: int, b: int| 0 <= a < b < after.len() implies key_lt(
                (#[trigger] after[a]).0,
                (#[trigger] after[b]).0,
            ) by {
                if b < i {
                    assert(key_lt(before[a].0, before[b].0));
                } else if b == i {
                    assert(key_lt(before[a].0, key));
                } else if a < i {
                    assert(key_lt(before[a].0, before[b - 1].0));
                } else if a == i {
                    assert(key_lt(key, before[i as int].0));
                    if b - 1 > i {
                        assert(key_lt(before[i as int].0, before[b - 1].0));
                        lemma_key_lt_transitive(key, before[i as int].0, before[b - 1].0);
                    }
                } else {
                    assert(key_lt(before[a - 1].0, before[b - 1].0));
                }
            }
        }
    }
    true
}

/// Counts in order hold under no key more than fits in 64 bits.
pub proof fn lemma_total_fits(counts: Seq<(Key, u64)>, key: Key)
    requires
        ordered(counts),
    ensures
        total_in(counts, key) <= u64::MAX,
{
    if exists|i: int| 0 <= i < counts.len() && (#[trigger] counts[i]).0 == key {
        let at = choose|i: int| 0 <= i < counts.len() && (#[trigger] counts[i]).0 == key;
        lemma_total_at(counts, at);
    } else {
        lemma_total_absent(counts, key);
    }
}

/// More entities never count for less.
pub proof fn lemma_entities_total_grows(entities: Seq<EntityView>, count: int, key: Key)
    requires
        0 <= count <= entities.len(),
    ensures
        entities_total(entities.take(count), key) <= entities_total(entities, key),
    decreases entities.len() - count,
{
    if count < entities.len() {
        assert(entities.take(count + 1).drop_last() =~= entities.take(count));
        lemma_entities_total_grows(entities, count + 1, key);
    } else {
        assert(entities.take(count) =~= entities);
    }
}

/// Under which name an entity is counted, and for how many.
fn count_as(name: String) -> (counted: (String, u64))
    ensures
        counted.0@ == counted_as(EntityView { name: name@, quality: None }).0.0,
        counted.1 == counted_as(EntityView { name: name@, quality: None }).1,
        counted.1 > 0,
{
    if str_eq(name.as_str(), "curved-rail-a") || str_eq(name.as_str(), "curved-rail-b") {
        ("rail".to_owned(), 3)
    } else if str_eq(name.as_str(), "half-diagonal-rail") {
        ("rail".to_owned(), 2)
    } else if str_eq(name.as_str(), "straight-rail") {
        ("rail".to_owned(), 1)
    } else {
        (name, 1)
    }
}

impl Blueprint {
    /// How many of each the blueprint holds: for each name and quality that
    /// occurs the number of entities, keys in their order. `None` where a
    /// number is too large for 64 bits.
    pub fn count(self) -> (counts: Option<Vec<((String, Quality), u64)>>)
        ensures
            counts is Some <==> forall|key: Key| entities_total(self@, key) <= u64::MAX,
            match counts {
                Some(counts) => {
                    &&& ordered(counts_view(counts@))
                    &&& positive(counts_view(counts@))
                    &&& forall|key: Key| #[trigger]
                        total_in(counts_view(counts@), key) == entities_total(self@, key)
                },
                None => true,
            },
    {
        let ghost models = self@;
        let mut result: Vec<((String, Quality), u64)> = Vec::new();
        proof {
            assert(models.take(0) =~= Seq::<EntityView>::empty());
        }
        for entity in it: self.entities
            invariant
                models == entities_view(it.seq()),
                models == self@,
                ordered(counts_view(result@)),
                positive(counts_view(result@)),
                forall|key: Key| #[trigger]
                    total_in(counts_view(result@), key) == entities_total(
                        models.take(it.index() as int),
                        key,
                    ),
        {
            let ghost seen = it.index() as int;
            let ghost model = entity@;
            proof {
                assert(models[seen] == model);
                assert(models.take(seen + 1).drop_last() =~= models.take(seen));
            }
            let (name, amount) = count_as(entity.name);
            let quality = Quality(entity.quality);
            let ghost key: Key = (name@, quality@);
            assert(key == counted_as(model).0 && amount == counted_as(model).1);
            if !add_count(&mut result, name, quality, amount) {
                proof {
                    assert(total_in(counts_view(result@), key) == entities_total(
                        models.take(seen),
                        key,
                    ));
                    lemma_entities_total_grows(models, seen + 1, key);
                    assert(entities_total(models, key) > u64::MAX);
                }
                return None;
            }
        }
        proof {
            assert(models.take(models.len() as int) =~= models);
            assert forall|key: Key| entities_total(self@, key) <= u64::MAX by {
                lemma_total_fits(counts_view(result@), key);
                assert(total_in(counts_view(result@), key) == entities_total(models, key));
            }
        }
        Some(result)
    }
}

/// More entries never count for less.
pub proof fn lemma_tops_total_grows(tops: Seq<TopView>, count: int, key: Key)
    requires
        0 <= count <= tops.len(),
    ensures
        tops_total(tops.take(count), key) <= tops_total(tops, key),
    decreases tops.len() - count,
{
    if count < tops.len() {
        assert(tops.take(count + 1).drop_last() =~= tops.take(count));
        lemma_tops_total_grows(tops, count + 1, key);
    } else {
        assert(tops.take(count) =~= tops);
    }
}

/// More counts never hold less.
pub proof fn lemma_total_in_grows(counts: Seq<(Key, u64)>, count: int, key: Key)
    requires
        0 <= count <= counts.len(),
    ensures
        total_in(counts.take(count), key) <= total_in(counts, key),
    decreases counts.len() - count,
{
    if count < counts.len() {
        assert(counts.take(count + 1).drop_last() =~= counts.take(count));
        lemma_total_in_grows(counts, count + 1, key);
    } else {
        assert(counts.take(count) =~= counts);
    }
}

/// A book stands for the entries that it holds, in their order.
pub proof fn lemma_book_view(top: Top)
    requires
        top.book is Some,
    ensures
        top@.book == Some(tops_view(top.book->0.blueprints@)),
{
    assert(top@.book->0 =~= tops_view(top.book->0.blueprints@));
}

/// Adds counts to counts, key by key. `false` where a sum is too large for
/// 64 bits.
pub fn add_counts(counts: &mut Vec<((String, Quality), u64)>, more: Vec<((String, Quality), u64)>) -> (fits:
    bool)
    requires
        ordered(counts_view(old(counts)@)),
        positive(counts_view(old(counts)@)),
        positive(counts_view(more@)),
    ensures
        fits == forall|key: Key|
            total_in(counts_view(old(counts)@), key) + total_in(counts_view(more@), key)
                <= u64::MAX,
        ordered(counts_view(final(counts)@)),
        positive(counts_view(final(counts)@)),
        fits ==> forall|key: Key| #[trigger]
            total_in(counts_view(final(counts)@), key) == total_in(
                counts_view(old(counts)@),
                key,
            ) + total_in(counts_view(more@), key),
{
    let ghost base = counts_view(counts@);
    let ghost added = counts_view(more@);
    proof {
        assert(added.take(0) =~= Seq::<(Key, u64)>::empty());
    }
    for entry in it: more
        invariant
            added == counts_view(it.seq()),
            base == counts_view(old(counts)@),
            ordered(counts_view(counts@)),
            positive(counts_view(counts@)),
            positive(added),
            forall|key: Key| #[trigger]
                total_in(counts_view(counts@), key) == total_in(base, key) + total_in(
                    added.take(it.index() as int),
                    key,
                ),
    {
        let ghost seen = it.index() as int;
        let ((name, quality), amount) = entry;
        let ghost key: Key = (name@, quality@);
        proof {
            assert(added[seen] == (key, amount));
            assert(added.take(seen + 1).drop_last() =~= added.take(seen));
        }
        if !add_count(counts, name, quality, amount) {
            proof {
                assert(total_in(counts_view(counts@), key) == total_in(base, key) + total_in(
                    added.take(seen),
                    key,
                ));
                lemma_total_in_grows(added, seen + 1, key);
                assert(total_in(base, key) + total_in(added, key) > u64::MAX);
            }
            return false;
        }
    }
    proof {
        assert(added.take(added.len() as int) =~= added);
        assert forall|key: Key|
            total_in(base, key) + total_in(added, key) <= u64::MAX by {
            lemma_total_fits(counts_view(counts@), key);
            assert(total_in(counts_view(counts@), key) == total_in(base, key) + total_in(
                added,
                key,
            ));
        }
    }
    true
}

impl Top {
    /// How many of each the entry holds: what its blueprint holds, and
    /// what each entry of its book holds. `None` where a number is too large
    /// for 64 bits.
    pub fn count(self) -> (counts: Option<Vec<((String, Quality), u64)>>)
        ensures
            counts is Some <==> forall|key: Key| top_total(self@, key) <= u64::MAX,
            match counts {
                Some(counts) => {
                    &&& ordered(counts_view(counts@))
                    &&& positive(counts_view(counts@))
                    &&& forall|key: Key| #[trigger]
                        total_in(counts_view(counts@), key) == top_total(self@, key)
                },
                None => true,
            },
        decreases self,
    {
        let ghost whole = self@;
        proof {
            if self.book is Some {
                lemma_book_view(self);
            }
        }
        let Top { blueprint, book } = self;
        let mut result = match blueprint {
            Some(blueprint) => match blueprint.count() {
                Some(counts) => counts,
                None => {
                    proof {
                        let own = whole.blueprint->0;
                        let key = choose|key: Key| entities_total(own, key) > u64::MAX;
                        assert(top_total(whole, key) > u64::MAX);
                    }
                    return None;
                },
            },
            None => {
                let none: Vec<((String, Quality), u64)> = Vec::new();
                proof {
                    assert forall|key: Key| #[trigger]
                        total_in(counts_view(none@), key) == 0 by {
                        lemma_total_absent(counts_view(none@), key);
                    }
                }
                none
            },
        };
        let blueprints = match book {
            Some(book) => book.blueprints,
            None => {
                proof {
                    assert forall|key: Key| top_total(whole, key) <= u64::MAX by {
                        lemma_total_fits(counts_view(result@), key);
                        assert(total_in(counts_view(result@), key) == top_total(whole, key));
                    }
                }
                return Some(result);
            },
        };
        let ghost tops = tops_view(blueprints@);
        proof {
            assert(tops.take(0) =~= Seq::<TopView>::empty());
        }
        for top in it: blueprints
            invariant
                tops == tops_view(it.seq()),
                whole == self@,
                whole.book == Some(tops),
                self.book is Some,
                self.book->0.blueprints@ == it.seq(),
                ordered(counts_view(result@)),
                positive(counts_view(result@)),
                forall|key: Key| #[trigger]
                    total_in(counts_view(result@), key) == top_total(
                        TopView { blueprint: whole.blueprint, book: None },
                        key,
                    ) + tops_total(tops.take(it.index() as int), key),
        {
            let ghost seen = it.index() as int;
            let ghost model = top@;
            proof {
                assert(tops[seen] == model);
                assert(tops.take(seen + 1).drop_last() =~= tops.take(seen));
            }
            let inner = match top.count() {
                Some(inner) => inner,
                None => {
                    proof {
                        let key = choose|key: Key| top_total(model, key) > u64::MAX;
                        lemma_tops_total_grows(tops, seen + 1, key);
                        assert(top_total(whole, key) > u64::MAX);
                    }
                    return None;
                },
            };
            if !add_counts(&mut result, inner) {
                proof {
                    let key = choose|key: Key|
                        top_total(TopView { blueprint: whole.blueprint, book: None }, key)
                            + tops_total(tops.take(seen), key) + top_total(model, key)
                            > u64::MAX;
                    lemma_tops_total_grows(tops, seen + 1, key);
                    assert(top_total(whole, key) > u64::MAX);
                }
                return None;
            }
        }
        proof {
            assert(tops.take(tops.len() as int) =~= tops);
            assert forall|key: Key| top_total(whole, key) <= u64::MAX by {
                lemma_total_fits(counts_view(result@), key);
                assert(total_in(counts_view(result@), key) == top_total(whole, key));
            }
        }
        Some(result)
    }
}

/// How many of each an entry holds.
pub fn count(top: Top) -> (counts: Option<Vec<((String, Quality), u64)>>)
    ensures
        counts is Some <==> forall|key: Key| top_total(top@, key) <= u64::MAX,
        match counts {
            Some(counts) => {
                &&& ordered(counts_view(counts@))
                &&& positive(counts_view(counts@))
                &&& forall|key: Key| #[trigger]
                    total_in(counts_view(counts@), key) == top_total(top@, key)
            },
            None => true,
        },
{
    top.count()
}

} // verus!
