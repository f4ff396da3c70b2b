//! The document tree: null, booleans, numbers, strings, arrays, and objects
//! that keep their keys in the order in which they were written.

use vstd::prelude::*;
use crate::text::{decimal, push_decimal, str_eq};

verus! {

/// A number of a document. An integer is held exactly; any other number is
/// held by its decimal notation.
#[derive(Debug, PartialEq, Eq)]
pub enum Number {
    PosInt(u64),
    NegInt(i64),
    Float(String),
}

/// A document, or a part of one.
#[derive(Debug, PartialEq, Eq)]
pub enum Json {
    Null,
    Bool(bool),
    Number(Number),
    String(String),
    Array(Vec<Json>),
    Object(Vec<(String, Json)>),
}

/// What a `Number` stands for.
pub enum NumberView {
    PosInt(u64),
    NegInt(i64),
    Float(Seq<char>),
}

/// What a `Json` stands for.
pub enum JsonView {
    Null,
    Bool(bool),
    Number(NumberView),
    String(Seq<char>),
    Array(Seq<JsonView>),
    Object(Seq<(Seq<char>, JsonView)>),
}

impl View for Number {
    type V = NumberView;

    open spec fn view(&self) -> NumberView {
        match self {
            Number::PosInt(n) => NumberView::PosInt(*n),
            Number::NegInt(n) => NumberView::NegInt(*n),
            Number::Float(text) => NumberView::Float(text@),
        }
    }
}

/// The document that a value stands for.
pub open spec fn json_of(value: Json) -> JsonView
    decreases value,
{
    match value {
        Json::Null => JsonView::Null,
        Json::Bool(b) => JsonView::Bool(b),
        Json::Number(n) => JsonView::Number(n@),
        Json::String(s) => JsonView::String(s@),
        Json::Array(items) => JsonView::Array(
            Seq::new(
                items@.len(),
                |i: int|
                    if 0 <= i < items@.len() {
                        json_of(items@[i])
                    } else {
                        JsonView::Null
                    },
            ),
        ),
        Json::Object(entries) => JsonView::Object(
            Seq::new(
                entries@.len(),
                |i: int|
                    if 0 <= i < entries@.len() {
                        (entries@[i].0@, json_of(entries@[i].1))
                    } else {
                        (Seq::empty(), JsonView::Null)
                    },
            ),
        ),
    }
}

impl View for Json {
    type V = JsonView;

    open spec fn view(&self) -> JsonView {
        json_of(*self)
    }
}

/// The documents that a run of values stands for.
pub open spec fn items_view(items: Seq<Json>) -> Seq<JsonView> {
    items.map_values(|item: Json| item@)
}

/// The keys and documents that a run of entries stands for.
pub open spec fn entries_view(entries: Seq<(String, Json)>) -> Seq<(Seq<char>, JsonView)> {
    entries.map_values(|entry: (String, Json)| (entry.0@, entry.1@))
}

/// The document that a borrowed value stands for, where there is one.
pub open spec fn held(found: Option<&Json>) -> Option<JsonView> {
    match found {
        Some(value) => Some(value@),
        None => None,
    }
}

/// The document that a value stands for, where there is one.
pub open spec fn owned(found: Option<Json>) -> Option<JsonView> {
    match found {
        Some(value) => Some(value@),
        None => None,
    }
}

/// The place of the first entry under `key` at or after `from`.
pub open spec fn key_index_from(entries: Seq<(Seq<char>, JsonView)>, key: Seq<char>, from: int) -> Option<
    int,
>
    decreases entries.len() - from,
{
    if from < 0 || from >= entries.len() {
        None
    } else if entries[from].0 == key {
        Some(from)
    } else {
        key_index_from(entries, key, from + 1)
    }
}

/// The place of the first entry under `key`.
pub open spec fn key_index(entries: Seq<(Seq<char>, JsonView)>, key: Seq<char>) -> Option<int> {
    key_index_from(entries, key, 0)
}

impl NumberView {
    /// The number as an unsigned integer, where it is held as one.
    pub open spec fn as_u64(self) -> Option<u64> {
        match self {
            NumberView::PosInt(n) => Some(n),
            _ => None,
        }
    }

    /// The number as it is written.
    pub open spec fn text(self) -> Seq<char> {
        match self {
            NumberView::PosInt(n) => decimal(n as nat),
            NumberView::NegInt(n) => if n < 0 {
                seq!['-'] + decimal((-n) as nat)
            } else {
                decimal(n as nat)
            },
            NumberView::Float(text) => text,
        }
    }
}

impl JsonView {
    /// The document under `key`, where this is an object that has the key.
    pub open spec fn get(self, key: Seq<char>) -> Option<JsonView> {
        match self {
            JsonView::Object(entries) => match key_index(entries, key) {
                Some(i) => Some(entries[i].1),
                None => None,
            },
            _ => None,
        }
    }

    /// This object with `value` under `key`: in the place of the first entry
    /// under that key, or behind all entries where there is none. Anything
    /// but an object stays as it is.
    pub open spec fn with(self, key: Seq<char>, value: JsonView) -> JsonView {
        match self {
            JsonView::Object(entries) => match key_index(entries, key) {
                Some(i) => JsonView::Object(entries.update(i, (key, value))),
                None => JsonView::Object(entries.push((key, value))),
            },
            _ => self,
        }
    }

    /// The text, where this is a string.
    pub open spec fn as_str(self) -> Option<Seq<char>> {
        match self {
            JsonView::String(s) => Some(s),
            _ => None,
        }
    }

    /// The items, where this is an array.
    pub open spec fn as_array(self) -> Option<Seq<JsonView>> {
        match self {
            JsonView::Array(items) => Some(items),
            _ => None,
        }
    }

    /// The number, where this is one.
    pub open spec fn as_number(self) -> Option<NumberView> {
        match self {
            JsonView::Number(n) => Some(n),
            _ => None,
        }
    }

    /// The text under `key`, where there is one.
    pub open spec fn text_at(self, key: Seq<char>) -> Option<Seq<char>> {
        match self.get(key) {
            Some(v) => v.as_str(),
            None => None,
        }
    }
}

/// Whether no key occurs twice.
pub open spec fn distinct_keys(entries: Seq<(Seq<char>, JsonView)>) -> bool {
    forall|i: int, j: int|
        0 <= i < j < entries.len() ==> (#[trigger] entries[i]).0 != (#[trigger] entries[j]).0
}

/// Whether a document is well formed: no object in it has a key twice.
pub open spec fn well_formed(v: JsonView) -> bool
    decreases v,
{
    match v {
        JsonView::Array(items) => forall|i: int|
            0 <= i < items.len() ==> well_formed(#[trigger] items[i]),
        JsonView::Object(entries) => distinct_keys(entries) && forall|i: int|
            0 <= i < entries.len() ==> well_formed((#[trigger] entries[i]).1),
        _ => true,
    }
}

/// A well-formed document stays well formed when something well formed is
/// put into it under a key, and what stands under a key of it is well
/// formed.
pub proof fn lemma_with_well_formed(v: JsonView, key: Seq<char>, value: JsonView)
    requires
        well_formed(v),
    ensures
        well_formed(value) ==> well_formed(v.with(key, value)),
        v.get(key) is Some ==> well_formed(v.get(key)->0),
{
    if let JsonView::Object(entries) = v {
        lemma_key_index(entries, key, 0);
        match key_index(entries, key) {
            Some(at) => {
                assert(well_formed(entries[at].1));
                if well_formed(value) {
                    let changed = entries.update(at, (key, value));
                    assert(distinct_keys(changed)) by {
                        assert forall|i: int, j: int| 0 <= i < j < changed.len() implies (
                        #[trigger] changed[i]).0 != (#[trigger] changed[j]).0 by {
                            assert(entries[i].0 != entries[j].0);
                        }
                    }
                    assert forall|i: int| 0 <= i < changed.len() implies well_formed(
                        (#[trigger] changed[i]).1,
                    ) by {
                        if i != at {
                            assert(well_formed(entries[i].1));
                        }
                    }
                }
            },
            None => {
                if well_formed(value) {
                    let more = entries.push((key, value));
                    assert(distinct_keys(more)) by {
                        assert forall|i: int, j: int| 0 <= i < j < more.len() implies (
                        #[trigger] more[i]).0 != (#[trigger] more[j]).0 by {
                            if j < entries.len() {
                                assert(entries[i].0 != entries[j].0);
                            } else {
                                assert(entries[i].0 != key);
                            }
                        }
                    }
                    assert forall|i: int| 0 <= i < more.len() implies well_formed(
                        (#[trigger] more[i]).1,
                    ) by {
                        if i < entries.len() {
                            assert(well_formed(entries[i].1));
                        }
                    }
                }
            },
        }
    }
}

/// How deep a document is: a document without parts has depth zero, any
/// other is one deeper than its deepest part.
pub open spec fn depth(v: JsonView) -> nat
    decreases v,
{
    match v {
        JsonView::Array(items) => 1 + items_depth(items),
        JsonView::Object(entries) => 1 + entries_depth(entries),
        _ => 0,
    }
}

/// The depth of the deepest of the items.
pub open spec fn items_depth(items: Seq<JsonView>) -> nat
    decreases items,
{
    if items.len() == 0 {
        0
    } else {
        let before = items_depth(items.drop_last());
        let last = depth(items.last());
        if last > before {
            last
        } else {
            before
        }
    }
}

/// The depth of the deepest of the documents under the keys.
pub open spec fn entries_depth(entries: Seq<(Seq<char>, JsonView)>) -> nat
    decreases entries,
{
    if entries.len() == 0 {
        0
    } else {
        let before = entries_depth(entries.drop_last());
        let last = depth(entries.last().1);
        if last > before {
            last
        } else {
            before
        }
    }
}

/// No item is deeper than the deepest.
pub proof fn lemma_items_depth(items: Seq<JsonView>, i: int)
    requires
        0 <= i < items.len(),
    ensures
        depth(items[i]) <= items_depth(items),
    decreases items.len(),
{
    if i < items.len() - 1 {
        lemma_items_depth(items.drop_last(), i);
    }
}

/// No document under a key is deeper than the deepest.
pub proof fn lemma_entries_depth(entries: Seq<(Seq<char>, JsonView)>, i: int)
    requires
        0 <= i < entries.len(),
    ensures
        depth(entries[i].1) <= entries_depth(entries),
    decreases entries.len(),
{
    if i < entries.len() - 1 {
        lemma_entries_depth(entries.drop_last(), i);
    }
}

/// What stands under a key is less deep than the object.
pub proof fn lemma_get_depth(v: JsonView, key: Seq<char>)
    requires
        v.get(key) is Some,
    ensures
        depth(v.get(key)->0) < depth(v),
{
    let entries = v->Object_0;
    lemma_key_index(entries, key, 0);
    lemma_entries_depth(entries, key_index(entries, key)->0);
}

/// An array stands for the documents of its items, in their order.
pub proof fn lemma_array_view(items: Vec<Json>)
    ensures
        Json::Array(items)@ == JsonView::Array(items_view(items@)),
{
    assert(Json::Array(items)@->Array_0 =~= items_view(items@));
}

/// An object stands for its keys and the documents under them, in their
/// order.
pub proof fn lemma_object_view(entries: Vec<(String, Json)>)
    ensures
        Json::Object(entries)@ == JsonView::Object(entries_view(entries@)),
{
    assert(Json::Object(entries)@->Object_0 =~= entries_view(entries@));
}

/// The key lookup finds the first entry under the key, and none before it.
pub proof fn lemma_key_index(entries: Seq<(Seq<char>, JsonView)>, key: Seq<char>, from: int)
    requires
        0 <= from,
    ensures
        match key_index_from(entries, key, from) {
            Some(i) => from <= i < entries.len() && entries[i].0 == key && forall|j: int|
                from <= j < i ==> entries[j].0 != key,
            None => forall|j: int| from <= j < entries.len() ==> entries[j].0 != key,
        },
    decreases entries.len() - from,
{
    if from < entries.len() && entries[from].0 != key {
        lemma_key_index(entries, key, from + 1);
    }
}

/// Putting a value under a key twice keeps the second value only.
pub proof fn lemma_with_twice(v: JsonView, key: Seq<char>, first: JsonView, second: JsonView)
    requires
        v.get(key) is Some,
    ensures
        v.with(key, first).with(key, second) == v.with(key, second),
        v.with(key, first).get(key) == Some(first),
{
    let entries = v->Object_0;
    lemma_key_index(entries, key, 0);
    let i = key_index(entries, key)->0;
    let once = entries.update(i, (key, first));
    lemma_key_index(once, key, 0);
    assert(once[i].0 == key);
    match key_index(once, key) {
        Some(j) => {
            if j < i {
                assert(once[j] == entries[j]);
            }
        },
        None => {},
    }
    assert(once.update(i, (key, second)) =~= entries.update(i, (key, second)));
}

/// Putting under a key what stands there already changes nothing.
pub proof fn lemma_with_same(v: JsonView, key: Seq<char>)
    requires
        v.get(key) is Some,
    ensures
        v.with(key, v.get(key)->0) == v,
{
    let entries = v->Object_0;
    lemma_key_index(entries, key, 0);
    let i = key_index(entries, key)->0;
    assert(entries.update(i, (key, entries[i].1)) =~= entries);
}

impl Number {
    /// A copy of the number.
    pub fn duplicate(&self) -> (copy: Number)
        ensures
            copy@ == self@,
    {
        match self {
            Number::PosInt(n) => Number::PosInt(*n),
            Number::NegInt(n) => Number::NegInt(*n),
            Number::Float(text) => Number::Float(text.clone()),
        }
    }

    /// The number as an unsigned integer, where it is held as one.
    pub fn as_u64(&self) -> (n: Option<u64>)
        ensures
            n == self@.as_u64(),
    {
        match self {
            Number::PosInt(n) => Some(*n),
            _ => None,
        }
    }

    /// Appends the number, as it is written, to `out`.
    pub fn write_to(&self, out: &mut Vec<char>)
        ensures
            final(out)@ == old(out)@ + self@.text(),
    {
        match self {
            Number::PosInt(n) => {
                push_decimal(out, *n);
            },
            Number::NegInt(n) => {
                if *n < 0 {
                    out.push('-');
                    let below: u64 = (-(*n + 1)) as u64;
                    push_decimal(out, below + 1);
                    proof {
                        assert(final(out)@ =~= old(out)@ + (seq!['-'] + decimal((-*n) as nat)));
                    }
                } else {
                    push_decimal(out, *n as u64);
                }
            },
            Number::Float(text) => {
                let chars = crate::text::chars_of(text.as_str());
                let mut i: usize = 0;
                while i < chars.len()
                    invariant
                        i <= chars@.len(),
                        out@ == old(out)@ + chars@.take(i as int),
                    decreases chars@.len() - i,
                {
                    out.push(chars[i]);
                    proof {
                        assert(chars@.take(i + 1) =~= chars@.take(i as int).push(chars@[i as int]));
                    }
                    i += 1;
                }
                proof {
                    assert(chars@.take(i as int) =~= chars@);
                }
            },
        }
    }
}

/// The place of the first entry under `key`.
pub fn position(entries: &Vec<(String, Json)>, key: &str) -> (place: Option<usize>)
    ensures
        match place {
            Some(i) => key_index(entries_view(entries@), key@) == Some(i as int) && i
                < entries@.len(),
            None => key_index(entries_view(entries@), key@) is None,
        },
{
    let mut i: usize = 0;
    while i < entries.len()
        invariant
            i <= entries@.len(),
            key_index(entries_view(entries@), key@) == key_index_from(
                entries_view(entries@),
                key@,
                i as int,
            ),
        decreases entries@.len() - i,
    {
        if str_eq(entries[i].0.as_str(), key) {
            return Some(i);
        }
        i += 1;
    }
    None
}

impl Json {
    /// A copy of the value.
    pub fn duplicate(&self) -> (copy: Json)
        ensures
            copy@ == self@,
        decreases depth(self@),
    {
        match self {
            Json::Null => Json::Null,
            Json::Bool(b) => Json::Bool(*b),
            Json::Number(n) => Json::Number(n.duplicate()),
            Json::String(s) => Json::String(s.clone()),
            Json::Array(items) => {
                let mut copies: Vec<Json> = Vec::new();
                let mut i: usize = 0;
                while i < items.len()
                    invariant
                        i <= items@.len(),
                        *self == Json::Array(*items),
                        copies@.len() == i,
                        forall|j: int| 0 <= j < i ==> (#[trigger] copies@[j])@ == items@[j]@,
                    decreases items@.len() - i,
                {
                    proof {
                        lemma_array_view(*items);
                        lemma_items_depth(items_view(items@), i as int);
                    }
                    copies.push(items[i].duplicate());
                    i += 1;
                }
                proof {
                    lemma_array_view(*items);
                    lemma_array_view(copies);
                    assert(items_view(copies@) =~= items_view(items@));
                }
                Json::Array(copies)
            },
            Json::Object(entries) => {
                let mut copies: Vec<(String, Json)> = Vec::new();
                let mut i: usize = 0;
                while i < entries.len()
                    invariant
                        i <= entries@.len(),
                        *self == Json::Object(*entries),
                        copies@.len() == i,
                        forall|j: int|
                            0 <= j < i ==> (#[trigger] copies@[j]).0@ == entries@[j].0@
                                && copies@[j].1@ == entries@[j].1@,
                    decreases entries@.len() - i,
                {
                    proof {
                        lemma_object_view(*entries);
                        lemma_entries_depth(entries_view(entries@), i as int);
                    }
                    copies.push((entries[i].0.clone(), entries[i].1.duplicate()));
                    i += 1;
                }
                proof {
                    lemma_object_view(*entries);
                    lemma_object_view(copies);
                    assert(entries_view(copies@) =~= entries_view(entries@));
                }
                Json::Object(copies)
            },
        }
    }

    /// Whether the value is well formed: no object in it has a key twice.
    pub fn is_well_formed(&self) -> (fine: bool)
        ensures
            fine == well_formed(self@),
        decreases depth(self@),
    {
        match self {
            Json::Array(items) => {
                proof {
                    lemma_array_view(*items);
                }
                let mut i: usize = 0;
                while i < items.len()
                    invariant
                        i <= items@.len(),
                        self@ == JsonView::Array(items_view(items@)),
                        forall|j: int| 0 <= j < i ==> well_formed(#[trigger] items_view(items@)[j]),
                    decreases items@.len() - i,
                {
                    proof {
                        lemma_items_depth(items_view(items@), i as int);
                    }
                    if !items[i].is_well_formed() {
                        assert(!well_formed(items_view(items@)[i as int]));
                        return false;
                    }
                    i += 1;
                }
                true
            },
            Json::Object(entries) => {
                proof {
                    lemma_object_view(*entries);
                }
                let mut i: usize = 0;
                while i < entries.len()
                    invariant
                        i <= entries@.len(),
                        self@ == JsonView::Object(entries_view(entries@)),
                        forall|j: int|
                            0 <= j < i ==> well_formed((#[trigger] entries_view(entries@)[j]).1),
                        forall|a: int, b: int|
                            0 <= a < b < entries@.len() && a < i ==> (#[trigger] entries_view(
                                entries@,
                            )[a]).0 != (#[trigger] entries_view(entries@)[b]).0,
                    decreases entries@.len() - i,
                {
                    proof {
                        lemma_entries_depth(entries_view(entries@), i as int);
                    }
                    if !entries[i].1.is_well_formed() {
                        assert(!well_formed(entries_view(entries@)[i as int].1));
                        return false;
                    }
                    let mut j: usize = i + 1;
                    while j < entries.len()
                        invariant
                            i < j <= entries@.len(),
                            self@ == JsonView::Object(entries_view(entries@)),
                            forall|b: int|
                                i < b < j ==> entries_view(entries@)[i as int].0 != (
                                #[trigger] entries_view(entries@)[b]).0,
                        decreases entries@.len() - j,
                    {
                        if str_eq(entries[i].0.as_str(), entries[j].0.as_str()) {
                            assert(entries_view(entries@)[i as int].0 == entries_view(
                                entries@,
                            )[j as int].0);
                            return false;
                        }
                        j += 1;
                    }
                    i += 1;
                }
                true
            },
            _ => true,
        }
    }

    /// The value under `key`, where this is an object that has the key.
    pub fn get(&self, key: &str) -> (found: Option<&Json>)
        ensures
            held(found) == self@.get(key@),
    {
        match self {
            Json::Object(entries) => {
                proof {
                    lemma_object_view(*entries);
                }
                match position(entries, key) {
                    Some(i) => Some(&entries[i].1),
                    None => None,
                }
            },
            _ => None,
        }
    }

    /// Puts `value` under `key`: in the place of the first entry under that
    /// key, or behind all entries where there is none. Returns what stood
    /// under the key before. Anything but an object stays as it is, and the
    /// value is dropped.
    pub fn insert(&mut self, key: &str, value: Json) -> (previous: Option<Json>)
        ensures
            final(self)@ == old(self)@.with(key@, value@),
            owned(previous) == old(self)@.get(key@),
            well_formed(old(self)@) && well_formed(value@) ==> well_formed(final(self)@),
    {
        proof {
            if well_formed(self@) {
                lemma_with_well_formed(self@, key@, value@);
            }
        }
        match self {
            Json::Object(entries) => {
                proof {
                    lemma_object_view(*entries);
                    lemma_key_index(entries_view(entries@), key@, 0);
                }
                let ghost before = entries_view(entries@);
                match position(entries, key) {
                    Some(i) => {
                        let mut taken = value;
                        std::mem::swap(&mut taken, &mut entries[i].1);
                        proof {
                            lemma_object_view(*entries);
                            assert(entries_view(entries@) =~= before.update(
                                i as int,
                                (key@, value@),
                            ));
                        }
                        Some(taken)
                    },
                    None => {
                        entries.push((key.to_owned(), value));
                        proof {
                            lemma_object_view(*entries);
                            assert(entries_view(entries@) =~= before.push((key@, value@)));
                        }
                        None
                    },
                }
            },
            _ => None,
        }
    }

    /// Takes out what stands under `key`, and leaves `null` in its place.
    /// Without the key, all stays as it is.
    pub fn take(&mut self, key: &str) -> (taken: Option<Json>)
        ensures
            owned(taken) == old(self)@.get(key@),
            final(self)@ == if taken is Some {
                old(self)@.with(key@, JsonView::Null)
            } else {
                old(self)@
            },
            well_formed(old(self)@) ==> well_formed(final(self)@),
    {
        if self.get(key).is_none() {
            return None;
        }
        self.insert(key, Json::Null)
    }

    /// The text, where this is a string.
    pub fn as_str(&self) -> (text: Option<&str>)
        ensures
            match text {
                Some(s) => self@.as_str() == Some(s@),
                None => self@.as_str() is None,
            },
    {
        match self {
            Json::String(s) => Some(s.as_str()),
            _ => None,
        }
    }

    /// The items, where this is an array.
    pub fn as_array(&self) -> (items: Option<&Vec<Json>>)
        ensures
            match items {
                Some(a) => self@.as_array() == Some(items_view(a@)),
                None => self@.as_array() is None,
            },
    {
        match self {
            Json::Array(items) => {
                proof {
                    lemma_array_view(*items);
                }
                Some(items)
            },
            _ => None,
        }
    }

    /// The number, where this is one.
    pub fn as_number(&self) -> (number: Option<&Number>)
        ensures
            match number {
                Some(n) => self@.as_number() == Some(n@),
                None => self@.as_number() is None,
            },
    {
        match self {
            Json::Number(n) => Some(n),
            _ => None,
        }
    }
}

/// A document as `serde_json` holds it.
#[verifier::external_type_specification]
#[verifier::external_body]
pub struct ExDocument(serde_json::Value);

/// The document that `serde_json::from_str` reads from a text, or `None`
/// where it reports an error.
pub uninterp spec fn json_parsed(text: Seq<char>) -> Option<JsonView>;

/// The document that a `serde_json::Value` holds: its variants one for one,
/// the entries of an object in the order in which its map hands them out, an
/// integer as `as_u64` or `as_i64` gives it, any other number as its
/// `Display` writes it.
pub uninterp spec fn document_of(held: serde_json::Value) -> JsonView;

/// `serde_json::from_str`, asked for a `serde_json::Value`. An error becomes
/// `None`.
#[verifier::external_body]
fn read_document(text: &str) -> (read: Option<serde_json::Value>)
    ensures
        match read {
            Some(held) => json_parsed(text@) == Some(document_of(held)),
            None => json_parsed(text@) is None,
        },
{
    serde_json::from_str::<serde_json::Value>(text).ok()
}

/// Moves what a `serde_json::Value` holds into a `Json`, variant by
/// variant. The map of an object has each key once, so what comes out is
/// well formed.
#[verifier::external_body]
fn from_document(held: serde_json::Value) -> (value: Json)
    ensures
        value@ == document_of(held),
        well_formed(value@),
{
    match held {
        serde_json::Value::Null => Json::Null,
        serde_json::Value::Bool(b) => Json::Bool(b),
        serde_json::Value::Number(n) => Json::Number(match (n.as_u64(), n.as_i64()) {
            (Some(u), _) => Number::PosInt(u),
            (None, Some(i)) => Number::NegInt(i),
            (None, None) => Number::Float(n.to_string()),
        }),
        serde_json::Value::String(s) => Json::String(s),
        serde_json::Value::Array(a) => Json::Array(a.into_iter().map(from_document).collect()),
        serde_json::Value::Object(o) => Json::Object(
            o.into_iter().map(|(k, v)| (k, from_document(v))).collect(),
        ),
    }
}

/// Reads a document from its text. `None` where the text is no document.
pub fn parse_json(text: &str) -> (value: Option<Json>)
    ensures
        owned(value) == json_parsed(text@),
        value is Some ==> well_formed(value->0@),
{
    match read_document(text) {
        Some(held) => Some(from_document(held)),
        None => None,
    }
}

} // verus!
