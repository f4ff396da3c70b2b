//! Raising the qualities that a blueprint asks for by one step: those of
//! filters, conditions, recipes and requests, not those of the entities
//! themselves.

use vstd::prelude::*;
use crate::value::lemma_with_twice;
use crate::text::str_eq;
use crate::value::{items_view, lemma_array_view, owned, Json, JsonView};

verus! {

/// The quality one step above: from `normal` up to `legendary`, which stays.
/// `None` for anything that is no quality.
pub open spec fn next_quality(quality: Seq<char>) -> Option<Seq<char>> {
    if quality == "normal"@ {
        Some("uncommon"@)
    } else if quality == "uncommon"@ {
        Some("rare"@)
    } else if quality == "rare"@ {
        Some("epic"@)
    } else if quality == "epic"@ {
        Some("legendary"@)
    } else if quality == "legendary"@ {
        Some("legendary"@)
    } else {
        None
    }
}

/// The quality one step above.
pub fn next_quality_of(quality: &str) -> (next: Option<&'static str>)
    ensures
        match next {
            Some(name) => next_quality(quality@) == Some(name@),
            None => next_quality(quality@) is None,
        },
{
    if str_eq(quality, "normal") {
        Some("uncommon")
    } else if str_eq(quality, "uncommon") {
        Some("rare")
    } else if str_eq(quality, "rare") {
        Some("epic")
    } else if str_eq(quality, "epic") {
        Some("legendary")
    } else if str_eq(quality, "legendary") {
        Some("legendary")
    } else {
        None
    }
}

/// The parts of a blueprint that an upgrade goes through.
#[derive(Clone, Copy, Debug, PartialEq, Eq)]
pub enum Part {
    /// The name of a quality.
    Name,
    /// Something that may have a `quality`.
    Thing,
    /// A run of things.
    Things,
    /// A condition: its `first_signal` is a thing.
    Condition,
    /// A control behaviour: its `circuit_condition` and its
    /// `logistic_condition` are conditions.
    Control,
    /// A section of requests: its `filters` are things.
    Section,
    /// A run of sections.
    Sections,
    /// The requests of an entity: its `sections` are sections.
    Requests,
    /// An entity.
    Entity,
    /// A run of entities.
    Entities,
    /// A blueprint: it must have `entities`.
    Blueprint,
    /// A document: it must have a `blueprint`.
    Document,
}

impl Part {
    /// How far a part stands above the name of a quality.
    pub open spec fn rank(self) -> nat {
        match self {
            Part::Name => 0,
            Part::Thing => 1,
            Part::Things => 2,
            Part::Condition => 2,
            Part::Control => 3,
            Part::Section => 3,
            Part::Sections => 4,
            Part::Requests => 5,
            Part::Entity => 6,
            Part::Entities => 7,
            Part::Blueprint => 8,
            Part::Document => 9,
        }
    }
}

/// What an upgrade makes of a part; `None` where the part is not made as
/// the upgrade must find it.
pub open spec fn upgraded(part: Part, v: JsonView) -> Option<JsonView>
    decreases part.rank(), 1nat, 0nat,
{
    match part {
        Part::Name => match v {
            JsonView::String(quality) => match next_quality(quality) {
                Some(next) => Some(JsonView::String(next)),
                None => None,
            },
            _ => None,
        },
        Part::Thing => upgraded_under(v, "quality"@, Part::Name),
        Part::Things => upgraded_run(v, Part::Thing),
        Part::Condition => upgraded_under(v, "first_signal"@, Part::Thing),
        Part::Control => match upgraded_under(v, "circuit_condition"@, Part::Condition) {
            Some(once) => upgraded_under(once, "logistic_condition"@, Part::Condition),
            None => None,
        },
        Part::Section => upgraded_under(v, "filters"@, Part::Things),
        Part::Sections => upgraded_run(v, Part::Section),
        Part::Requests => upgraded_under(v, "sections"@, Part::Sections),
        Part::Entity => match upgraded_under(v, "control_behavior"@, Part::Control) {
            Some(a) => match upgraded_under(a, "filter"@, Part::Thing) {
                Some(b) => match upgraded_under(b, "filters"@, Part::Things) {
                    Some(c) => match upgraded_under(c, "recipe_quality"@, Part::Name) {
                        Some(d) => upgraded_under(d, "request_filters"@, Part::Requests),
                        None => None,
                    },
                    None => None,
                },
                None => None,
            },
            None => None,
        },
        Part::Entities => upgraded_run(v, Part::Entity),
        Part::Blueprint => if v.get("entities"@) is Some {
            upgraded_under(v, "entities"@, Part::Entities)
        } else {
            None
        },
        Part::Document => if v.get("blueprint"@) is Some {
            upgraded_under(v, "blueprint"@, Part::Blueprint)
        } else {
            None
        },
    }
}

/// What an upgrade makes of something that may have a part under `key`:
/// without the key it stays as it is.
pub open spec fn upgraded_under(v: JsonView, key: Seq<char>, part: Part) -> Option<JsonView>
    decreases part.rank(), 2nat, 0nat,
{
    match v.get(key) {
        Some(held) => match upgraded(part, held) {
            Some(raised) => Some(v.with(key, raised)),
            None => None,
        },
        None => Some(v),
    }
}

/// What an upgrade makes of an array of parts; `None` for anything but an
/// array.
pub open spec fn upgraded_run(v: JsonView, part: Part) -> Option<JsonView>
    decreases part.rank(), 3nat, 0nat,
{
    match v {
        JsonView::Array(items) => match upgraded_each(items, part, items.len()) {
            Some(raised) => Some(JsonView::Array(raised)),
            None => None,
        },
        _ => None,
    }
}

/// What an upgrade makes of the first `count` parts of a run.
pub open spec fn upgraded_each(items: Seq<JsonView>, part: Part, count: nat) -> Option<Seq<JsonView>>
    decreases part.rank(), 2nat, count,
{
    if count == 0 || count > items.len() {
        Some(Seq::empty())
    } else {
        match (upgraded_each(items, part, (count - 1) as nat), upgraded(part, items[count - 1])) {
            (Some(before), Some(raised)) => Some(before.push(raised)),
            _ => None,
        }
    }
}

/// Upgrades a part.
pub fn apply(part: Part, v: Json) -> (raised: Option<Json>)
    ensures
        owned(raised) == upgraded(part, v@),
    decreases part.rank(), 1nat, 0nat,
{
    match part {
        Part::Name => match v.as_str() {
            Some(quality) => match next_quality_of(quality) {
                Some(next) => Some(Json::String(next.to_owned())),
                None => None,
            },
            None => None,
        },
        Part::Thing => apply_under(v, "quality", Part::Name),
        Part::Things => apply_run(v, Part::Thing),
        Part::Condition => apply_under(v, "first_signal", Part::Thing),
        Part::Control => match apply_under(v, "circuit_condition", Part::Condition) {
            Some(once) => apply_under(once, "logistic_condition", Part::Condition),
            None => None,
        },
        Part::Section => apply_under(v, "filters", Part::Things),
        Part::Sections => apply_run(v, Part::Section),
        Part::Requests => apply_under(v, "sections", Part::Sections),
        Part::Entity => {
            let a = match apply_under(v, "control_behavior", Part::Control) {
                Some(a) => a,
                None => {
                    return None;
                },
            };
            let b = match apply_under(a, "filter", Part::Thing) {
                Some(b) => b,
                None => {
                    return None;
                },
            };
            let c = match apply_under(b, "filters", Part::Things) {
                Some(c) => c,
                None => {
                    return None;
                },
            };
            match apply_under(c, "recipe_quality", Part::Name) {
                Some(d) => apply_under(d, "request_filters", Part::Requests),
                None => None,
            }
        },
        Part::Entities => apply_run(v, Part::Entity),
        Part::Blueprint => if v.get("entities").is_some() {
            apply_under(v, "entities", Part::Entities)
        } else {
            None
        },
        Part::Document => if v.get("blueprint").is_some() {
            apply_under(v, "blueprint", Part::Blueprint)
        } else {
            None
        },
    }
}

/// Upgrades the part that stands under `key`, where there is one.
pub fn apply_under(v: Json, key: &str, part: Part) -> (raised: Option<Json>)
    ensures
        owned(raised) == upgraded_under(v@, key@, part),
    decreases part.rank(), 2nat, 0nat,
{
    let ghost before = v@;
    let mut v = v;
    match v.take(key) {
        Some(held) => match apply(part, held) {
            Some(raised) => {
                proof {
                    lemma_with_twice(before, key@, JsonView::Null, raised@);
                }
                v.insert(key, raised);
                Some(v)
            },
            None => None,
        },
        None => Some(v),
    }
}

/// Upgrades the parts of an array.
pub fn apply_run(v: Json, part: Part) -> (raised: Option<Json>)
    ensures
        owned(raised) == upgraded_run(v@, part),
    decreases part.rank(), 3nat, 0nat,
{
    let items = match v {
        Json::Array(items) => items,
        _ => {
            return None;
        },
    };
    proof {
        lemma_array_view(items);
    }
    let ghost models = items_view(items@);
    let mut raised: Vec<Json> = Vec::new();
    proof {
        assert(items_view(raised@) =~= Seq::<JsonView>::empty());
    }
    for item in it: items
        invariant
            v@ == JsonView::Array(models),
            models == items_view(it.seq()),
            upgraded_each(models, part, it.index() as nat) == Some(items_view(raised@)),
    {
        let ghost before = items_view(raised@);
        assert(item@ == models[it.index() as int]);
        match apply(part, item) {
            Some(one) => {
                raised.push(one);
                proof {
                    assert(items_view(raised@) =~= before.push(one@));
                }
            },
            None => {
                proof {
                    lemma_each_fails(models, part, (it.index() + 1) as nat, models.len());
                }
                return None;
            },
        }
    }
    proof {
        lemma_array_view(raised);
    }
    Some(Json::Array(raised))
}

/// Once the upgrade of a run has failed, more parts change nothing.
pub proof fn lemma_each_fails(items: Seq<JsonView>, part: Part, count: nat, more: nat)
    requires
        count <= more <= items.len(),
        upgraded_each(items, part, count) is None,
    ensures
        upgraded_each(items, part, more) is None,
    decreases more,
{
    if more > count {
        lemma_each_fails(items, part, count, (more - 1) as nat);
    }
}

/// Raises the quality of a thing that has one by one step. `None` where
/// what stands under `quality` is no quality.
pub fn upgrade_quality(thing: Json) -> (raised: Option<Json>)
    ensures
        owned(raised) == upgraded(Part::Thing, thing@),
{
    apply(Part::Thing, thing)
}

/// Raises the quality of the first signal of a condition by one step.
pub fn upgrade_circuit_condition(condition: Json) -> (raised: Option<Json>)
    ensures
        owned(raised) == upgraded(Part::Condition, condition@),
{
    apply(Part::Condition, condition)
}

/// Raises by one step the qualities that the entities of a blueprint ask
/// for: in their conditions, filters, recipes and requests. `None` where
/// the document has no blueprint with entities, or where something that the
/// upgrade must read is not made as it expects.
pub fn upgrade(json: Json) -> (raised: Option<Json>)
    ensures
        owned(raised) == upgraded(Part::Document, json@),
{
    apply(Part::Document, json)
}

} // verus!
