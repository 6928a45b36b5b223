//! The key selector: which keys a key specification names, and the default
//! that comes with each.

use crate::json::{
    clone_value, into_entries, keyed, model, model_of, models, properties, shaped, unpack, Entries,
    Json, JsonMap, JsonShape, JsonValue, Property,
};
use crate::order::{lemma_ascending_distinct, ordered};
use vstd::prelude::*;

verus! {

/// Keys in an order, each with its default where it comes with one.
pub type Selection = Seq<(Seq<char>, Option<Json>)>;

/// Each of `owned` with its key as a character sequence and its default as
/// the JSON value that it holds.
pub open spec fn keyed_defaults(owned: Seq<(String, Option<JsonValue>)>) -> Selection {
    owned.map_values(|e: (String, Option<JsonValue>)| (e.0@, model_of(e.1)))
}

/// One pair without a default for each string among `items`, in their order.
/// What is not a string is passed over.
pub open spec fn string_keys(items: Seq<Json>) -> Selection
    decreases items.len(),
{
    if items.len() == 0 {
        Seq::empty()
    } else {
        let before = string_keys(items.drop_last());
        match items.last() {
            Json::String(key) => before.push((key, None)),
            _ => before,
        }
    }
}

/// One pair for each property, the value as the key's default.
pub open spec fn property_defaults(listed: Entries) -> Selection {
    listed.map_values(|property: Property| (property.0, Some(property.1)))
}

/// The keys that a specification selects: a string names itself, an array the
/// strings in it, an object its keys with their values as defaults, anything
/// else nothing.
pub open spec fn selected(specification: Json) -> Selection {
    match specification {
        Json::String(key) => seq![(key, None)],
        Json::Array(items) => string_keys(items),
        Json::Object(defaults) => property_defaults(ordered(defaults)),
        _ => Seq::empty(),
    }
}

/// No key that comes with a default comes twice.
pub open spec fn defaults_unique(selection: Selection) -> bool {
    forall|i: int, j: int|
        0 <= i < selection.len() && 0 <= j < selection.len() && i != j
            && (#[trigger] selection[i]).1 is Some ==> selection[i].0 != (#[trigger] selection[j]).0
}

/// The strings among `items`.
fn select_strings(items: Vec<JsonValue>) -> (selection: Vec<(String, Option<JsonValue>)>)
    ensures
        keyed_defaults(selection@) == string_keys(models(items@)),
        defaults_unique(keyed_defaults(selection@)),
{
    let ghost all = models(items@);
    let mut selection: Vec<(String, Option<JsonValue>)> = Vec::new();
    assert(keyed_defaults(selection@) =~= string_keys(all.take(0)));
    for item in walk: items.into_iter()
        invariant
            walk.seq() == items@,
            all == models(items@),
            keyed_defaults(selection@) == string_keys(all.take(walk.index())),
            forall|j: int| 0 <= j < selection@.len() ==> (#[trigger] selection@[j]).1 is None,
    {
        let ghost at = walk.index();
        let ghost before = selection@;
        assert(all.take(at + 1).drop_last() =~= all.take(at));
        assert(all.take(at + 1).last() == model(item));
        match unpack(item) {
            JsonShape::String(key) => {
                selection.push((key, None));
                assert(keyed_defaults(selection@) =~= keyed_defaults(before).push((key@, None)));
            },
            _ => {},
        }
    }
    assert(all.take(all.len() as int) =~= all);
    selection
}

/// The properties of `defaults`, each value as its key's default.
fn select_properties(defaults: JsonMap) -> (selection: Vec<(String, Option<JsonValue>)>)
    ensures
        keyed_defaults(selection@) == property_defaults(ordered(properties(defaults))),
        defaults_unique(keyed_defaults(selection@)),
{
    let owned = into_entries(defaults);
    let ghost all = owned@;
    proof {
        lemma_ascending_distinct(keyed(all));
    }
    let mut selection: Vec<(String, Option<JsonValue>)> = Vec::new();
    for entry in walk: owned.into_iter()
        invariant
            walk.seq() == all,
            selection@.len() == walk.index(),
            forall|j: int|
                0 <= j < selection@.len() ==> (#[trigger] selection@[j]) == (
                    all[j].0,
                    Some(all[j].1),
                ),
    {
        let (key, value) = entry;
        selection.push((key, Some(value)));
    }
    assert(keyed_defaults(selection@) =~= property_defaults(keyed(all)));
    selection
}

/// The keys that a specification with the top level `specification` selects,
/// each with its default.
pub fn select_keys(specification: JsonShape) -> (selection: Vec<(String, Option<JsonValue>)>)
    ensures
        forall|value: Json| #[trigger]
            shaped(specification, value) ==> keyed_defaults(selection@) == selected(value),
        defaults_unique(keyed_defaults(selection@)),
{
    match specification {
        JsonShape::String(key) => {
            let selection = vec![(key, None)];
            assert(keyed_defaults(selection@) =~= seq![(key@, None)]);
            selection
        },
        JsonShape::Array(items) => select_strings(items),
        JsonShape::Object(defaults) => select_properties(defaults),
        _ => {
            let selection: Vec<(String, Option<JsonValue>)> = Vec::new();
            assert(keyed_defaults(selection@) =~= Selection::empty());
            selection
        },
    }
}

/// The keys that the specification `keys` selects, each with its default.
pub fn get_keys(keys: &JsonValue) -> (selection: Vec<(String, Option<JsonValue>)>)
    ensures
        keyed_defaults(selection@) == selected(model(*keys)),
        defaults_unique(keyed_defaults(selection@)),
{
    select_keys(unpack(clone_value(keys)))
}

} // verus!
