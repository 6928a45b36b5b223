//! What holds of the storage operations whatever the store and the values:
//! each statement here is proved from the operations' own contracts.

use crate::api::{
    base_properties, chosen, clear_outcome, get_outcome, lemma_selects_last, loaded,
    remove_outcome, removing, selects, set_outcome, written, Removal, Written,
};
use crate::changes::{
    keys_distinct, lemma_position, lemma_recorded_distinct, Change, ChangeList, KeyChange,
};
use crate::json::{json_text, parsed, Entries, Json, Properties, Property};
use crate::keys::{selected, Selection};
use crate::order::{lemma_list_ordered, lists, ordered};
use crate::quota::{
    item_bytes, merge, merge_one, utf8_len, Merge, QuotaReason, MAX_ITEMS, QUOTA_BYTES,
    QUOTA_BYTES_PER_ITEM,
};
use crate::store::Records;
use vstd::prelude::*;

verus! {

/// For an extension without a record, `get` returns an object without
/// properties, whatever the key specification.
pub proof fn law_get_without_record(records: Records, guid: Seq<char>, specification: Json)
    requires
        !records.contains_key(guid),
    ensures
        get_outcome(loaded(records, guid), specification) == Properties::empty(),
{
}

/// No mutation of one extension's storage area touches the record of
/// another.
pub proof fn law_other_records_kept(
    records: Records,
    guid: Seq<char>,
    value: Json,
    other: Seq<char>,
)
    requires
        other != guid,
    ensures
        set_outcome(records, guid, value) matches Ok(after) ==> after.records.contains_key(other)
            == records.contains_key(other) && after.records[other] == records[other],
        remove_outcome(records, guid, value) matches Ok(after) ==> after.records.contains_key(
            other,
        ) == records.contains_key(other) && after.records[other] == records[other],
        clear_outcome(records, guid).records.contains_key(other) == records.contains_key(other),
        clear_outcome(records, guid).records[other] == records[other],
{
}

/// The properties of an object with one property.
pub open spec fn single(key: Seq<char>, value: Json) -> Properties {
    Properties::empty().insert(key, value)
}

/// An object with one property hands out that property and no other.
pub proof fn lemma_single_ordered(key: Seq<char>, value: Json)
    ensures
        ordered(single(key, value)) == seq![(key, value)],
{
    let es = seq![(key, value)];
    assert(lists(es, single(key, value))) by {
        assert(es[0].0 == key);
    }
    lemma_list_ordered(es, single(key, value));
}

/// `base` with each of `incoming` put in, one after the other.
pub open spec fn overlaid(base: Properties, incoming: Entries) -> Properties
    decreases incoming.len(),
{
    if incoming.len() == 0 {
        base
    } else {
        overlaid(base, incoming.drop_last()).insert(incoming.last().0, incoming.last().1)
    }
}

/// The change that reports a property as set over `base`.
pub open spec fn set_over(base: Properties, property: Property) -> KeyChange {
    (
        property.0,
        Change { old_value: base.get(property.0), new_value: Some(property.1) },
    )
}

/// One change for each of `incoming`, from what `base` holds under its key to
/// its value.
pub open spec fn reported(base: Properties, incoming: Entries) -> ChangeList {
    incoming.map_values(|property: Property| set_over(base, property))
}

/// No key comes twice in `incoming`.
pub open spec fn properties_distinct(incoming: Entries) -> bool {
    forall|i: int, j: int|
        0 <= i < j < incoming.len() ==> (#[trigger] incoming[i]).0 != (#[trigger] incoming[j]).0
}

/// A merge that is not refused leaves the base with every incoming property
/// put in, and nothing else changed.
pub proof fn law_merge_overlays(base: Properties, incoming: Entries)
    requires
        merge(base, incoming) is Ok,
    ensures
        merge(base, incoming)->Ok_0.working == overlaid(base, incoming),
    decreases incoming.len(),
{
    if incoming.len() > 0 {
        law_merge_overlays(base, incoming.drop_last());
    }
}

/// What `base` with `incoming` put in holds under a key that is not among
/// them.
proof fn lemma_overlaid_elsewhere(base: Properties, incoming: Entries, key: Seq<char>)
    requires
        forall|i: int| 0 <= i < incoming.len() ==> (#[trigger] incoming[i]).0 != key,
    ensures
        overlaid(base, incoming).get(key) == base.get(key),
    decreases incoming.len(),
{
    if incoming.len() > 0 {
        let before = incoming.drop_last();
        assert forall|i: int| 0 <= i < before.len() implies (#[trigger] before[i]).0 != key by {
            assert(before[i] == incoming[i]);
        }
        lemma_overlaid_elsewhere(base, before, key);
        assert(incoming[incoming.len() - 1].0 != key);
    }
}

/// Where no key is set twice, a merge that is not refused reports one change
/// for each incoming property, in their order: from what the key held before
/// the call, or nothing, to the new value. Nothing else is reported.
pub proof fn law_merge_reports(base: Properties, incoming: Entries)
    requires
        properties_distinct(incoming),
        merge(base, incoming) is Ok,
    ensures
        merge(base, incoming)->Ok_0.changes == reported(base, incoming),
    decreases incoming.len(),
{
    if incoming.len() > 0 {
        let before = incoming.drop_last();
        let last = incoming.last();
        assert(properties_distinct(before)) by {
            assert forall|i: int, j: int| 0 <= i < j < before.len() implies (#[trigger] before[i]).0
                != (#[trigger] before[j]).0 by {
                assert(before[i] == incoming[i]);
                assert(before[j] == incoming[j]);
            }
        }
        law_merge_reports(base, before);
        law_merge_overlays(base, before);
        let state = merge(base, before)->Ok_0;
        assert forall|i: int| 0 <= i < before.len() implies (#[trigger] before[i]).0 != last.0 by {
            assert(before[i] == incoming[i]);
            assert(incoming[i].0 != incoming[incoming.len() - 1].0);
        }
        lemma_overlaid_elsewhere(base, before, last.0);
        assert forall|i: int| 0 <= i < state.changes.len() implies (#[trigger] state.changes[i]).0
            != last.0 by {
            assert(state.changes[i].0 == before[i].0);
        }
        lemma_position(state.changes, last.0, 0, state.changes.len() as int);
    }
    assert(merge(base, incoming)->Ok_0.changes =~= reported(base, incoming));
}

/// No key has two changes in what a merge reports.
pub proof fn law_merge_changes_distinct(base: Properties, incoming: Entries)
    requires
        merge(base, incoming) is Ok,
    ensures
        keys_distinct(merge(base, incoming)->Ok_0.changes),
    decreases incoming.len(),
{
    if incoming.len() > 0 {
        law_merge_changes_distinct(base, incoming.drop_last());
        let state = merge(base, incoming.drop_last())->Ok_0;
        let last = incoming.last();
        lemma_recorded_distinct(state.changes, last.0, set_over(state.working, last).1);
    }
}

/// The merge of a single property into `base`.
proof fn lemma_merge_single(base: Properties, key: Seq<char>, value: Json)
    ensures
        merge(base, seq![(key, value)]) == merge_one(
            Merge { working: base, changes: Seq::empty() },
            key,
            value,
        ),
{
    let incoming = seq![(key, value)];
    assert(incoming.drop_last() =~= Entries::empty());
    assert(merge(base, incoming.drop_last()) is Ok);
}

/// Setting one property under a key that is not stored yet is refused with
/// `MaxItems` exactly where `MAX_ITEMS` items or more are stored. Setting one
/// under a key that is stored is never refused on that account while no more
/// than `MAX_ITEMS` are.
pub proof fn law_item_count(records: Records, guid: Seq<char>, key: Seq<char>, value: Json)
    requires
        base_properties(loaded(records, guid)).dom().finite(),
    ensures
        ({
            let base = base_properties(loaded(records, guid));
            let outcome = set_outcome(records, guid, Json::Object(single(key, value)));
            let refused = Err::<Written, QuotaReason>(QuotaReason::MaxItems);
            &&& !base.contains_key(key) ==> (outcome == refused <==> base.len() >= MAX_ITEMS)
            &&& base.contains_key(key) && base.len() <= MAX_ITEMS ==> outcome != refused
        }),
{
    let base = base_properties(loaded(records, guid));
    lemma_single_ordered(key, value);
    lemma_merge_single(base, key, value);
    if base.contains_key(key) {
        base.lemma_remove_key_len(key);
    } else {
        assert(base.remove(key) =~= base);
    }
}

/// Where the item count leaves room, setting one property is refused with
/// `ItemBytes` exactly if the bytes of its key and of its value's text come to
/// `QUOTA_BYTES_PER_ITEM` or more. Below that it succeeds where the text of
/// the whole object stays within `QUOTA_BYTES`.
pub proof fn law_item_size(records: Records, guid: Seq<char>, key: Seq<char>, value: Json)
    requires
        base_properties(loaded(records, guid)).remove(key).len() < MAX_ITEMS,
    ensures
        ({
            let base = base_properties(loaded(records, guid));
            let outcome = set_outcome(records, guid, Json::Object(single(key, value)));
            let refused = Err::<Written, QuotaReason>(QuotaReason::ItemBytes);
            let text = json_text(Json::Object(base.insert(key, value)));
            &&& outcome == refused <==> item_bytes(key, value) >= QUOTA_BYTES_PER_ITEM
            &&& item_bytes(key, value) < QUOTA_BYTES_PER_ITEM && utf8_len(text) <= QUOTA_BYTES
                ==> outcome is Ok
        }),
{
    lemma_single_ordered(key, value);
    lemma_merge_single(base_properties(loaded(records, guid)), key, value);
}

/// Setting one property reports a change from what the key held to the new
/// value, also where the two are the same value, and leaves the record with
/// that property put in.
pub proof fn law_set_reports_every_key(
    records: Records,
    guid: Seq<char>,
    key: Seq<char>,
    value: Json,
)
    requires
        set_outcome(records, guid, Json::Object(single(key, value))) is Ok,
    ensures
        ({
            let base = base_properties(loaded(records, guid));
            let after = set_outcome(records, guid, Json::Object(single(key, value)))->Ok_0;
            &&& after.changes == seq![set_over(base, (key, value))]
            &&& after.records == records.insert(
                guid,
                json_text(Json::Object(base.insert(key, value))),
            )
        }),
{
    let base = base_properties(loaded(records, guid));
    lemma_single_ordered(key, value);
    lemma_merge_single(base, key, value);
    assert(merge(base, seq![(key, value)])->Ok_0.changes =~= seq![set_over(base, (key, value))]);
}

/// The quotas on the items of an object: no more than `MAX_ITEMS` of them,
/// and for each the bytes of its key and of its value's text together below
/// `QUOTA_BYTES_PER_ITEM`.
pub open spec fn items_within_quotas(p: Properties) -> bool {
    &&& p.dom().finite()
    &&& p.len() <= MAX_ITEMS
    &&& forall|key: Seq<char>| #[trigger]
        p.contains_key(key) ==> item_bytes(key, p[key]) < QUOTA_BYTES_PER_ITEM
}

/// A merge keeps the items within their quotas.
pub proof fn law_merge_keeps_quotas(base: Properties, incoming: Entries)
    requires
        items_within_quotas(base),
        merge(base, incoming) is Ok,
    ensures
        items_within_quotas(merge(base, incoming)->Ok_0.working),
    decreases incoming.len(),
{
    if incoming.len() > 0 {
        law_merge_keeps_quotas(base, incoming.drop_last());
        let state = merge(base, incoming.drop_last())->Ok_0;
        let key = incoming.last().0;
        let after = state.working.insert(key, incoming.last().1);
        assert(after.remove(key) =~= state.working.remove(key));
        after.lemma_remove_key_len(key);
    }
}

/// Removing keys keeps the items within their quotas.
pub proof fn law_remove_keeps_quotas(stored: Properties, selection: Selection)
    requires
        items_within_quotas(stored),
    ensures
        items_within_quotas(removing(stored, selection).remaining),
    decreases selection.len(),
{
    if selection.len() > 0 {
        law_remove_keeps_quotas(stored, selection.drop_last());
        let state = removing(stored, selection.drop_last());
        let key = selection.last().0;
        if state.remaining.contains_key(key) {
            state.remaining.lemma_remove_key_len(key);
        }
    }
}

/// `text` is the text of an object whose items are within their quotas, and
/// takes no more than `QUOTA_BYTES` bytes.
pub open spec fn record_within_quotas(text: Seq<char>) -> bool {
    &&& utf8_len(text) <= QUOTA_BYTES
    &&& exists|working: Properties|
        items_within_quotas(working) && #[trigger] json_text(Json::Object(working)) == text
}

/// Where the stored items are within their quotas, whatever `set` or `remove`
/// writes is the text of an object within all three quotas.
pub proof fn law_written_within_quotas(records: Records, guid: Seq<char>, value: Json)
    requires
        items_within_quotas(base_properties(loaded(records, guid))),
    ensures
        set_outcome(records, guid, value) matches Ok(after) ==> after.records == records
            || record_within_quotas(after.records[guid]),
        remove_outcome(records, guid, value) matches Ok(after) ==> after.records == records
            || record_within_quotas(after.records[guid]),
{
    let base = base_properties(loaded(records, guid));
    if let Ok(after) = set_outcome(records, guid, value) {
        if after.records != records {
            let incoming = value->Object_0;
            law_merge_keeps_quotas(base, ordered(incoming));
            let working = merge(base, ordered(incoming))->Ok_0.working;
            assert(json_text(Json::Object(working)) == after.records[guid]);
        }
    }
    if let Ok(after) = remove_outcome(records, guid, value) {
        if after.records != records {
            law_remove_keeps_quotas(base, selected(value));
            let working = removing(base, selected(value)).remaining;
            assert(json_text(Json::Object(working)) == after.records[guid]);
        }
    }
}

/// The text written for an object with the properties `p` parses back to
/// that object.
pub open spec fn reads_back(p: Properties) -> bool {
    parsed(json_text(Json::Object(p))) == Some(Json::Object(p))
}

/// After a `set` that succeeds, `get` of everything returns what was stored
/// before with each incoming property put in, provided that the text written
/// parses back to the object it was written from.
pub proof fn law_set_then_get(records: Records, guid: Seq<char>, incoming: Properties)
    requires
        set_outcome(records, guid, Json::Object(incoming)) is Ok,
        reads_back(overlaid(base_properties(loaded(records, guid)), ordered(incoming))),
    ensures
        ({
            let after = set_outcome(records, guid, Json::Object(incoming))->Ok_0;
            get_outcome(loaded(after.records, guid), Json::Null) == overlaid(
                base_properties(loaded(records, guid)),
                ordered(incoming),
            )
        }),
{
    law_merge_overlays(base_properties(loaded(records, guid)), ordered(incoming));
}

/// Removing keys of which none is stored takes nothing away and reports no
/// change.
proof fn lemma_removing_missing(stored: Properties, selection: Selection)
    requires
        forall|i: int|
            0 <= i < selection.len() ==> !stored.contains_key((#[trigger] selection[i]).0),
    ensures
        removing(stored, selection) == (Removal { remaining: stored, changes: Seq::empty() }),
    decreases selection.len(),
{
    if selection.len() > 0 {
        let before = selection.drop_last();
        assert forall|i: int| 0 <= i < before.len() implies !stored.contains_key(
            (#[trigger] before[i]).0,
        ) by {
            assert(before[i] == selection[i]);
        }
        lemma_removing_missing(stored, before);
        assert(!stored.contains_key(selection[selection.len() - 1].0));
    }
}

/// `remove` with a specification that selects no stored key reports no change
/// and leaves every record as it was.
pub proof fn law_remove_missing(records: Records, guid: Seq<char>, specification: Json)
    requires
        loaded(records, guid) matches Some(existing) ==> forall|i: int|
            0 <= i < selected(specification).len() ==> !existing.contains_key(
                (#[trigger] selected(specification)[i]).0,
            ),
    ensures
        remove_outcome(records, guid, specification) == Ok::<Written, QuotaReason>(
            Written { records, changes: Seq::empty() },
        ),
{
    if let Some(existing) = loaded(records, guid) {
        lemma_removing_missing(existing, selected(specification));
    }
}

/// The change that reports `key` as removed from `stored`.
pub open spec fn removed_from(stored: Properties, key: Seq<char>) -> KeyChange {
    (key, Change { old_value: Some(stored[key]), new_value: None })
}

/// What removing leaves and reports: a stored key stays exactly if it is not
/// selected, with its value; each change is that of a selected key that was
/// stored, from its value to nothing; each such key has its change, and none
/// has two.
pub proof fn law_remove_reports(stored: Properties, selection: Selection)
    ensures
        ({
            let state = removing(stored, selection);
            &&& forall|key: Seq<char>| #[trigger]
                state.remaining.contains_key(key) <==> stored.contains_key(key) && !selects(
                    selection,
                    key,
                )
            &&& forall|key: Seq<char>| #[trigger]
                state.remaining.contains_key(key) ==> state.remaining[key] == stored[key]
            &&& forall|i: int|
                0 <= i < state.changes.len() ==> {
                    let change = #[trigger] state.changes[i];
                    &&& stored.contains_key(change.0)
                    &&& selects(selection, change.0)
                    &&& change == removed_from(stored, change.0)
                }
            &&& forall|key: Seq<char>|
                stored.contains_key(key) && #[trigger] selects(selection, key) ==> exists|i: int|
                    0 <= i < state.changes.len() && (#[trigger] state.changes[i]).0 == key
            &&& keys_distinct(state.changes)
        }),
    decreases selection.len(),
{
    if selection.len() > 0 {
        let before = selection.drop_last();
        let key = selection.last().0;
        law_remove_reports(stored, before);
        lemma_selects_last(selection);
        let prev = removing(stored, before);
        let next = removing(stored, selection);
        if prev.remaining.contains_key(key) {
            let change = removed_from(stored, key).1;
            assert forall|j: int| 0 <= j < prev.changes.len() implies (#[trigger] prev.changes[j]).0
                != key by {
                assert(selects(before, prev.changes[j].0));
            }
            lemma_position(prev.changes, key, 0, prev.changes.len() as int);
            assert(next.changes =~= prev.changes.push((key, change)));
            lemma_recorded_distinct(prev.changes, key, change);
            assert forall|i: int| 0 <= i < next.changes.len() implies {
                let c = #[trigger] next.changes[i];
                &&& stored.contains_key(c.0)
                &&& selects(selection, c.0)
                &&& c == removed_from(stored, c.0)
            } by {
                if i < prev.changes.len() {
                    assert(next.changes[i] == prev.changes[i]);
                }
            }
            assert forall|k: Seq<char>|
                stored.contains_key(k) && #[trigger] selects(selection, k) implies exists|i: int|
                0 <= i < next.changes.len() && (#[trigger] next.changes[i]).0 == k by {
                if k == key {
                    assert(next.changes[prev.changes.len() as int].0 == k);
                } else {
                    assert(selects(before, k));
                    let i = choose|i: int|
                        0 <= i < prev.changes.len() && (#[trigger] prev.changes[i]).0 == k;
                    assert(next.changes[i].0 == k);
                }
            }
        } else {
            assert forall|k: Seq<char>|
                stored.contains_key(k) && #[trigger] selects(selection, k) implies exists|i: int|
                0 <= i < next.changes.len() && (#[trigger] next.changes[i]).0 == k by {
                if k != key {
                    assert(selects(before, k));
                }
            }
        }
    }
}

/// After `clear` no object is stored for the extension: `get` then returns an
/// object without properties, and `set` starts from none.
pub proof fn law_clear_leaves_nothing(
    records: Records,
    guid: Seq<char>,
    specification: Json,
    incoming: Properties,
)
    ensures
        ({
            let after = clear_outcome(records, guid).records;
            &&& loaded(after, guid) is None
            &&& get_outcome(loaded(after, guid), specification) == Properties::empty()
            &&& set_outcome(after, guid, Json::Object(incoming)) == match merge(
                Properties::empty(),
                ordered(incoming),
            ) {
                Ok(state) => written(after, guid, state.working, state.changes),
                Err(reason) => Err(reason),
            }
        }),
{
}

/// Asked for one key with a default, `get` returns that key alone: with its
/// stored value where it has one, whatever the default, and else with the
/// default, also where that is a JSON null.
pub proof fn law_get_with_default(stored: Properties, key: Seq<char>, default: Json)
    ensures
        ({
            let outcome = get_outcome(Some(stored), Json::Object(single(key, default)));
            &&& stored.contains_key(key) ==> outcome == single(key, stored[key])
            &&& !stored.contains_key(key) ==> outcome == single(key, default)
        }),
{
    let selection = seq![(key, Some(default))];
    lemma_single_ordered(key, default);
    assert(selected(Json::Object(single(key, default))) =~= selection);
    assert(selection.drop_last() =~= Selection::empty());
    assert(chosen(stored, selection.drop_last()) == Properties::empty());
}

} // verus!
