//! The mutation engine: `set`, `get`, `remove` and `clear` on the storage area
//! of one extension, with the quotas enforced and the changes reported.

use crate::changes::{
    lemma_position, recorded, Change, ChangeList, KeyChange, StorageChanges, StorageValueChange,
};
use crate::json::{
    clone_value, into_entries, json_text, keyed, map_insert, map_new, map_remove, model, model_of,
    object_value, parse, parsed, properties, properties_of, unpack, value_to_string, Entries, Json,
    JsonMap, JsonShape, JsonValue, Properties, Property,
};
use crate::keys::{defaults_unique, get_keys, keyed_defaults, select_keys, selected, Selection};
use crate::order::{lemma_ascending_distinct, ordered};
use crate::quota::{byte_len, merge, merge_entries, utf8_len, Error, QuotaReason, QUOTA_BYTES};
use crate::store::{RecordStore, Records};
use vstd::prelude::*;

verus! {

/// The properties of the object that the text of a record holds, or `None`
/// where the text is not that of a JSON object.
pub open spec fn stored_object(text: Seq<char>) -> Option<Properties> {
    match parsed(text) {
        Some(Json::Object(existing)) => Some(existing),
        _ => None,
    }
}

/// The object that `records` hold for `guid`. A record that is missing and one
/// whose text is no JSON object both give `None`.
pub open spec fn loaded(records: Records, guid: Seq<char>) -> Option<Properties> {
    if records.contains_key(guid) {
        stored_object(records[guid])
    } else {
        None
    }
}

/// The properties to start a mutation from: those loaded, or none.
pub open spec fn base_properties(stored: Option<Properties>) -> Properties {
    match stored {
        Some(existing) => existing,
        None => Map::empty(),
    }
}

/// The records after `text` is saved for `guid`, or the refusal where it takes
/// more bytes than the quota for a whole record allows.
pub open spec fn saved(
    records: Records,
    guid: Seq<char>,
    text: Seq<char>,
) -> Result<Records, QuotaReason> {
    if utf8_len(text) > QUOTA_BYTES {
        Err(QuotaReason::TotalBytes)
    } else {
        Ok(records.insert(guid, text))
    }
}

/// What a mutation leaves behind: the records and the changes it reports.
pub struct Written {
    pub records: Records,
    pub changes: ChangeList,
}

/// The records after the object with the properties `working` is saved for
/// `guid`, beside the changes that led to it; or the refusal to save.
pub open spec fn written(
    records: Records,
    guid: Seq<char>,
    working: Properties,
    changes: ChangeList,
) -> Result<Written, QuotaReason> {
    match saved(records, guid, json_text(Json::Object(working))) {
        Ok(after) => Ok(Written { records: after, changes }),
        Err(reason) => Err(reason),
    }
}

/// Loads the object kept for `ext_guid`. Text that is no JSON object counts
/// as no record.
pub fn get_from_db(conn: &RecordStore, ext_guid: &str) -> (stored: Option<JsonMap>)
    ensures
        properties_of(stored) == loaded(conn@, ext_guid@),
{
    match conn.text(ext_guid) {
        Some(text) => match parse(text.as_str()) {
            Some(value) => match unpack(value) {
                JsonShape::Object(existing) => Some(existing),
                _ => None,
            },
            None => None,
        },
        None => None,
    }
}

/// Keeps the text of `val` as the record of `ext_guid`, unless it takes more
/// than `QUOTA_BYTES` bytes: then nothing is written.
pub fn save_to_db(
    conn: &mut RecordStore,
    ext_guid: &str,
    val: &JsonValue,
) -> (outcome: Result<(), Error>)
    ensures
        match outcome {
            Ok(_) => saved(old(conn)@, ext_guid@, json_text(model(*val)))
                == Ok::<Records, QuotaReason>(final(conn)@),
            Err(error) => error == Error::QuotaError(QuotaReason::TotalBytes)
                && saved(old(conn)@, ext_guid@, json_text(model(*val))) is Err
                && final(conn)@ == old(conn)@,
        },
{
    let text = value_to_string(val);
    if byte_len(text.as_str()) > QUOTA_BYTES {
        return Err(Error::QuotaError(QuotaReason::TotalBytes));
    }
    conn.put(ext_guid, text);
    Ok(())
}

/// Drops the record of `ext_guid`, if it has one.
pub fn remove_from_db(conn: &mut RecordStore, ext_guid: &str)
    ensures
        final(conn)@ == old(conn)@.remove(ext_guid@),
{
    conn.delete(ext_guid);
}

/// What `set` does with `value`: the properties of an object are merged, in
/// their order, into what is loaded, and the outcome is saved; anything else
/// changes nothing.
pub open spec fn set_outcome(
    records: Records,
    guid: Seq<char>,
    value: Json,
) -> Result<Written, QuotaReason> {
    match value {
        Json::Object(incoming) => {
            match merge(base_properties(loaded(records, guid)), ordered(incoming)) {
                Ok(state) => written(records, guid, state.working, state.changes),
                Err(reason) => Err(reason),
            }
        },
        _ => Ok(Written { records, changes: Seq::empty() }),
    }
}

/// Sets each property of the object `val` in the storage area of `ext_guid`
/// and reports the change of every key, also where the new value equals the
/// old one. A value that is no object changes nothing. Where a quota is
/// exceeded, nothing is written.
pub fn set(
    conn: &mut RecordStore,
    ext_guid: &str,
    val: JsonValue,
) -> (result: Result<StorageChanges, Error>)
    ensures
        match result {
            Ok(changes) => set_outcome(old(conn)@, ext_guid@, model(val))
                == Ok::<Written, QuotaReason>(Written { records: final(conn)@, changes: changes@ }),
            Err(Error::QuotaError(reason)) => set_outcome(old(conn)@, ext_guid@, model(val))
                == Err::<Written, QuotaReason>(reason) && final(conn)@ == old(conn)@,
        },
{
    let incoming = match unpack(val) {
        JsonShape::Object(incoming) => incoming,
        _ => {
            return Ok(StorageChanges::new());
        },
    };
    let current = match get_from_db(conn, ext_guid) {
        Some(existing) => existing,
        None => map_new(),
    };
    match merge_entries(current, into_entries(incoming)) {
        Ok((working, changes)) => match save_to_db(conn, ext_guid, &object_value(working)) {
            Ok(_) => Ok(changes),
            Err(error) => Err(error),
        },
        Err(reason) => Err(Error::QuotaError(reason)),
    }
}

/// What is left of the stored properties while keys are picked, and the
/// properties picked so far.
pub struct Picking {
    pub remaining: Properties,
    pub result: Properties,
}

/// One key picked: its stored value moves to the result; where it has none
/// left, its default goes there, if it comes with one.
pub open spec fn pick_one(state: Picking, key: Seq<char>, default: Option<Json>) -> Picking {
    if state.remaining.contains_key(key) {
        Picking {
            remaining: state.remaining.remove(key),
            result: state.result.insert(key, state.remaining[key]),
        }
    } else {
        match default {
            Some(value) => Picking {
                remaining: state.remaining,
                result: state.result.insert(key, value),
            },
            None => state,
        }
    }
}

/// The keys of `selection` picked from `stored`, one after the other.
pub open spec fn picking(stored: Properties, selection: Selection) -> Picking
    decreases selection.len(),
{
    if selection.len() == 0 {
        Picking { remaining: stored, result: Map::empty() }
    } else {
        pick_one(picking(stored, selection.drop_last()), selection.last().0, selection.last().1)
    }
}

/// For each selected key the stored value where there is one, else the key's
/// default where it comes with one; other keys do not appear.
pub open spec fn chosen(stored: Properties, selection: Selection) -> Properties
    decreases selection.len(),
{
    if selection.len() == 0 {
        Map::empty()
    } else {
        let before = chosen(stored, selection.drop_last());
        let key = selection.last().0;
        if stored.contains_key(key) {
            before.insert(key, stored[key])
        } else {
            match selection.last().1 {
                Some(value) => before.insert(key, value),
                None => before,
            }
        }
    }
}

/// Whether `selection` names `key`.
pub open spec fn selects(selection: Selection, key: Seq<char>) -> bool {
    exists|i: int| 0 <= i < selection.len() && (#[trigger] selection[i]).0 == key
}

/// A selection names the keys that it named before its last entry, and the
/// key of that entry.
pub proof fn lemma_selects_last(selection: Selection)
    requires
        selection.len() > 0,
    ensures
        forall|key: Seq<char>| #[trigger]
            selects(selection, key) <==> (key == selection.last().0 || selects(
                selection.drop_last(),
                key,
            )),
{
    let before = selection.drop_last();
    assert forall|key: Seq<char>| #[trigger]
        selects(selection, key) <==> (key == selection.last().0 || selects(before, key)) by {
        if selects(selection, key) {
            let i = choose|i: int| 0 <= i < selection.len() && (#[trigger] selection[i]).0 == key;
            if i < before.len() {
                assert(before[i].0 == key);
            }
        }
        if selects(before, key) {
            let i = choose|i: int| 0 <= i < before.len() && (#[trigger] before[i]).0 == key;
            assert(selection[i].0 == key);
        }
        if key == selection.last().0 {
            assert(selection[selection.len() - 1].0 == key);
        }
    }
}

/// Where no key with a default is selected twice, picking gives each selected
/// key its stored value, or else its default.
pub proof fn lemma_picking_chosen(stored: Properties, selection: Selection)
    requires
        defaults_unique(selection),
    ensures
        picking(stored, selection).result == chosen(stored, selection),
        forall|key: Seq<char>| #[trigger]
            picking(stored, selection).remaining.contains_key(key) <==> stored.contains_key(key)
                && !selects(selection, key),
        forall|key: Seq<char>| #[trigger]
            picking(stored, selection).remaining.contains_key(key) ==> picking(
                stored,
                selection,
            ).remaining[key] == stored[key],
        forall|key: Seq<char>|
            stored.contains_key(key) && #[trigger] selects(selection, key) ==> chosen(
                stored,
                selection,
            ).contains_key(key) && chosen(stored, selection)[key] == stored[key],
    decreases selection.len(),
{
    if selection.len() > 0 {
        let before = selection.drop_last();
        let last = selection.last();
        let end = selection.len() - 1;
        assert(defaults_unique(before)) by {
            assert forall|i: int, j: int|
                0 <= i < before.len() && 0 <= j < before.len() && i != j
                    && (#[trigger] before[i]).1 is Some implies before[i].0
                != (#[trigger] before[j]).0 by {
                assert(selection[i].1 is Some);
                assert(selection[i].0 != selection[j].0);
            }
        }
        lemma_picking_chosen(stored, before);
        lemma_selects_last(selection);
        if !picking(stored, before).remaining.contains_key(last.0) && stored.contains_key(last.0) {
            // The key was picked before: it comes without a default here, and
            // its stored value is chosen already.
            assert(selects(before, last.0));
            let j = choose|j: int| 0 <= j < before.len() && (#[trigger] before[j]).0 == last.0;
            assert(selection[j].0 == last.0);
            assert(selection[end] == last);
            if last.1 is Some {
                assert(selection[end].0 != selection[j].0);
            }
            let so_far = chosen(stored, before);
            assert(so_far.insert(last.0, stored[last.0]) =~= so_far);
        }
        assert(picking(stored, selection).result =~= chosen(stored, selection));
        assert forall|key: Seq<char>|
            stored.contains_key(key) && #[trigger] selects(selection, key) implies chosen(
                stored,
                selection,
            ).contains_key(key) && chosen(stored, selection)[key] == stored[key] by {
            if key != last.0 {
                assert(selects(before, key));
            }
        }
    }
}

/// Picks the selected keys from `existing`: an object with the stored value of
/// each key that has one, and the default of each other key that comes with
/// one. A key counts as stored once: where it is selected again, only its
/// default is left to pick.
pub fn pick(existing: JsonMap, selection: Vec<(String, Option<JsonValue>)>) -> (result: JsonMap)
    ensures
        properties(result) == picking(properties(existing), keyed_defaults(selection@)).result,
{
    let ghost stored = properties(existing);
    let ghost all = keyed_defaults(selection@);
    let mut remaining = existing;
    let mut result = map_new();
    assert(all.take(0) =~= Selection::empty());
    for entry in walk: selection.into_iter()
        invariant
            walk.seq() == selection@,
            all == keyed_defaults(selection@),
            picking(stored, all.take(walk.index())) == (Picking {
                remaining: properties(remaining),
                result: properties(result),
            }),
    {
        let ghost at = walk.index();
        let (key, default) = entry;
        proof {
            assert(all.take(at + 1).drop_last() =~= all.take(at));
            assert(all.take(at + 1).last() == (key@, model_of(default)));
        }
        match map_remove(&mut remaining, key.as_str()) {
            Some(value) => {
                map_insert(&mut result, key, value);
            },
            None => {
                assert(properties(remaining) =~= picking(stored, all.take(at)).remaining);
                match default {
                    Some(value) => {
                        map_insert(&mut result, key, value);
                    },
                    None => {},
                }
            },
        }
    }
    assert(all.take(all.len() as int) =~= all);
    result
}

/// The properties that `get` returns for a specification: none where no
/// object is stored, all that are stored for a null, and otherwise the
/// selected keys with their stored values or defaults.
pub open spec fn get_outcome(stored: Option<Properties>, specification: Json) -> Properties {
    match stored {
        Some(existing) => match specification {
            Json::Null => existing,
            _ => chosen(existing, selected(specification)),
        },
        None => Map::empty(),
    }
}

/// Reads from the storage area of `ext_guid` what `keys` specifies. The result
/// is always an object.
pub fn get(
    conn: &RecordStore,
    ext_guid: &str,
    keys: &JsonValue,
) -> (result: Result<JsonValue, Error>)
    ensures
        result matches Ok(value) && model(value) == Json::Object(
            get_outcome(loaded(conn@, ext_guid@), model(*keys)),
        ),
{
    let existing = match get_from_db(conn, ext_guid) {
        Some(existing) => existing,
        None => {
            return Ok(object_value(map_new()));
        },
    };
    match unpack(clone_value(keys)) {
        JsonShape::Null => Ok(object_value(existing)),
        specification => {
            let selection = select_keys(specification);
            proof {
                lemma_picking_chosen(properties(existing), keyed_defaults(selection@));
            }
            Ok(object_value(pick(existing, selection)))
        },
    }
}

/// What is left of the stored properties while keys are removed, and the
/// changes so far.
pub struct Removal {
    pub remaining: Properties,
    pub changes: ChangeList,
}

/// One key removed: where it is stored, it leaves and the change is recorded.
pub open spec fn remove_one(state: Removal, key: Seq<char>) -> Removal {
    if state.remaining.contains_key(key) {
        let change = Change { old_value: Some(state.remaining[key]), new_value: None };
        Removal {
            remaining: state.remaining.remove(key),
            changes: recorded(state.changes, key, change),
        }
    } else {
        state
    }
}

/// The keys of `selection` removed from `stored`, one after the other. Their
/// defaults play no part.
pub open spec fn removing(stored: Properties, selection: Selection) -> Removal
    decreases selection.len(),
{
    if selection.len() == 0 {
        Removal { remaining: stored, changes: Seq::empty() }
    } else {
        remove_one(removing(stored, selection.drop_last()), selection.last().0)
    }
}

/// Removes the selected keys from `existing` and reports the change of each
/// key that was stored.
pub fn remove_keys(
    existing: JsonMap,
    selection: Vec<(String, Option<JsonValue>)>,
) -> (removal: (JsonMap, StorageChanges))
    ensures
        removing(properties(existing), keyed_defaults(selection@)) == (Removal {
            remaining: properties(removal.0),
            changes: removal.1@,
        }),
{
    let ghost stored = properties(existing);
    let ghost all = keyed_defaults(selection@);
    let mut remaining = existing;
    let mut changes = StorageChanges::new();
    assert(all.take(0) =~= Selection::empty());
    for entry in walk: selection.into_iter()
        invariant
            walk.seq() == selection@,
            all == keyed_defaults(selection@),
            removing(stored, all.take(walk.index())) == (Removal {
                remaining: properties(remaining),
                changes: changes@,
            }),
    {
        let ghost at = walk.index();
        let (key, _) = entry;
        proof {
            assert(all.take(at + 1).drop_last() =~= all.take(at));
            assert(all.take(at + 1).last().0 == key@);
        }
        match map_remove(&mut remaining, key.as_str()) {
            Some(value) => {
                changes.insert(key, StorageValueChange { old_value: Some(value), new_value: None });
            },
            None => {
                assert(properties(remaining) =~= removing(stored, all.take(at)).remaining);
            },
        }
    }
    assert(all.take(all.len() as int) =~= all);
    (remaining, changes)
}

/// What `remove` does for a specification: where a selected key is stored,
/// what is left is saved; otherwise nothing changes.
pub open spec fn remove_outcome(
    records: Records,
    guid: Seq<char>,
    specification: Json,
) -> Result<Written, QuotaReason> {
    match loaded(records, guid) {
        Some(existing) => {
            let state = removing(existing, selected(specification));
            if state.changes.len() == 0 {
                Ok(Written { records, changes: Seq::empty() })
            } else {
                written(records, guid, state.remaining, state.changes)
            }
        },
        None => Ok(Written { records, changes: Seq::empty() }),
    }
}

/// Removes the keys that `keys` specifies from the storage area of `ext_guid`
/// and reports the change of each key that was stored. Where none was, the
/// record is left as it is; where some was, what is left is saved, also where
/// that is an object without properties.
pub fn remove(
    conn: &mut RecordStore,
    ext_guid: &str,
    keys: &JsonValue,
) -> (result: Result<StorageChanges, Error>)
    ensures
        match result {
            Ok(changes) => remove_outcome(old(conn)@, ext_guid@, model(*keys))
                == Ok::<Written, QuotaReason>(Written { records: final(conn)@, changes: changes@ }),
            Err(Error::QuotaError(reason)) => remove_outcome(old(conn)@, ext_guid@, model(*keys))
                == Err::<Written, QuotaReason>(reason) && final(conn)@ == old(conn)@,
        },
{
    let existing = match get_from_db(conn, ext_guid) {
        Some(existing) => existing,
        None => {
            return Ok(StorageChanges::new());
        },
    };
    let (remaining, changes) = remove_keys(existing, get_keys(keys));
    if !changes.is_empty() {
        match save_to_db(conn, ext_guid, &object_value(remaining)) {
            Ok(_) => {},
            Err(error) => {
                return Err(error);
            },
        }
    } else {
        assert(changes@ =~= ChangeList::empty());
    }
    Ok(changes)
}

/// The change that reports a property as gone.
pub open spec fn gone(property: Property) -> KeyChange {
    (property.0, Change { old_value: Some(property.1), new_value: None })
}

/// One change for each property, from its value to none, recorded in order.
pub open spec fn clearing(stored: Entries) -> ChangeList
    decreases stored.len(),
{
    if stored.len() == 0 {
        Seq::empty()
    } else {
        recorded(clearing(stored.drop_last()), stored.last().0, gone(stored.last()).1)
    }
}

/// One change for each property, from its value to none, in the properties'
/// order.
pub open spec fn cleared(stored: Entries) -> ChangeList {
    stored.map_values(|property: Property| gone(property))
}

/// Where no key comes twice, recording the properties one by one gives one
/// change for each, in their order.
pub proof fn lemma_clearing_cleared(stored: Entries)
    requires
        forall|i: int, j: int|
            0 <= i < j < stored.len() ==> (#[trigger] stored[i]).0 != (#[trigger] stored[j]).0,
    ensures
        clearing(stored) == cleared(stored),
    decreases stored.len(),
{
    if stored.len() > 0 {
        let before = stored.drop_last();
        assert forall|i: int, j: int| 0 <= i < j < before.len() implies (#[trigger] before[i]).0
            != (#[trigger] before[j]).0 by {
            assert(stored[i].0 != stored[j].0);
        }
        lemma_clearing_cleared(before);
        let so_far = cleared(before);
        assert forall|j: int| 0 <= j < so_far.len() implies (#[trigger] so_far[j]).0
            != stored.last().0 by {
            assert(stored[j].0 != stored[stored.len() - 1].0);
        }
        lemma_position(so_far, stored.last().0, 0, so_far.len() as int);
    }
    assert(clearing(stored) =~= cleared(stored));
}

/// The changes that report each of `stored` as gone.
pub fn clear_entries(stored: Vec<(String, JsonValue)>) -> (changes: StorageChanges)
    ensures
        changes@ == clearing(keyed(stored@)),
{
    let ghost all = keyed(stored@);
    let mut changes = StorageChanges::new();
    assert(all.take(0) =~= Entries::empty());
    for entry in walk: stored.into_iter()
        invariant
            walk.seq() == stored@,
            all == keyed(stored@),
            changes@ == clearing(all.take(walk.index())),
    {
        let ghost at = walk.index();
        let (key, value) = entry;
        proof {
            assert(all.take(at + 1).drop_last() =~= all.take(at));
            assert(all.take(at + 1).last() == (key@, model(value)));
        }
        changes.insert(key, StorageValueChange { old_value: Some(value), new_value: None });
    }
    assert(all.take(all.len() as int) =~= all);
    changes
}

/// `changes` reports each of the `stored` properties as gone, and nothing else.
pub open spec fn reports_gone(stored: Properties, changes: ChangeList) -> bool {
    &&& forall|i: int|
        0 <= i < changes.len() ==> stored.contains_key((#[trigger] changes[i]).0) && changes[i]
            == gone((changes[i].0, stored[changes[i].0]))
    &&& forall|key: Seq<char>| #[trigger]
        stored.contains_key(key) ==> exists|i: int|
            0 <= i < changes.len() && (#[trigger] changes[i]).0 == key
}

/// What `clear` leaves behind: where an object is stored, its record is gone
/// and each of its properties reported; otherwise nothing changes.
pub open spec fn clear_outcome(records: Records, guid: Seq<char>) -> Written {
    match loaded(records, guid) {
        Some(existing) => Written {
            records: records.remove(guid),
            changes: cleared(ordered(existing)),
        },
        None => Written { records, changes: Seq::empty() },
    }
}

/// Drops the whole storage area of `ext_guid`, record and all, and reports
/// each key that was stored, in the order in which the stored object hands
/// its properties out.
pub fn clear(conn: &mut RecordStore, ext_guid: &str) -> (result: Result<StorageChanges, Error>)
    ensures
        match result {
            Ok(changes) => clear_outcome(old(conn)@, ext_guid@) == (Written {
                records: final(conn)@,
                changes: changes@,
            }) && reports_gone(base_properties(loaded(old(conn)@, ext_guid@)), changes@),
            Err(_) => false,
        },
{
    let existing = match get_from_db(conn, ext_guid) {
        Some(existing) => existing,
        None => {
            return Ok(StorageChanges::new());
        },
    };
    let ghost stored = properties(existing);
    let owned = into_entries(existing);
    proof {
        let listed = keyed(owned@);
        lemma_ascending_distinct(listed);
        lemma_clearing_cleared(listed);
        assert forall|i: int| 0 <= i < listed.len() implies stored.contains_key(
            (#[trigger] cleared(listed)[i]).0,
        ) && cleared(listed)[i] == gone((cleared(listed)[i].0, stored[cleared(listed)[i].0])) by {
            assert(stored.contains_pair(listed[i].0, listed[i].1));
        }
        assert forall|key: Seq<char>| #[trigger] stored.contains_key(key) implies exists|i: int|
            0 <= i < listed.len() && (#[trigger] cleared(listed)[i]).0 == key by {
            let i = choose|i: int| 0 <= i < listed.len() && (#[trigger] listed[i]).0 == key;
            assert(cleared(listed)[i].0 == key);
        }
    }
    let changes = clear_entries(owned);
    remove_from_db(conn, ext_guid);
    Ok(changes)
}

} // verus!
