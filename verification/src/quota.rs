//! The quotas of a storage area, the errors raised when one is exceeded, and
//! the merge of incoming properties into a working copy under those quotas.

use crate::changes::{recorded, Change, ChangeList, StorageChanges, StorageValueChange};
use crate::json::{
    clone_value, json_text, keyed, map_insert, map_len, map_remove, model, properties,
    value_to_string, Entries, Json, JsonMap, JsonValue, Properties,
};
use vstd::prelude::*;

verus! {

/// The most bytes that the text of one extension's record may take.
pub const QUOTA_BYTES: usize = 102_400;

/// The bound below which the bytes of a key and of its value's text must stay.
pub const QUOTA_BYTES_PER_ITEM: usize = 8_192;

/// The most items that one extension may keep.
pub const MAX_ITEMS: usize = 512;

/// Which quota a mutation ran into.
#[derive(Debug, Clone, Copy, PartialEq, Eq)]
pub enum QuotaReason {
    TotalBytes,
    ItemBytes,
    MaxItems,
}

/// Why a mutation was refused.
#[derive(Debug, Clone, Copy, PartialEq, Eq)]
pub enum Error {
    QuotaError(QuotaReason),
}

/// The number of bytes that `text` takes in UTF-8.
pub open spec fn utf8_len(text: Seq<char>) -> nat {
    vstd::utf8::encode_utf8(text).len()
}

/// The number of bytes that `text` takes in UTF-8.
pub fn byte_len(text: &str) -> (n: usize)
    ensures
        n == utf8_len(text@),
{
    text.as_bytes().len()
}

/// The properties of a working copy and the changes made to it so far.
pub struct Merge {
    pub working: Properties,
    pub changes: ChangeList,
}

/// The bytes that count against the quota of one item: those of the key and
/// those of the value's JSON text.
pub open spec fn item_bytes(key: Seq<char>, value: Json) -> nat {
    utf8_len(key) + utf8_len(json_text(value))
}

/// One incoming property merged into a working copy. The key's old value
/// leaves first, so an update is never counted as one more item; then the
/// item count and the item's size are checked, in that order.
pub open spec fn merge_one(
    state: Merge,
    key: Seq<char>,
    value: Json,
) -> Result<Merge, QuotaReason> {
    if state.working.remove(key).len() >= MAX_ITEMS {
        Err(QuotaReason::MaxItems)
    } else if item_bytes(key, value) >= QUOTA_BYTES_PER_ITEM {
        Err(QuotaReason::ItemBytes)
    } else {
        let change = Change { old_value: state.working.get(key), new_value: Some(value) };
        Ok(
            Merge {
                working: state.working.insert(key, value),
                changes: recorded(state.changes, key, change),
            },
        )
    }
}

/// The incoming properties merged into `base` one after the other. The first
/// refusal is the result.
pub open spec fn merge(base: Properties, incoming: Entries) -> Result<Merge, QuotaReason>
    decreases incoming.len(),
{
    if incoming.len() == 0 {
        Ok(Merge { working: base, changes: Seq::empty() })
    } else {
        match merge(base, incoming.drop_last()) {
            Ok(state) => merge_one(state, incoming.last().0, incoming.last().1),
            Err(reason) => Err(reason),
        }
    }
}

/// Once a prefix of the incoming properties is refused, so is the whole.
proof fn lemma_merge_refused(base: Properties, incoming: Entries, upto: int)
    requires
        0 <= upto <= incoming.len(),
        merge(base, incoming.take(upto)) is Err,
    ensures
        merge(base, incoming) == merge(base, incoming.take(upto)),
    decreases incoming.len() - upto,
{
    if upto < incoming.len() {
        assert(incoming.take(upto + 1).drop_last() =~= incoming.take(upto));
        lemma_merge_refused(base, incoming, upto + 1);
    } else {
        assert(incoming.take(upto) =~= incoming);
    }
}

/// Merges `incoming` into `current` and reports each key's change, or the
/// first quota that a key runs into.
pub fn merge_entries(
    current: JsonMap,
    incoming: Vec<(String, JsonValue)>,
) -> (merged: Result<(JsonMap, StorageChanges), QuotaReason>)
    ensures
        match merged {
            Ok((working, changes)) => merge(properties(current), keyed(incoming@))
                == Ok::<Merge, QuotaReason>(
                Merge { working: properties(working), changes: changes@ },
            ),
            Err(reason) => merge(properties(current), keyed(incoming@))
                == Err::<Merge, QuotaReason>(reason),
        },
{
    let ghost base = properties(current);
    let ghost all = keyed(incoming@);
    let mut working = current;
    let mut changes = StorageChanges::new();
    assert(all.take(0) =~= Entries::empty());
    for entry in walk: incoming.into_iter()
        invariant
            walk.seq() == incoming@,
            all == keyed(incoming@),
            base == properties(current),
            merge(base, all.take(walk.index())) == Ok::<Merge, QuotaReason>(
                Merge { working: properties(working), changes: changes@ },
            ),
    {
        let ghost at = walk.index();
        let (key, value) = entry;
        proof {
            assert(all.take(at + 1).drop_last() =~= all.take(at));
            assert(all.take(at + 1).last() == (key@, model(value)));
        }
        let old_value = map_remove(&mut working, key.as_str());
        if map_len(&working) >= MAX_ITEMS {
            proof {
                assert(merge(base, all.take(at + 1)) is Err);
                lemma_merge_refused(base, all, at + 1);
            }
            return Err(QuotaReason::MaxItems);
        }
        let text = value_to_string(&value);
        let key_bytes = byte_len(key.as_str());
        let text_bytes = byte_len(text.as_str());
        if key_bytes >= QUOTA_BYTES_PER_ITEM || text_bytes >= QUOTA_BYTES_PER_ITEM || key_bytes
            + text_bytes >= QUOTA_BYTES_PER_ITEM {
            proof {
                assert(merge(base, all.take(at + 1)) is Err);
                lemma_merge_refused(base, all, at + 1);
            }
            return Err(QuotaReason::ItemBytes);
        }
        map_insert(&mut working, key.clone(), clone_value(&value));
        changes.insert(key, StorageValueChange { old_value, new_value: Some(value) });
        assert(properties(working) =~= merge(base, all.take(at + 1))->Ok_0.working);
    }
    assert(all.take(all.len() as int) =~= all);
    Ok((working, changes))
}

} // verus!
