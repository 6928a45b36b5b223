//! Change records: what a mutation did to each key that it touched.

use crate::json::{model_of, Json, JsonValue};
use vstd::prelude::*;

verus! {

/// The value of one key before and after a mutation, as `serde_json` holds
/// them. A side is `None` where the key had, or has, no value; that differs
/// from a JSON null.
#[derive(Debug, Clone, PartialEq)]
pub struct StorageValueChange {
    pub old_value: Option<JsonValue>,
    pub new_value: Option<JsonValue>,
}

/// What a mutation did to one key: the value that it held before and the one
/// that it holds after, each `None` where there is none.
pub struct Change {
    pub old_value: Option<Json>,
    pub new_value: Option<Json>,
}

impl View for StorageValueChange {
    type V = Change;

    open spec fn view(&self) -> Change {
        Change { old_value: model_of(self.old_value), new_value: model_of(self.new_value) }
    }
}

/// The changes of one mutation, each under the key it is about, in the order
/// in which the keys were first touched. No key has two changes. Two change
/// sets are equal where they hold the same changes in the same order.
#[derive(Debug, PartialEq)]
pub struct StorageChanges {
    changes: Vec<(String, StorageValueChange)>,
}

/// A key with what a mutation did to it.
pub type KeyChange = (Seq<char>, Change);

/// The changes of keys, in an order.
pub type ChangeList = Seq<KeyChange>;

/// The keys of `owned` as character sequences, each beside its change.
pub open spec fn keyed_changes(owned: Seq<(String, StorageValueChange)>) -> ChangeList {
    owned.map_values(|e: (String, StorageValueChange)| (e.0@, e.1@))
}

/// The index of the first change under `key` at or after `from`, or the length
/// of `changes` where there is none.
pub open spec fn position_from(changes: ChangeList, key: Seq<char>, from: int) -> int
    decreases changes.len() - from,
{
    if from < 0 || from >= changes.len() {
        changes.len() as int
    } else if changes[from].0 == key {
        from
    } else {
        position_from(changes, key, from + 1)
    }
}

/// `changes` with `change` recorded under `key`: in place of the change that
/// the key already had, or else at the end.
pub open spec fn recorded(changes: ChangeList, key: Seq<char>, change: Change) -> ChangeList {
    let at = position_from(changes, key, 0);
    if at < changes.len() {
        changes.update(at, (key, change))
    } else {
        changes.push((key, change))
    }
}

/// No key has two changes.
pub open spec fn keys_distinct(changes: ChangeList) -> bool {
    forall|i: int, j: int|
        0 <= i < j < changes.len() ==> (#[trigger] changes[i]).0 != (#[trigger] changes[j]).0
}

/// Where no change from `from` up to `at` is under `key`, and the one at `at`
/// is or `at` is the end, the search from `from` ends at `at`.
pub proof fn lemma_position(changes: ChangeList, key: Seq<char>, from: int, at: int)
    requires
        0 <= from <= at <= changes.len(),
        forall|j: int| from <= j < at ==> (#[trigger] changes[j]).0 != key,
        at < changes.len() ==> changes[at].0 == key,
    ensures
        position_from(changes, key, from) == at,
    decreases at - from,
{
    if from < at {
        assert(changes[from].0 != key);
        lemma_position(changes, key, from + 1, at);
    }
}

/// What the search from `from` finds: a change under `key` with none before
/// it, or the end with none at all.
proof fn lemma_position_found(changes: ChangeList, key: Seq<char>, from: int)
    requires
        0 <= from <= changes.len(),
    ensures
        from <= position_from(changes, key, from) <= changes.len(),
        position_from(changes, key, from) < changes.len() ==> changes[position_from(
            changes,
            key,
            from,
        )].0 == key,
        forall|j: int|
            from <= j < position_from(changes, key, from) ==> (#[trigger] changes[j]).0 != key,
    decreases changes.len() - from,
{
    if from < changes.len() && changes[from].0 != key {
        lemma_position_found(changes, key, from + 1);
    }
}

/// Recording a change keeps the keys distinct.
pub proof fn lemma_recorded_distinct(changes: ChangeList, key: Seq<char>, change: Change)
    requires
        keys_distinct(changes),
    ensures
        keys_distinct(recorded(changes, key, change)),
{
    let at = position_from(changes, key, 0);
    lemma_position_found(changes, key, 0);
    let after = recorded(changes, key, change);
    assert forall|i: int, j: int| 0 <= i < j < after.len() implies (#[trigger] after[i]).0
        != (#[trigger] after[j]).0 by {
        if at < changes.len() {
            assert(changes[i].0 != changes[j].0);
        } else if j < changes.len() {
            assert(changes[i].0 != changes[j].0);
        } else {
            assert(changes[i].0 != key);
        }
    }
}

impl View for StorageChanges {
    type V = ChangeList;

    closed spec fn view(&self) -> ChangeList {
        keyed_changes(self.changes@)
    }
}

impl StorageChanges {
    /// What holds of every change set: no key has two changes.
    #[verifier::type_invariant]
    pub open spec fn well_formed(self) -> bool {
        keys_distinct(self@)
    }

    /// A change set without changes.
    pub fn new() -> (changes: Self)
        ensures
            changes@ == ChangeList::empty(),
    {
        assert(keyed_changes(Seq::<(String, StorageValueChange)>::empty()) =~= ChangeList::empty());
        StorageChanges { changes: Vec::new() }
    }

    /// The number of keys with a change.
    pub fn len(&self) -> (n: usize)
        ensures
            n == self@.len(),
    {
        self.changes.len()
    }

    /// Whether no key has a change.
    pub fn is_empty(&self) -> (empty: bool)
        ensures
            empty == (self@.len() == 0),
    {
        self.changes.len() == 0
    }

    /// The changes in order, each with its key.
    pub fn entries(&self) -> (owned: &Vec<(String, StorageValueChange)>)
        ensures
            keyed_changes(owned@) == self@,
            keys_distinct(keyed_changes(owned@)),
    {
        proof {
            use_type_invariant(self);
        }
        &self.changes
    }

    /// Records `change` under `key`, in place of any change that the key
    /// already had.
    pub fn insert(&mut self, key: String, change: StorageValueChange)
        ensures
            final(self)@ == recorded(old(self)@, key@, change@),
    {
        proof {
            use_type_invariant(&*self);
        }
        let n = self.changes.len();
        let ghost before = self@;
        let mut at: usize = 0;
        while at < n && !(self.changes[at].0 == key)
            invariant
                n == self.changes@.len(),
                at <= n,
                before == self@,
                forall|j: int| 0 <= j < at ==> (#[trigger] before[j]).0 != key@,
            decreases n - at,
        {
            at += 1;
        }
        proof {
            lemma_position(before, key@, 0, at as int);
            lemma_recorded_distinct(before, key@, change@);
        }
        let mut changes: Vec<(String, StorageValueChange)> = Vec::new();
        core::mem::swap(&mut changes, &mut self.changes);
        if at < n {
            changes.set(at, (key, change));
        } else {
            changes.push((key, change));
        }
        assert(keyed_changes(changes@) =~= recorded(before, key@, change@));
        self.changes = changes;
    }
}

} // verus!
