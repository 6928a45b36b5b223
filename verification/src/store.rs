//! The value store: one record of text for each extension that has any.

use vstd::prelude::*;

verus! {

/// The text of each extension that has a record, by identifier.
pub type Records = Map<Seq<char>, Seq<char>>;

/// The text kept for one extension.
struct Record {
    guid: String,
    data: String,
}

/// Records of text, keyed by extension identifier. No identifier has two.
pub struct RecordStore {
    records: Vec<Record>,
}

/// Whether some record belongs to `guid`.
spec fn held(records: Seq<Record>, guid: Seq<char>) -> bool {
    exists|i: int| 0 <= i < records.len() && (#[trigger] records[i]).guid@ == guid
}

/// The place of a record of `guid`, where there is one.
spec fn place(records: Seq<Record>, guid: Seq<char>) -> int {
    choose|i: int| 0 <= i < records.len() && (#[trigger] records[i]).guid@ == guid
}

/// No two records share an identifier.
spec fn distinct(records: Seq<Record>) -> bool {
    forall|i: int, j: int|
        0 <= i < j < records.len() ==> (#[trigger] records[i]).guid@
            != (#[trigger] records[j]).guid@
}

/// The records as a map from identifier to text.
spec fn as_map(records: Seq<Record>) -> Records {
    Map::new(
        |guid: Seq<char>| held(records, guid),
        |guid: Seq<char>| records[place(records, guid)].data@,
    )
}

/// `records` with `record` in the place `at`, or at the end where `at` is the
/// end.
spec fn with_record(records: Seq<Record>, at: int, record: Record) -> Seq<Record> {
    if at < records.len() {
        records.update(at, record)
    } else {
        records.push(record)
    }
}

/// With distinct identifiers, the record at `i` is the one that the map shows
/// for its identifier.
proof fn lemma_record_shown(records: Seq<Record>, i: int)
    requires
        distinct(records),
        0 <= i < records.len(),
    ensures
        as_map(records).contains_key(records[i].guid@),
        as_map(records)[records[i].guid@] == records[i].data@,
{
    let guid = records[i].guid@;
    assert(held(records, guid));
    let p = place(records, guid);
    assert(p == i) by {
        if p < i {
            assert(records[p].guid@ != records[i].guid@);
        } else if i < p {
            assert(records[i].guid@ != records[p].guid@);
        }
    }
}

/// A record put in the place of the one with its identifier, or at the end
/// where there is none, shows in the map under that identifier and changes
/// nothing else.
proof fn lemma_put(before: Seq<Record>, at: int, record: Record)
    requires
        distinct(before),
        0 <= at <= before.len(),
        at < before.len() ==> before[at].guid@ == record.guid@,
        at == before.len() ==> !held(before, record.guid@),
    ensures
        distinct(with_record(before, at, record)),
        as_map(with_record(before, at, record)) == as_map(before).insert(
            record.guid@,
            record.data@,
        ),
{
    let after = with_record(before, at, record);
    let target = record.guid@;
    assert(distinct(after)) by {
        assert forall|i: int, j: int| 0 <= i < j < after.len() implies (#[trigger] after[i]).guid@
            != (#[trigger] after[j]).guid@ by {
            if at < before.len() {
                assert(before[i].guid@ != before[j].guid@);
            } else if j < before.len() {
                assert(before[i].guid@ != before[j].guid@);
            } else {
                assert(before[i].guid@ != target);
            }
        }
    }
    assert forall|guid: Seq<char>| #[trigger]
        held(after, guid) <==> (guid == target || held(before, guid)) by {
        if held(after, guid) && guid != target {
            let i = choose|i: int| 0 <= i < after.len() && (#[trigger] after[i]).guid@ == guid;
            assert(before[i].guid@ == guid);
        }
        if guid == target {
            assert(after[at].guid@ == guid);
        }
        if held(before, guid) {
            let i = choose|i: int| 0 <= i < before.len() && (#[trigger] before[i]).guid@ == guid;
            assert(after[i].guid@ == guid);
        }
    }
    assert forall|guid: Seq<char>| held(after, guid) implies #[trigger] as_map(after)[guid]
        == as_map(before).insert(target, record.data@)[guid] by {
        let i = place(after, guid);
        lemma_record_shown(after, i);
        if guid != target {
            assert(before[i].guid@ == guid);
            lemma_record_shown(before, i);
        }
    }
    assert(as_map(after) =~= as_map(before).insert(target, record.data@));
}

/// Taking the record at `at` away takes its identifier out of the map and
/// changes nothing else.
proof fn lemma_delete(before: Seq<Record>, at: int)
    requires
        distinct(before),
        0 <= at < before.len(),
    ensures
        distinct(before.remove(at)),
        as_map(before.remove(at)) == as_map(before).remove(before[at].guid@),
{
    let after = before.remove(at);
    let target = before[at].guid@;
    assert(distinct(after)) by {
        assert forall|i: int, j: int| 0 <= i < j < after.len() implies (#[trigger] after[i]).guid@
            != (#[trigger] after[j]).guid@ by {
            let bi = if i < at { i } else { i + 1 };
            let bj = if j < at { j } else { j + 1 };
            assert(before[bi].guid@ != before[bj].guid@);
        }
    }
    assert forall|guid: Seq<char>| #[trigger]
        held(after, guid) <==> (guid != target && held(before, guid)) by {
        if held(after, guid) {
            let i = choose|i: int| 0 <= i < after.len() && (#[trigger] after[i]).guid@ == guid;
            let b = if i < at { i } else { i + 1 };
            assert(before[b].guid@ == guid);
            if b < at {
                assert(before[b].guid@ != before[at].guid@);
            } else {
                assert(before[at].guid@ != before[b].guid@);
            }
        }
        if guid != target && held(before, guid) {
            let b = choose|i: int| 0 <= i < before.len() && (#[trigger] before[i]).guid@ == guid;
            let i = if b < at { b } else { b - 1 };
            assert(after[i].guid@ == guid);
        }
    }
    assert forall|guid: Seq<char>| held(after, guid) implies #[trigger] as_map(after)[guid]
        == as_map(before)[guid] by {
        let i = place(after, guid);
        lemma_record_shown(after, i);
        let b = if i < at { i } else { i + 1 };
        assert(before[b].guid@ == guid);
        lemma_record_shown(before, b);
    }
    assert(as_map(after) =~= as_map(before).remove(target));
}

impl View for RecordStore {
    type V = Records;

    closed spec fn view(&self) -> Records {
        as_map(self.records@)
    }
}

impl RecordStore {
    /// What holds of every store: no identifier has two records.
    #[verifier::type_invariant]
    spec fn well_formed(self) -> bool {
        distinct(self.records@)
    }

    /// A store without records.
    pub fn new() -> (store: Self)
        ensures
            store@ == Records::empty(),
    {
        let store = RecordStore { records: Vec::new() };
        assert(store@ =~= Records::empty());
        store
    }

    /// The index of the record of `guid`, or the number of records where it
    /// has none.
    fn find(&self, guid: &String) -> (at: usize)
        ensures
            at <= self.records@.len(),
            at < self.records@.len() ==> self.records@[at as int].guid@ == guid@,
            at == self.records@.len() ==> !held(self.records@, guid@),
    {
        let n = self.records.len();
        let mut i: usize = 0;
        while i < n
            invariant
                n == self.records@.len(),
                i <= n,
                forall|j: int| 0 <= j < i ==> (#[trigger] self.records@[j]).guid@ != guid@,
            decreases n - i,
        {
            if self.records[i].guid == *guid {
                return i;
            }
            i += 1;
        }
        i
    }

    /// The text kept for `guid`, or `None` where it has no record.
    pub fn text(&self, guid: &str) -> (text: Option<String>)
        ensures
            match text {
                Some(t) => self@.contains_key(guid@) && t@ == self@[guid@],
                None => !self@.contains_key(guid@),
            },
    {
        proof {
            use_type_invariant(self);
        }
        let key = guid.to_owned();
        let at = self.find(&key);
        if at < self.records.len() {
            proof {
                lemma_record_shown(self.records@, at as int);
            }
            Some(self.records[at].data.clone())
        } else {
            None
        }
    }

    /// Keeps `data` as the text of `guid`, in place of any earlier text.
    pub fn put(&mut self, guid: &str, data: String)
        ensures
            final(self)@ == old(self)@.insert(guid@, data@),
    {
        proof {
            use_type_invariant(&*self);
        }
        let key = guid.to_owned();
        let at = self.find(&key);
        let record = Record { guid: key, data };
        proof {
            lemma_put(self.records@, at as int, record);
        }
        let mut records: Vec<Record> = Vec::new();
        core::mem::swap(&mut records, &mut self.records);
        if at < records.len() {
            records.set(at, record);
        } else {
            records.push(record);
        }
        self.records = records;
    }

    /// Drops the record of `guid`, if it has one.
    pub fn delete(&mut self, guid: &str)
        ensures
            final(self)@ == old(self)@.remove(guid@),
    {
        proof {
            use_type_invariant(&*self);
        }
        let key = guid.to_owned();
        let at = self.find(&key);
        if at < self.records.len() {
            proof {
                lemma_delete(self.records@, at as int);
            }
            let mut records: Vec<Record> = Vec::new();
            core::mem::swap(&mut records, &mut self.records);
            records.remove(at);
            self.records = records;
        } else {
            assert(self@.remove(guid@) =~= self@);
        }
    }
}

} // verus!
