//! The order of the properties of a JSON object: ascending by key, the keys
//! compared as strings are, byte by byte in UTF-8.

use crate::json::{Entries, Properties};
use vstd::prelude::*;

verus! {

/// Whether the bytes `a` come before the bytes `b`: where they first differ
/// `a` has the smaller byte, or `a` ends there and `b` goes on.
pub open spec fn bytes_before(a: Seq<u8>, b: Seq<u8>) -> bool
    decreases a.len(),
{
    if b.len() == 0 {
        false
    } else if a.len() == 0 {
        true
    } else if a[0] != b[0] {
        a[0] < b[0]
    } else {
        bytes_before(a.drop_first(), b.drop_first())
    }
}

/// Whether the key `a` comes before the key `b`.
pub open spec fn key_before(a: Seq<char>, b: Seq<char>) -> bool {
    bytes_before(vstd::utf8::encode_utf8(a), vstd::utf8::encode_utf8(b))
}

/// Each of `es` comes before those after it.
pub open spec fn ascending(es: Entries) -> bool {
    forall|i: int, j: int|
        0 <= i < j < es.len() ==> key_before((#[trigger] es[i]).0, (#[trigger] es[j]).0)
}

/// `es` lists `p`: every property once and nothing else, in ascending order.
pub open spec fn lists(es: Entries, p: Properties) -> bool {
    &&& ascending(es)
    &&& forall|i: int| 0 <= i < es.len() ==> p.contains_pair((#[trigger] es[i]).0, es[i].1)
    &&& forall|key: Seq<char>| #[trigger]
        p.contains_key(key) ==> exists|i: int| 0 <= i < es.len() && (#[trigger] es[i]).0 == key
}

/// The properties `p` in the order in which an object hands them out.
pub open spec fn ordered(p: Properties) -> Entries {
    choose|es: Entries| lists(es, p)
}

/// No bytes come before themselves.
pub proof fn lemma_bytes_before_irreflexive(a: Seq<u8>)
    ensures
        !bytes_before(a, a),
    decreases a.len(),
{
    if a.len() > 0 {
        lemma_bytes_before_irreflexive(a.drop_first());
    }
}

/// What comes before bytes that come before others comes before those too.
pub proof fn lemma_bytes_before_transitive(a: Seq<u8>, b: Seq<u8>, c: Seq<u8>)
    requires
        bytes_before(a, b),
        bytes_before(b, c),
    ensures
        bytes_before(a, c),
    decreases a.len(),
{
    if a.len() > 0 && a[0] == b[0] && b[0] == c[0] {
        lemma_bytes_before_transitive(a.drop_first(), b.drop_first(), c.drop_first());
    }
}

/// No key comes twice in an ascending list.
pub proof fn lemma_ascending_distinct(es: Entries)
    requires
        ascending(es),
    ensures
        forall|i: int, j: int|
            0 <= i < j < es.len() ==> (#[trigger] es[i]).0 != (#[trigger] es[j]).0,
{
    assert forall|i: int, j: int| 0 <= i < j < es.len() implies (#[trigger] es[i]).0
        != (#[trigger] es[j]).0 by {
        assert(key_before(es[i].0, es[j].0));
        lemma_bytes_before_irreflexive(vstd::utf8::encode_utf8(es[i].0));
    }
}

/// Two lists of the same properties begin with the same property.
proof fn lemma_same_first(a: Entries, b: Entries, p: Properties)
    requires
        lists(a, p),
        lists(b, p),
        a.len() > 0,
    ensures
        b.len() > 0,
        a[0] == b[0],
{
    assert(p.contains_pair(a[0].0, a[0].1));
    let j = choose|j: int| 0 <= j < b.len() && (#[trigger] b[j]).0 == a[0].0;
    assert(p.contains_pair(b[0].0, b[0].1));
    let i = choose|i: int| 0 <= i < a.len() && (#[trigger] a[i]).0 == b[0].0;
    if j > 0 {
        // Then `b[0]` comes before `a[0]`, which comes no later than `a[i]`,
        // the property with the key of `b[0]`.
        assert(key_before(b[0].0, b[j].0));
        if i > 0 {
            assert(key_before(a[0].0, a[i].0));
            lemma_bytes_before_transitive(
                vstd::utf8::encode_utf8(a[0].0),
                vstd::utf8::encode_utf8(b[0].0),
                vstd::utf8::encode_utf8(a[0].0),
            );
        }
        lemma_bytes_before_irreflexive(vstd::utf8::encode_utf8(a[0].0));
    }
    assert(p.contains_pair(b[j].0, b[j].1));
}

/// Without its first property, a list lists what is left of the properties.
proof fn lemma_rest_lists(a: Entries, p: Properties)
    requires
        lists(a, p),
        a.len() > 0,
    ensures
        lists(a.drop_first(), p.remove(a[0].0)),
{
    let rest = a.drop_first();
    let left = p.remove(a[0].0);
    lemma_ascending_distinct(a);
    assert forall|i: int, j: int| 0 <= i < j < rest.len() implies key_before(
        (#[trigger] rest[i]).0,
        (#[trigger] rest[j]).0,
    ) by {
        assert(key_before(a[i + 1].0, a[j + 1].0));
    }
    assert forall|i: int| 0 <= i < rest.len() implies left.contains_pair(
        (#[trigger] rest[i]).0,
        rest[i].1,
    ) by {
        assert(p.contains_pair(a[i + 1].0, a[i + 1].1));
        assert(a[0].0 != a[i + 1].0);
    }
    assert forall|key: Seq<char>| #[trigger] left.contains_key(key) implies exists|i: int|
        0 <= i < rest.len() && (#[trigger] rest[i]).0 == key by {
        assert(p.contains_key(key));
        let i = choose|i: int| 0 <= i < a.len() && (#[trigger] a[i]).0 == key;
        assert(rest[i - 1].0 == key);
    }
}

/// The same properties have one list only.
pub proof fn lemma_list_unique(a: Entries, b: Entries, p: Properties)
    requires
        lists(a, p),
        lists(b, p),
    ensures
        a == b,
    decreases a.len(),
{
    if a.len() == 0 {
        if b.len() > 0 {
            lemma_same_first(b, a, p);
        }
    } else {
        lemma_same_first(a, b, p);
        lemma_rest_lists(a, p);
        lemma_rest_lists(b, p);
        lemma_list_unique(a.drop_first(), b.drop_first(), p.remove(a[0].0));
        assert(a =~= seq![a[0]] + a.drop_first());
        assert(b =~= seq![b[0]] + b.drop_first());
    }
    assert(a =~= b);
}

/// A list of `p` is `p` in order.
pub proof fn lemma_list_ordered(es: Entries, p: Properties)
    requires
        lists(es, p),
    ensures
        ordered(p) == es,
{
    lemma_list_unique(ordered(p), es, p);
}

} // verus!
