use serde_json::Value as JsonValue;
use webext_storage::api::{clear, clear_entries, get, pick, remove, remove_keys};
use webext_storage::quota::merge_entries;
use webext_storage::{
    Error, QuotaReason, RecordStore, StorageChanges, StorageValueChange, MAX_ITEMS, QUOTA_BYTES,
    QUOTA_BYTES_PER_ITEM,
};

fn text(text: &str) -> JsonValue {
    JsonValue::String(text.to_string())
}

fn num(n: i64) -> JsonValue {
    JsonValue::Number(serde_json::Number::from(n))
}

fn list(items: &[JsonValue]) -> JsonValue {
    JsonValue::Array(items.to_vec())
}

fn map_from(properties: &[(&str, JsonValue)]) -> serde_json::Map<String, JsonValue> {
    let mut map = serde_json::Map::new();
    for (key, value) in properties {
        map.insert((*key).to_string(), value.clone());
    }
    map
}

fn obj(properties: &[(&str, JsonValue)]) -> JsonValue {
    JsonValue::Object(map_from(properties))
}

fn owned(properties: &[(&str, JsonValue)]) -> Vec<(String, JsonValue)> {
    properties
        .iter()
        .map(|(key, value)| ((*key).to_string(), value.clone()))
        .collect()
}

fn changes_of(changes: &[(&str, Option<JsonValue>, Option<JsonValue>)]) -> StorageChanges {
    let mut all = StorageChanges::new();
    for (key, old_value, new_value) in changes {
        all.insert(
            (*key).to_string(),
            StorageValueChange {
                old_value: old_value.clone(),
                new_value: new_value.clone(),
            },
        );
    }
    all
}

fn store_with(guid: &str, value: JsonValue) -> RecordStore {
    let mut store = RecordStore::new();
    assert_eq!(
        webext_storage::api::set(&mut store, guid, value).map(|_| ()),
        Ok(())
    );
    store
}

#[test]
fn get_finds_nothing_for_an_extension_never_written() {
    let mut store = RecordStore::new();
    webext_storage::api::set(&mut store, "other", obj(&[("foo", text("bar"))])).unwrap();
    for keys in [
        JsonValue::Null,
        JsonValue::Bool(false),
        num(1),
        text("foo"),
        list(&[text("foo"), text("bar")]),
        obj(&[("foo", JsonValue::Null)]),
        obj(&[("foo", text("default")), ("bar", num(2))]),
    ] {
        assert_eq!(get(&store, "x", &keys), Ok(obj(&[])));
    }
    assert_eq!(store.text("x"), None);
}

#[test]
fn set_then_get_everything() {
    let mut store = RecordStore::new();
    assert_eq!(
        webext_storage::api::set(&mut store, "x", obj(&[("k", text("v"))])),
        Ok(changes_of(&[("k", None, Some(text("v")))]))
    );
    assert_eq!(get(&store, "x", &JsonValue::Null), Ok(obj(&[("k", text("v"))])));
    assert_eq!(store.text("x"), Some("{\"k\":\"v\"}".to_string()));
}

#[test]
fn set_keeps_what_it_does_not_name() {
    let mut store = store_with("x", obj(&[("a", num(1)), ("b", num(2))]));
    assert_eq!(
        webext_storage::api::set(&mut store, "x", obj(&[("b", num(3)), ("c", JsonValue::Null)])),
        Ok(changes_of(&[
            ("b", Some(num(2)), Some(num(3))),
            ("c", None, Some(JsonValue::Null)),
        ]))
    );
    assert_eq!(
        get(&store, "x", &JsonValue::Null),
        Ok(obj(&[("a", num(1)), ("b", num(3)), ("c", JsonValue::Null)]))
    );
    assert_eq!(
        store.text("x"),
        Some("{\"a\":1,\"b\":3,\"c\":null}".to_string())
    );
}

#[test]
fn set_reports_the_same_value_again_as_a_change() {
    let mut store = store_with("x", obj(&[("k", text("v"))]));
    assert_eq!(
        webext_storage::api::set(&mut store, "x", obj(&[("k", text("v"))])),
        Ok(changes_of(&[("k", Some(text("v")), Some(text("v")))]))
    );
}

#[test]
fn set_of_what_is_no_object_changes_nothing() {
    let mut store = RecordStore::new();
    for value in [
        JsonValue::Null,
        JsonValue::Bool(true),
        num(1),
        text("k"),
        list(&[obj(&[("k", text("v"))])]),
    ] {
        assert_eq!(
            webext_storage::api::set(&mut store, "x", value),
            Ok(StorageChanges::new())
        );
        assert_eq!(store.text("x"), None);
    }
    store.put("y", "not json".to_string());
    assert_eq!(
        webext_storage::api::set(&mut store, "y", JsonValue::Null),
        Ok(StorageChanges::new())
    );
    assert_eq!(store.text("y"), Some("not json".to_string()));
}

#[test]
fn set_of_an_empty_object_writes_the_record() {
    let mut store = RecordStore::new();
    assert_eq!(
        webext_storage::api::set(&mut store, "x", obj(&[])),
        Ok(StorageChanges::new())
    );
    assert_eq!(store.text("x"), Some("{}".to_string()));
}

#[test]
fn set_starts_afresh_over_a_record_that_is_no_object() {
    let mut store = RecordStore::new();
    store.put("x", "[\"old\"]".to_string());
    assert_eq!(
        webext_storage::api::set(&mut store, "x", obj(&[("k", text("v"))])),
        Ok(changes_of(&[("k", None, Some(text("v")))]))
    );
    assert_eq!(store.text("x"), Some("{\"k\":\"v\"}".to_string()));
}

#[test]
fn set_leaves_other_extensions_alone() {
    let mut store = store_with("x", obj(&[("k", text("v"))]));
    webext_storage::api::set(&mut store, "y", obj(&[("k", text("w"))])).unwrap();
    remove(&mut store, "y", &text("k")).unwrap();
    clear(&mut store, "y").unwrap();
    assert_eq!(get(&store, "x", &JsonValue::Null), Ok(obj(&[("k", text("v"))])));
    assert_eq!(store.text("x"), Some("{\"k\":\"v\"}".to_string()));
}

#[test]
fn max_items_counts_distinct_keys_only() {
    let mut store = RecordStore::new();
    let mut all = serde_json::Map::new();
    for i in 0..MAX_ITEMS {
        all.insert(format!("key-{}", i), num(i as i64));
    }
    let changes = webext_storage::api::set(&mut store, "x", JsonValue::Object(all.clone())).unwrap();
    assert_eq!(changes.len(), MAX_ITEMS);
    assert_eq!(get(&store, "x", &JsonValue::Null), Ok(JsonValue::Object(all.clone())));

    // One key more is refused, and nothing is written.
    let before = store.text("x");
    assert_eq!(
        webext_storage::api::set(&mut store, "x", obj(&[("one-more", num(0))])),
        Err(Error::QuotaError(QuotaReason::MaxItems))
    );
    assert_eq!(store.text("x"), before);

    // A key that is stored can still be set.
    assert_eq!(
        webext_storage::api::set(&mut store, "x", obj(&[("key-7", text("again"))])),
        Ok(changes_of(&[("key-7", Some(num(7)), Some(text("again")))]))
    );
    all.insert("key-7".to_string(), text("again"));
    assert_eq!(get(&store, "x", &JsonValue::Null), Ok(JsonValue::Object(all)));

    // Once a key has left, another finds room.
    remove(&mut store, "x", &text("key-0")).unwrap();
    assert_eq!(
        webext_storage::api::set(&mut store, "x", obj(&[("one-more", num(0))])),
        Ok(changes_of(&[("one-more", None, Some(num(0)))]))
    );
}

#[test]
fn max_items_in_one_call() {
    let mut store = RecordStore::new();
    let mut all = serde_json::Map::new();
    for i in 0..MAX_ITEMS + 1 {
        all.insert(format!("key-{}", i), num(i as i64));
    }
    assert_eq!(
        webext_storage::api::set(&mut store, "x", JsonValue::Object(all)),
        Err(Error::QuotaError(QuotaReason::MaxItems))
    );
    assert_eq!(store.text("x"), None);
}

#[test]
fn item_bytes_bound_is_exact() {
    let mut store = RecordStore::new();
    // One byte of key, two quotes, and the characters of the string.
    let fits = "x".repeat(QUOTA_BYTES_PER_ITEM - 1 - 1 - 2);
    assert_eq!(1 + 2 + fits.len(), 8_191);
    assert!(webext_storage::api::set(&mut store, "x", obj(&[("k", text(&fits))])).is_ok());

    let over = "x".repeat(QUOTA_BYTES_PER_ITEM - 1 - 2);
    assert_eq!(1 + 2 + over.len(), 8_192);
    let before = store.text("x");
    assert_eq!(
        webext_storage::api::set(&mut store, "x", obj(&[("k", text(&over))])),
        Err(Error::QuotaError(QuotaReason::ItemBytes))
    );
    assert_eq!(store.text("x"), before);
}

#[test]
fn item_bytes_count_bytes_not_characters() {
    let mut store = RecordStore::new();
    // Each of these characters takes two bytes, in the key as in the value.
    let key = "\u{e9}".repeat(10);
    let fits = "\u{e9}".repeat((QUOTA_BYTES_PER_ITEM - 1 - 20 - 2) / 2);
    assert_eq!(20 + 2 + fits.len(), 8_190);
    assert!(webext_storage::api::set(&mut store, "x", obj(&[(&key, text(&fits))])).is_ok());
    let over = "\u{e9}".repeat((QUOTA_BYTES_PER_ITEM - 20 - 2) / 2);
    assert_eq!(20 + 2 + over.len(), 8_192);
    assert_eq!(
        webext_storage::api::set(&mut store, "x", obj(&[(&key, text(&over))])),
        Err(Error::QuotaError(QuotaReason::ItemBytes))
    );
}

#[test]
fn item_bytes_count_the_text_of_any_value() {
    let mut store = RecordStore::new();
    // An array of n ones writes as 2n + 1 bytes.
    let fits = list(&vec![num(1); 4_094]);
    assert_eq!(2 + fits.to_string().len(), 8_191);
    assert!(webext_storage::api::set(&mut store, "x", obj(&[("kk", fits)])).is_ok());
    let over = list(&vec![num(1); 4_094]);
    assert_eq!(3 + over.to_string().len(), 8_192);
    assert_eq!(
        webext_storage::api::set(&mut store, "x", obj(&[("kkk", over)])),
        Err(Error::QuotaError(QuotaReason::ItemBytes))
    );
}

#[test]
fn a_long_key_alone_is_over_the_item_bound() {
    let mut store = RecordStore::new();
    let key = "k".repeat(QUOTA_BYTES_PER_ITEM);
    assert_eq!(
        webext_storage::api::set(&mut store, "x", obj(&[(&key, JsonValue::Null)])),
        Err(Error::QuotaError(QuotaReason::ItemBytes))
    );
    let key = "k".repeat(QUOTA_BYTES_PER_ITEM - 4);
    assert_eq!(
        webext_storage::api::set(&mut store, "x", obj(&[(&key, JsonValue::Null)])),
        Err(Error::QuotaError(QuotaReason::ItemBytes))
    );
    let key = "k".repeat(QUOTA_BYTES_PER_ITEM - 5);
    assert!(webext_storage::api::set(&mut store, "x", obj(&[(&key, JsonValue::Null)])).is_ok());
}

#[test]
fn max_items_is_checked_before_item_bytes() {
    let mut store = RecordStore::new();
    let mut all = serde_json::Map::new();
    for i in 0..MAX_ITEMS {
        all.insert(format!("key-{}", i), num(i as i64));
    }
    webext_storage::api::set(&mut store, "x", JsonValue::Object(all)).unwrap();
    let over = "x".repeat(QUOTA_BYTES_PER_ITEM);
    assert_eq!(
        webext_storage::api::set(&mut store, "x", obj(&[("new", text(&over))])),
        Err(Error::QuotaError(QuotaReason::MaxItems))
    );
    assert_eq!(
        webext_storage::api::set(&mut store, "x", obj(&[("key-1", text(&over))])),
        Err(Error::QuotaError(QuotaReason::ItemBytes))
    );
}

fn thirteen_items(last: usize) -> JsonValue {
    // Twelve values of 8,000 characters and one of `last`, under keys of three
    // bytes: the text takes 118 bytes more than the characters of the values.
    let mut all = serde_json::Map::new();
    for i in 0..12 {
        all.insert(format!("k{:02}", i), text(&"x".repeat(8_000)));
    }
    all.insert("k12".to_string(), text(&"x".repeat(last)));
    JsonValue::Object(all)
}

#[test]
fn total_bytes_bound_is_exact() {
    let mut store = RecordStore::new();
    let fits = thirteen_items(QUOTA_BYTES - 118 - 96_000);
    assert_eq!(fits.to_string().len(), 102_400);
    assert!(webext_storage::api::set(&mut store, "x", fits.clone()).is_ok());
    assert_eq!(store.text("x").map(|t| t.len()), Some(102_400));

    let mut other = RecordStore::new();
    let over = thirteen_items(QUOTA_BYTES - 118 - 96_000 + 1);
    assert_eq!(over.to_string().len(), 102_401);
    assert_eq!(
        webext_storage::api::set(&mut other, "x", over),
        Err(Error::QuotaError(QuotaReason::TotalBytes))
    );
    assert_eq!(other.text("x"), None);
}

#[test]
fn total_bytes_count_what_is_stored_already() {
    let mut store = store_with("x", thirteen_items(6_000));
    let before = store.text("x");
    assert_eq!(
        webext_storage::api::set(&mut store, "x", obj(&[("more", text(&"x".repeat(1_000)))])),
        Err(Error::QuotaError(QuotaReason::TotalBytes))
    );
    assert_eq!(store.text("x"), before);
    assert_eq!(get(&store, "x", &text("more")), Ok(obj(&[])));
}

#[test]
fn a_refused_set_writes_none_of_its_keys() {
    let mut store = store_with("x", obj(&[("a", num(1))]));
    let over = "x".repeat(QUOTA_BYTES_PER_ITEM);
    assert_eq!(
        webext_storage::api::set(
            &mut store,
            "x",
            obj(&[("a", num(2)), ("b", num(3)), ("z", text(&over))])
        ),
        Err(Error::QuotaError(QuotaReason::ItemBytes))
    );
    assert_eq!(store.text("x"), Some("{\"a\":1}".to_string()));
    assert_eq!(get(&store, "x", &JsonValue::Null), Ok(obj(&[("a", num(1))])));
}

#[test]
fn get_tells_absent_from_null() {
    let store = store_with("x", obj(&[("stored", text("v")), ("null", JsonValue::Null)]));
    // Absent without a default: left out.
    assert_eq!(get(&store, "x", &text("k")), Ok(obj(&[])));
    assert_eq!(get(&store, "x", &list(&[text("k")])), Ok(obj(&[])));
    // Absent with a null default: there, as null.
    assert_eq!(
        get(&store, "x", &obj(&[("k", JsonValue::Null)])),
        Ok(obj(&[("k", JsonValue::Null)]))
    );
    // Stored as null: there, as null.
    assert_eq!(
        get(&store, "x", &text("null")),
        Ok(obj(&[("null", JsonValue::Null)]))
    );
    assert_eq!(
        get(&store, "x", &obj(&[("null", text("default"))])),
        Ok(obj(&[("null", JsonValue::Null)]))
    );
}

#[test]
fn get_prefers_the_stored_value_to_the_default() {
    let store = store_with("x", obj(&[("k", text("stored"))]));
    for default in [JsonValue::Null, text("default"), num(1), obj(&[])] {
        assert_eq!(
            get(&store, "x", &obj(&[("k", default)])),
            Ok(obj(&[("k", text("stored"))]))
        );
    }
    assert_eq!(
        get(&store, "x", &obj(&[("k", num(0)), ("other", num(1))])),
        Ok(obj(&[("k", text("stored")), ("other", num(1))]))
    );
}

#[test]
fn get_with_a_key_named_twice() {
    let store = store_with("x", obj(&[("a", num(1)), ("b", num(2))]));
    assert_eq!(
        get(&store, "x", &list(&[text("a"), text("a"), text("c"), text("b")])),
        Ok(obj(&[("a", num(1)), ("b", num(2))]))
    );
}

#[test]
fn get_with_other_specifications_selects_nothing() {
    let store = store_with("x", obj(&[("a", num(1))]));
    for keys in [JsonValue::Bool(true), num(1), list(&[]), obj(&[]), list(&[num(1)])] {
        assert_eq!(get(&store, "x", &keys), Ok(obj(&[])));
    }
}

#[test]
fn get_does_not_change_the_store() {
    let store = store_with("x", obj(&[("a", num(1))]));
    let before = store.text("x");
    let _ = get(&store, "x", &text("a"));
    let _ = get(&store, "x", &JsonValue::Null);
    assert_eq!(store.text("x"), before);
}

#[test]
fn get_reads_a_record_that_is_no_object_as_empty() {
    let mut store = RecordStore::new();
    store.put("x", "{\"k\":".to_string());
    assert_eq!(get(&store, "x", &JsonValue::Null), Ok(obj(&[])));
    assert_eq!(
        get(&store, "x", &obj(&[("k", text("default"))])),
        Ok(obj(&[]))
    );
}

#[test]
fn remove_of_a_missing_key_changes_nothing() {
    let mut store = RecordStore::new();
    store.put("x", " {\"k\": \"v\"} ".to_string());
    assert_eq!(remove(&mut store, "x", &text("missing")), Ok(StorageChanges::new()));
    assert_eq!(
        remove(&mut store, "x", &list(&[text("a"), text("b")])),
        Ok(StorageChanges::new())
    );
    assert_eq!(remove(&mut store, "x", &JsonValue::Null), Ok(StorageChanges::new()));
    assert_eq!(remove(&mut store, "x", &num(1)), Ok(StorageChanges::new()));
    // Not even rewritten.
    assert_eq!(store.text("x"), Some(" {\"k\": \"v\"} ".to_string()));
    // And no record appears where there was none.
    assert_eq!(remove(&mut store, "y", &text("k")), Ok(StorageChanges::new()));
    assert_eq!(store.text("y"), None);
}

#[test]
fn remove_reports_what_it_took() {
    let mut store = store_with("x", obj(&[("a", num(1)), ("b", num(2)), ("c", num(3))]));
    assert_eq!(
        remove(&mut store, "x", &list(&[text("c"), text("missing"), text("a"), text("c")])),
        Ok(changes_of(&[("c", Some(num(3)), None), ("a", Some(num(1)), None)]))
    );
    assert_eq!(get(&store, "x", &JsonValue::Null), Ok(obj(&[("b", num(2))])));
    assert_eq!(store.text("x"), Some("{\"b\":2}".to_string()));
}

#[test]
fn remove_ignores_defaults() {
    let mut store = store_with("x", obj(&[("a", num(1)), ("b", num(2))]));
    assert_eq!(
        remove(&mut store, "x", &obj(&[("a", text("default")), ("z", num(0))])),
        Ok(changes_of(&[("a", Some(num(1)), None)]))
    );
    assert_eq!(get(&store, "x", &JsonValue::Null), Ok(obj(&[("b", num(2))])));
}

#[test]
fn remove_of_the_last_key_leaves_an_empty_record() {
    let mut store = store_with("x", obj(&[("k", text("v"))]));
    assert_eq!(
        remove(&mut store, "x", &text("k")),
        Ok(changes_of(&[("k", Some(text("v")), None)]))
    );
    assert_eq!(store.text("x"), Some("{}".to_string()));
}

#[test]
fn remove_refuses_to_save_what_is_still_over_the_quota() {
    let mut store = RecordStore::new();
    let mut all = serde_json::Map::new();
    all.insert("k".to_string(), text(&"x".repeat(QUOTA_BYTES)));
    all.insert("small".to_string(), num(1));
    let stored = JsonValue::Object(all).to_string();
    store.put("x", stored.clone());
    assert_eq!(
        remove(&mut store, "x", &text("small")),
        Err(Error::QuotaError(QuotaReason::TotalBytes))
    );
    assert_eq!(store.text("x"), Some(stored));
}

#[test]
fn clear_drops_the_record_and_reports_every_key() {
    let mut store = store_with("x", obj(&[("b", num(2)), ("a", JsonValue::Null)]));
    assert_eq!(
        clear(&mut store, "x"),
        Ok(changes_of(&[("a", Some(JsonValue::Null), None), ("b", Some(num(2)), None)]))
    );
    assert_eq!(store.text("x"), None);
    assert_eq!(get(&store, "x", &JsonValue::Null), Ok(obj(&[])));
}

#[test]
fn clear_of_nothing_changes_nothing() {
    let mut store = RecordStore::new();
    assert_eq!(clear(&mut store, "x"), Ok(StorageChanges::new()));
    assert_eq!(store.text("x"), None);
    // Text that is no object counts as no record: it is left where it is.
    store.put("x", "[1]".to_string());
    assert_eq!(clear(&mut store, "x"), Ok(StorageChanges::new()));
    assert_eq!(store.text("x"), Some("[1]".to_string()));
}

#[test]
fn clear_of_an_empty_record_drops_it() {
    let mut store = store_with("x", obj(&[("k", num(1))]));
    remove(&mut store, "x", &text("k")).unwrap();
    assert_eq!(store.text("x"), Some("{}".to_string()));
    assert_eq!(clear(&mut store, "x"), Ok(StorageChanges::new()));
    assert_eq!(store.text("x"), None);
}

#[test]
fn set_after_clear_starts_from_nothing() {
    let mut store = store_with("x", obj(&[("old", num(1)), ("k", num(2))]));
    clear(&mut store, "x").unwrap();
    assert_eq!(
        webext_storage::api::set(&mut store, "x", obj(&[("k", num(3))])),
        Ok(changes_of(&[("k", None, Some(num(3)))]))
    );
    assert_eq!(get(&store, "x", &JsonValue::Null), Ok(obj(&[("k", num(3))])));
    assert_eq!(
        get(&store, "x", &obj(&[("old", text("default"))])),
        Ok(obj(&[("old", text("default"))]))
    );
}

#[test]
fn merge_entries_takes_the_entries_in_the_order_given() {
    let current = map_from(&[("a", num(1)), ("b", num(2))]);
    let merged = merge_entries(
        current,
        owned(&[("z", num(26)), ("a", text("new")), ("z", num(0))]),
    );
    assert_eq!(
        merged,
        Ok((
            map_from(&[("a", text("new")), ("b", num(2)), ("z", num(0))]),
            changes_of(&[
                ("z", Some(num(26)), Some(num(0))),
                ("a", Some(num(1)), Some(text("new"))),
            ])
        ))
    );
}

#[test]
fn merge_entries_stops_at_the_first_refusal() {
    let over = text(&"x".repeat(QUOTA_BYTES_PER_ITEM));
    let mut full = serde_json::Map::new();
    for i in 0..MAX_ITEMS {
        full.insert(format!("key-{}", i), num(i as i64));
    }
    assert_eq!(
        merge_entries(full.clone(), owned(&[("key-0", over.clone()), ("new", num(1))])),
        Err(QuotaReason::ItemBytes)
    );
    assert_eq!(
        merge_entries(full, owned(&[("new", num(1)), ("key-0", over)])),
        Err(QuotaReason::MaxItems)
    );
    assert_eq!(
        merge_entries(serde_json::Map::new(), vec![]),
        Ok((serde_json::Map::new(), StorageChanges::new()))
    );
}

#[test]
fn pick_counts_a_key_as_stored_once() {
    let existing = map_from(&[("a", num(1)), ("b", num(2))]);
    let selection = vec![
        ("a".to_string(), None),
        ("a".to_string(), Some(text("default"))),
        ("c".to_string(), None),
        ("d".to_string(), Some(JsonValue::Null)),
    ];
    assert_eq!(
        pick(existing, selection),
        map_from(&[("a", text("default")), ("d", JsonValue::Null)])
    );
    assert_eq!(
        pick(map_from(&[("a", num(1))]), vec![("a".to_string(), Some(num(0)))]),
        map_from(&[("a", num(1))])
    );
    assert_eq!(pick(map_from(&[("a", num(1))]), vec![]), serde_json::Map::new());
}

#[test]
fn remove_keys_takes_each_stored_key_once() {
    let existing = map_from(&[("a", num(1)), ("b", num(2)), ("c", num(3))]);
    let selection = vec![
        ("b".to_string(), Some(text("ignored"))),
        ("x".to_string(), None),
        ("b".to_string(), None),
        ("a".to_string(), None),
    ];
    assert_eq!(
        remove_keys(existing, selection),
        (
            map_from(&[("c", num(3))]),
            changes_of(&[("b", Some(num(2)), None), ("a", Some(num(1)), None)])
        )
    );
    assert_eq!(
        remove_keys(map_from(&[("a", num(1))]), vec![]),
        (map_from(&[("a", num(1))]), StorageChanges::new())
    );
}

#[test]
fn drop_entries_reports_each_entry() {
    assert_eq!(
        clear_entries(owned(&[("b", num(2)), ("a", JsonValue::Null)])),
        changes_of(&[("b", Some(num(2)), None), ("a", Some(JsonValue::Null), None)])
    );
    assert_eq!(clear_entries(vec![]), StorageChanges::new());
    // An entry under a key that came before takes the place of the earlier one.
    assert_eq!(
        clear_entries(owned(&[("a", num(1)), ("b", num(2)), ("a", num(3))])),
        changes_of(&[("a", Some(num(3)), None), ("b", Some(num(2)), None)])
    );
}

#[test]
fn changes_come_in_the_order_of_the_keys() {
    let mut store = RecordStore::new();
    let changes = webext_storage::api::set(
        &mut store,
        "x",
        obj(&[("b", num(1)), ("\u{e9}", num(2)), ("a", num(3)), ("B", num(4))]),
    )
    .unwrap();
    let keys: Vec<&str> = changes.entries().iter().map(|(key, _)| key.as_str()).collect();
    assert_eq!(keys, vec!["B", "a", "b", "\u{e9}"]);

    let changes = clear(&mut store, "x").unwrap();
    let keys: Vec<&str> = changes.entries().iter().map(|(key, _)| key.as_str()).collect();
    assert_eq!(keys, vec!["B", "a", "b", "\u{e9}"]);
}

#[test]
fn the_first_key_in_order_decides_which_quota_is_reported() {
    let mut full = serde_json::Map::new();
    for i in 0..MAX_ITEMS {
        full.insert(format!("key-{}", i), num(i as i64));
    }
    let over = text(&"x".repeat(QUOTA_BYTES_PER_ITEM));
    let mut store = RecordStore::new();
    webext_storage::api::set(&mut store, "x", JsonValue::Object(full)).unwrap();
    // "a-new" comes before "key-0": the item count is hit first.
    assert_eq!(
        webext_storage::api::set(
            &mut store,
            "x",
            obj(&[("key-0", over.clone()), ("a-new", num(0))])
        ),
        Err(Error::QuotaError(QuotaReason::MaxItems))
    );
    // "z-new" comes after "key-0": the item size is hit first.
    assert_eq!(
        webext_storage::api::set(&mut store, "x", obj(&[("key-0", over), ("z-new", num(0))])),
        Err(Error::QuotaError(QuotaReason::ItemBytes))
    );
}
