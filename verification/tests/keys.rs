use serde_json::Value as JsonValue;
use webext_storage::keys::{get_keys, select_keys};
use webext_storage::JsonShape;

fn text_of(text: &str) -> JsonValue {
    JsonValue::String(text.to_string())
}

fn number(n: i64) -> JsonValue {
    JsonValue::Number(serde_json::Number::from(n))
}

fn object_of(properties: &[(&str, JsonValue)]) -> JsonValue {
    let mut map = serde_json::Map::new();
    for (key, value) in properties {
        map.insert((*key).to_string(), value.clone());
    }
    JsonValue::Object(map)
}

#[test]
fn a_string_selects_itself() {
    assert_eq!(get_keys(&text_of("foo")), vec![("foo".to_string(), None)]);
    assert_eq!(get_keys(&text_of("")), vec![("".to_string(), None)]);
}

#[test]
fn an_array_selects_its_strings_in_order() {
    let keys = JsonValue::Array(vec![text_of("b"), text_of("a"), text_of("c")]);
    assert_eq!(
        get_keys(&keys),
        vec![
            ("b".to_string(), None),
            ("a".to_string(), None),
            ("c".to_string(), None)
        ]
    );
}

#[test]
fn an_array_drops_what_is_no_string_and_keeps_repeats() {
    let keys = JsonValue::Array(vec![
        text_of("a"),
        number(1),
        JsonValue::Null,
        text_of("a"),
        JsonValue::Bool(true),
        JsonValue::Array(vec![text_of("nested")]),
        object_of(&[("k", text_of("v"))]),
        text_of("b"),
    ]);
    assert_eq!(
        get_keys(&keys),
        vec![
            ("a".to_string(), None),
            ("a".to_string(), None),
            ("b".to_string(), None)
        ]
    );
    assert_eq!(get_keys(&JsonValue::Array(vec![])), vec![]);
    assert_eq!(get_keys(&JsonValue::Array(vec![number(1)])), vec![]);
}

#[test]
fn an_object_selects_its_keys_with_their_values_as_defaults() {
    let keys = object_of(&[
        ("foo", JsonValue::Null),
        ("bar", text_of("default")),
        ("baz", number(3)),
    ]);
    assert_eq!(
        get_keys(&keys),
        vec![
            ("bar".to_string(), Some(text_of("default"))),
            ("baz".to_string(), Some(number(3))),
            ("foo".to_string(), Some(JsonValue::Null)),
        ]
    );
    assert_eq!(get_keys(&object_of(&[])), vec![]);
}

#[test]
fn other_specifications_select_nothing() {
    assert_eq!(get_keys(&JsonValue::Null), vec![]);
    assert_eq!(get_keys(&JsonValue::Bool(true)), vec![]);
    assert_eq!(get_keys(&JsonValue::Bool(false)), vec![]);
    assert_eq!(get_keys(&number(7)), vec![]);
}

#[test]
fn get_keys_leaves_the_specification_as_it_was() {
    let keys = object_of(&[("foo", text_of("default"))]);
    let before = keys.clone();
    let _ = get_keys(&keys);
    assert_eq!(keys, before);
}

#[test]
fn select_keys_reads_each_shape() {
    assert_eq!(
        select_keys(JsonShape::String("foo".to_string())),
        vec![("foo".to_string(), None)]
    );
    assert_eq!(
        select_keys(JsonShape::Array(vec![number(1), text_of("a")])),
        vec![("a".to_string(), None)]
    );
    let mut defaults = serde_json::Map::new();
    defaults.insert("k".to_string(), JsonValue::Null);
    assert_eq!(
        select_keys(JsonShape::Object(defaults)),
        vec![("k".to_string(), Some(JsonValue::Null))]
    );
    assert_eq!(select_keys(JsonShape::Null), vec![]);
    assert_eq!(select_keys(JsonShape::Bool(true)), vec![]);
    assert_eq!(select_keys(JsonShape::Number), vec![]);
}

#[test]
fn an_object_hands_out_its_keys_in_the_order_of_their_bytes() {
    let keys = object_of(&[
        ("z", number(1)),
        ("\u{e9}", number(2)),
        ("aa", number(3)),
        ("B", number(4)),
        ("a", number(5)),
        ("", number(6)),
        ("\u{1f600}", number(7)),
        ("\u{65e5}", number(8)),
    ]);
    let selected: Vec<String> = get_keys(&keys).into_iter().map(|(key, _)| key).collect();
    assert_eq!(
        selected,
        vec!["", "B", "a", "aa", "z", "\u{e9}", "\u{65e5}", "\u{1f600}"]
    );
}
