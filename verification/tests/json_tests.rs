use chron::hashing::json_hash;
use chron::json::{canonicalize, serialize, str_bytes_lt, str_eq, JsonValue};

fn obj(entries: Vec<(&str, JsonValue)>) -> JsonValue {
    JsonValue::Obj(
        entries.into_iter().map(|(k, v)| (String::from(k), v)).collect(),
    )
}

#[test]
fn key_order_does_not_change_the_canonical_bytes() {
    let a = obj(vec![
        ("b", JsonValue::Num(String::from("2"))),
        ("a", JsonValue::Num(String::from("1"))),
        ("c", obj(vec![
            ("y", JsonValue::Bool(true)),
            ("x", JsonValue::Null),
        ])),
    ]);
    let b = obj(vec![
        ("c", obj(vec![
            ("x", JsonValue::Null),
            ("y", JsonValue::Bool(true)),
        ])),
        ("a", JsonValue::Num(String::from("1"))),
        ("b", JsonValue::Num(String::from("2"))),
    ]);
    let ca = canonicalize(a);
    let cb = canonicalize(b);
    assert_eq!(serialize(&ca), serialize(&cb));
}

#[test]
fn content_hash_is_deterministic_across_key_permutations() {
    let a = obj(vec![
        ("name", JsonValue::Str(String::from("x"))),
        ("score", JsonValue::Num(String::from("10"))),
    ]);
    let b = obj(vec![
        ("score", JsonValue::Num(String::from("10"))),
        ("name", JsonValue::Str(String::from("x"))),
    ]);
    let (ha, _) = json_hash(a);
    let (hb, _) = json_hash(b);
    assert_eq!(ha, hb);
}

#[test]
fn different_content_hashes_differently() {
    let a = obj(vec![("v", JsonValue::Num(String::from("1")))]);
    let b = obj(vec![("v", JsonValue::Num(String::from("2")))]);
    let (ha, _) = json_hash(a);
    let (hb, _) = json_hash(b);
    assert_ne!(ha, hb);
}

#[test]
fn canonical_serialization_sorts_keys_and_keeps_values() {
    let v = obj(vec![
        ("b", JsonValue::Bool(false)),
        ("a", JsonValue::Arr(vec![
            JsonValue::Num(String::from("1")),
            JsonValue::Str(String::from("two")),
            JsonValue::Null,
        ])),
    ]);
    let c = canonicalize(v);
    let bytes = serialize(&c);
    assert_eq!(
        String::from_utf8(bytes).unwrap(),
        "{\"a\":[1,\"two\",null],\"b\":false}"
    );
}

#[test]
fn string_escapes_are_emitted() {
    let v = JsonValue::Str(String::from("a\"b\\c\nd\te\u{1}"));
    let bytes = serialize(&v);
    assert_eq!(
        String::from_utf8(bytes).unwrap(),
        "\"a\\\"b\\\\c\\nd\\te\\u0001\""
    );
}

#[test]
fn byte_order_comparison_is_strict() {
    assert!(str_bytes_lt("abc", "abd"));
    assert!(str_bytes_lt("ab", "abc"));
    assert!(!str_bytes_lt("abc", "abc"));
    assert!(!str_bytes_lt("b", "abc"));
}

#[test]
fn string_equality_goes_by_characters() {
    assert!(str_eq("hello", "hello"));
    assert!(!str_eq("hello", "hellp"));
    assert!(!str_eq("hello", "hell"));
    assert!(str_eq("", ""));
}
