use nemo::cbor::{encode, Value};
use nemo::display::{load_display, DisplayPrefs};
use nemo::error::CoreError;

fn row2(a: Value, b: Value) -> Value {
    Value::Array(vec![a, b])
}

fn text(s: &str) -> Value {
    Value::Text(s.to_string())
}

#[test]
fn display_settings_roundtrip_in_key_order() {
    let mut d = DisplayPrefs::new();
    d.set_nickname("cc".to_string(), "Carol".to_string());
    d.set_nickname("a".to_string(), "Alice".to_string());
    d.set_nickname("ab".to_string(), "Abe".to_string());
    d.set_disappear("zz".to_string(), 60);
    d.set_disappear("b".to_string(), 3600);
    let keys: Vec<&str> = d.nicknames.iter().map(|(k, _)| k.as_str()).collect();
    assert_eq!(keys, vec!["a", "ab", "cc"]);
    let bytes = d.save_display();
    let back = load_display(Some(&bytes)).unwrap();
    assert_eq!(back.nicknames, d.nicknames);
    assert_eq!(back.disappear, vec![("b".to_string(), 3600), ("zz".to_string(), 60)]);
}

#[test]
fn nickname_is_replaced() {
    let mut d = DisplayPrefs::new();
    d.set_nickname("p".to_string(), "one".to_string());
    d.set_nickname("p".to_string(), "two".to_string());
    assert_eq!(d.nicknames, vec![("p".to_string(), "two".to_string())]);
}

#[test]
fn nothing_stored_reads_as_empty() {
    let d = load_display(None).unwrap();
    assert!(d.nicknames.is_empty());
    assert!(d.disappear.is_empty());
}

#[test]
fn stored_form_is_version_one_map() {
    let mut d = DisplayPrefs::new();
    d.set_nickname("k".to_string(), "v".to_string());
    d.set_disappear("k".to_string(), 5);
    let expected = encode(&Value::Dict(vec![
        (0, Value::Uint(1)),
        (1, Value::Array(vec![row2(text("k"), text("v"))])),
        (2, Value::Array(vec![row2(text("k"), Value::Uint(5))])),
    ]));
    assert_eq!(d.save_display(), expected);
}

#[test]
fn later_row_replaces_earlier() {
    let bytes = encode(&Value::Dict(vec![
        (0, Value::Uint(1)),
        (1, Value::Array(vec![row2(text("x"), text("first")), row2(text("a"), text("A")), row2(text("x"), text("second"))])),
        (2, Value::Array(vec![])),
    ]));
    let d = load_display(Some(&bytes)).unwrap();
    assert_eq!(
        d.nicknames,
        vec![("a".to_string(), "A".to_string()), ("x".to_string(), "second".to_string())]
    );
}

#[test]
fn corrupt_display_is_refused() {
    let wrong_version = encode(&Value::Dict(vec![
        (0, Value::Uint(2)),
        (1, Value::Array(vec![])),
        (2, Value::Array(vec![])),
    ]));
    assert!(matches!(load_display(Some(&wrong_version)), Err(CoreError::VaultCorrupt)));
    let bad_row = encode(&Value::Dict(vec![
        (0, Value::Uint(1)),
        (1, Value::Array(vec![row2(text("x"), Value::Uint(1))])),
        (2, Value::Array(vec![])),
    ]));
    assert!(matches!(load_display(Some(&bad_row)), Err(CoreError::VaultCorrupt)));
    let missing = encode(&Value::Dict(vec![(0, Value::Uint(1)), (1, Value::Array(vec![]))]));
    assert!(matches!(load_display(Some(&missing)), Err(CoreError::VaultCorrupt)));
    assert!(matches!(load_display(Some(&[0xff, 0x00])), Err(CoreError::VaultCorrupt)));
}
