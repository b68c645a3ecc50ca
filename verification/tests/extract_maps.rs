use atomic_bomb_engine::extract_map::ExtractMap;
use serde_json::Value;

#[test]
fn insert_replaces_and_get_reads_back() {
    let mut map = ExtractMap::new();
    assert!(map.is_empty());
    map.insert("a".to_string(), Value::from(1));
    map.insert("b".to_string(), Value::from(2));
    map.insert("a".to_string(), Value::from(3));
    assert!(!map.is_empty());
    assert!(map.contains_key("a"));
    assert!(!map.contains_key("c"));
    assert_eq!(map.get("a"), Some(Value::from(3)));
    assert_eq!(map.get("b"), Some(Value::from(2)));
    assert_eq!(map.get("c"), None);
}

#[test]
fn extend_prefers_the_other_map() {
    let mut map = ExtractMap::new();
    map.insert("a".to_string(), Value::from(1));
    map.insert("b".to_string(), Value::from(2));
    let mut other = ExtractMap::new();
    other.insert("b".to_string(), Value::from(20));
    other.insert("c".to_string(), Value::from(30));
    map.extend(&other);
    assert_eq!(map.get("a"), Some(Value::from(1)));
    assert_eq!(map.get("b"), Some(Value::from(20)));
    assert_eq!(map.get("c"), Some(Value::from(30)));
    let copy = map.copy();
    assert_eq!(copy.get("b"), Some(Value::from(20)));
}

#[test]
fn object_has_its_members_in_key_order() {
    let mut map = ExtractMap::new();
    map.insert("b".to_string(), Value::from(2));
    map.insert("a".to_string(), Value::from("x"));
    assert_eq!(map.to_object().to_string(), "{\"a\":\"x\",\"b\":2}");
    assert_eq!(ExtractMap::new().to_object().to_string(), "{}");
}
