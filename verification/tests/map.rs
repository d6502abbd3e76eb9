use config_tree::{OrderedMap, Value};

fn text(s: &str) -> Value {
    Value::String(s.to_owned())
}

#[test]
fn a_new_map_is_empty() {
    let map = OrderedMap::new();
    assert_eq!(map.len(), 0);
    assert!(map.is_empty());
    assert!(!map.contains_key("a"));
    assert_eq!(map.get("a"), None);
    assert_eq!(map.get_index(0), None);
}

#[test]
fn insert_appends_new_keys_in_order() {
    let mut map = OrderedMap::new();
    assert_eq!(map.insert("b".to_owned(), text("1")), None);
    assert_eq!(map.insert("a".to_owned(), text("2")), None);
    assert_eq!(map.insert("c".to_owned(), text("3")), None);
    assert_eq!(map.len(), 3);
    assert!(!map.is_empty());
    assert_eq!(map.get_index(0), Some((&"b".to_owned(), &text("1"))));
    assert_eq!(map.get_index(1), Some((&"a".to_owned(), &text("2"))));
    assert_eq!(map.get_index(2), Some((&"c".to_owned(), &text("3"))));
    assert_eq!(map.get_index(3), None);
}

#[test]
fn insert_replaces_in_place_and_returns_the_former_value() {
    let mut map = OrderedMap::new();
    map.insert("b".to_owned(), text("1"));
    map.insert("a".to_owned(), text("2"));
    assert_eq!(map.insert("b".to_owned(), text("3")), Some(text("1")));
    assert_eq!(map.len(), 2);
    assert_eq!(map.get_index(0), Some((&"b".to_owned(), &text("3"))));
    assert_eq!(map.get_index(1), Some((&"a".to_owned(), &text("2"))));
    assert_eq!(map.get("b"), Some(&text("3")));
    assert_eq!(map.get("a"), Some(&text("2")));
    assert!(map.contains_key("a"));
    assert!(!map.contains_key("c"));
}

#[test]
fn get_mut_writes_through() {
    let mut map = OrderedMap::new();
    map.insert("a".to_owned(), text("1"));
    map.insert("b".to_owned(), text("2"));
    assert!(map.get_mut("c").is_none());
    *map.get_mut("a").unwrap() = text("changed");
    assert_eq!(map.get("a"), Some(&text("changed")));
    assert_eq!(map.get("b"), Some(&text("2")));
    assert_eq!(map.len(), 2);
}

#[test]
fn get_or_insert_finds_or_creates() {
    let mut map = OrderedMap::new();
    map.insert("a".to_owned(), text("1"));
    assert_eq!(*map.get_or_insert("a".to_owned(), text("unused")), text("1"));
    assert_eq!(map.len(), 1);
    assert_eq!(*map.get_or_insert("b".to_owned(), text("2")), text("2"));
    assert_eq!(map.len(), 2);
    *map.get_or_insert("c".to_owned(), text("3")) = text("4");
    assert_eq!(map.get_index(2), Some((&"c".to_owned(), &text("4"))));
}

#[test]
fn maps_are_equal_when_entries_and_order_agree() {
    let mut one = OrderedMap::new();
    one.insert("a".to_owned(), text("1"));
    one.insert("b".to_owned(), text("2"));
    let mut same = OrderedMap::new();
    same.insert("a".to_owned(), text("1"));
    same.insert("b".to_owned(), text("2"));
    let mut swapped = OrderedMap::new();
    swapped.insert("b".to_owned(), text("2"));
    swapped.insert("a".to_owned(), text("1"));
    assert_eq!(one, same);
    assert_ne!(one, swapped);
}

#[test]
fn a_value_is_text_or_a_node() {
    let mut leaf = text("v");
    assert!(!leaf.is_object());
    assert!(leaf.as_object().is_none());
    assert!(leaf.as_object_mut().is_none());

    let mut children = OrderedMap::new();
    children.insert("k".to_owned(), text("v"));
    let mut node = Value::Object(children.clone());
    assert!(node.is_object());
    assert_eq!(node.as_object(), Some(&children));
    node.as_object_mut().unwrap().insert("k2".to_owned(), text("v2"));
    assert_eq!(node.as_object().unwrap().len(), 2);
    assert_eq!(node.as_object().unwrap().get("k2"), Some(&text("v2")));
}

#[test]
fn a_clone_is_equal_and_independent() {
    let mut inner = OrderedMap::new();
    inner.insert("k".to_owned(), text("v"));
    let mut map = OrderedMap::new();
    map.insert("a".to_owned(), Value::Object(inner));
    map.insert("b".to_owned(), text("2"));
    let source = Value::Object(map);
    let mut copy = source.clone();
    assert_eq!(copy, source);
    copy.as_object_mut().unwrap().insert("b".to_owned(), text("3"));
    assert_ne!(copy, source);
    assert_eq!(source.as_object().unwrap().get("b"), Some(&text("2")));
}
