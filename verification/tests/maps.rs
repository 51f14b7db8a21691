use tindalwic::{Comment, Keyed, KeyedMap, Value};

fn keyed<'a>(key: &'a str, text: &'a str) -> Keyed<'a> {
    Keyed::from(key, Value::text(text)).unwrap()
}

fn keys_of<'a>(map: &KeyedMap<'a>) -> Vec<&'a str> {
    map.as_slice().iter().map(|keyed| keyed.key.as_str()).collect()
}

fn text_of(value: &Value) -> String {
    match value {
        Value::Text(text) => text.to_string(),
        _ => unreachable!(),
    }
}

#[test]
fn new_map_is_empty() {
    let map = KeyedMap::new();
    assert_eq!(map.len(), 0);
    assert!(map.get("anything").is_none());
    assert!(map.get("").is_none());
    assert!(map.as_slice().is_empty());
}

#[test]
fn map_keeps_insertion_order() {
    let mut map = KeyedMap::new();
    map.insert(keyed("charlie", "3"));
    map.insert(keyed("alpha", "1"));
    map.insert(keyed("bravo", "2"));
    assert_eq!(keys_of(&map), vec!["charlie", "alpha", "bravo"]);
    assert_eq!(map.len(), 3);
    map.insert(keyed("charlie", "updated"));
    assert_eq!(keys_of(&map), vec!["charlie", "alpha", "bravo"]);
    assert_eq!(map.len(), 3);
    assert_eq!(text_of(map.get("charlie").unwrap()), "updated");
    assert_eq!(text_of(map.get("alpha").unwrap()), "1");
    assert_eq!(text_of(map.get("bravo").unwrap()), "2");
    assert!(map.get("delta").is_none());
}

#[test]
fn map_finds_keys_by_their_text() {
    let owned = String::from("key");
    let mut map = KeyedMap::new();
    map.insert(keyed(&owned, "first"));
    // Another string with the same text is the same key.
    let other = String::from("key");
    assert_eq!(text_of(map.get(&other).unwrap()), "first");
    map.insert(keyed("key", "second"));
    assert_eq!(map.len(), 1);
    assert_eq!(text_of(map.get(&other).unwrap()), "second");
    assert!(map.get("ke").is_none());
    assert!(map.get("keys").is_none());
    assert!(map.get("Key").is_none());
}

#[test]
fn map_replaces_the_whole_entry() {
    let mut map = KeyedMap::new();
    let mut first = keyed("k", "1");
    first.gap = true;
    first.before = Comment::some("about k");
    map.insert(first);
    map.insert(keyed("other", "x"));
    map.insert(keyed("k", "2"));
    let entry = &map.as_slice()[0];
    assert!(!entry.gap);
    assert!(entry.before.is_none());
    assert_eq!(text_of(&entry.value), "2");
}

#[test]
fn map_changes_a_value_in_place() {
    let mut map = KeyedMap::new();
    map.insert(keyed("a", "1"));
    map.insert(keyed("b", "2"));
    *map.get_mut("b").unwrap() = Value::text("changed");
    assert!(map.get_mut("c").is_none());
    assert_eq!(keys_of(&map), vec!["a", "b"]);
    assert_eq!(text_of(map.get("a").unwrap()), "1");
    assert_eq!(text_of(map.get("b").unwrap()), "changed");
}

#[test]
fn map_of_many_entries() {
    let names: Vec<String> = (0..1000).map(|i| format!("key{}", i)).collect();
    let mut map = KeyedMap::new();
    for name in &names {
        map.insert(keyed(name, name));
    }
    for name in names.iter().rev() {
        map.insert(keyed(name, "again"));
    }
    assert_eq!(map.len(), 1000);
    for (at, name) in names.iter().enumerate() {
        assert_eq!(map.as_slice()[at].key.as_str(), name);
        assert_eq!(text_of(map.get(name).unwrap()), "again");
    }
}
