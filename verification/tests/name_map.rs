use source_stats::name_map::{list_contains, NameMap};

fn sample() -> NameMap<u32> {
    let mut m: NameMap<u32> = NameMap::new();
    m.insert("one".to_string(), 1);
    m.insert("two".to_string(), 2);
    m.insert("three".to_string(), 3);
    m
}

#[test]
fn new_map_is_empty() {
    let m: NameMap<u32> = NameMap::new();
    assert!(m.is_empty());
    assert_eq!(m.len(), 0);
    assert_eq!(m.get("x"), None);
    assert!(!m.contains_key("x"));
}

#[test]
fn insert_keeps_the_order_of_first_insertion() {
    let mut m = sample();
    assert_eq!(m.len(), 3);
    assert_eq!(m.insert("one".to_string(), 11), Some(1));
    assert_eq!(m.insert("four".to_string(), 4), None);
    assert_eq!(m.len(), 4);
    assert_eq!(m.name_at(0), "one");
    assert_eq!(m.name_at(1), "two");
    assert_eq!(m.name_at(2), "three");
    assert_eq!(m.name_at(3), "four");
    assert_eq!(*m.value_at(0), 11);
    assert_eq!(m.get("one"), Some(&11));
    assert_eq!(m.index_of("three"), Some(2));
    assert_eq!(m.index_of("five"), None);
}

#[test]
fn remove_keeps_the_order_of_the_others() {
    let mut m = sample();
    assert_eq!(m.remove("two"), Some(2));
    assert_eq!(m.remove("two"), None);
    assert_eq!(m.len(), 2);
    assert_eq!(m.name_at(0), "one");
    assert_eq!(m.name_at(1), "three");
    assert!(!m.contains_key("two"));
    assert!(m.contains_key("three"));
    let removed = m.remove_at(0);
    assert_eq!(removed, ("one".to_string(), 1));
    assert_eq!(m.len(), 1);
    assert_eq!(m.name_at(0), "three");
}

#[test]
fn replace_at_hands_back_the_old_value() {
    let mut m = sample();
    assert_eq!(m.replace_at(1, 20), 2);
    assert_eq!(m.get("two"), Some(&20));
    assert_eq!(m.name_at(1), "two");
    assert_eq!(m.len(), 3);
}

#[test]
fn retain_listed_keeps_or_drops_the_listed_names() {
    let listed = vec!["three".to_string(), "one".to_string(), "zero".to_string()];
    let mut m = sample();
    m.retain_listed(&listed, true);
    assert_eq!(m.len(), 2);
    assert_eq!(m.name_at(0), "one");
    assert_eq!(m.name_at(1), "three");
    let mut m = sample();
    m.retain_listed(&listed, false);
    assert_eq!(m.len(), 1);
    assert_eq!(m.name_at(0), "two");
    assert_eq!(m.get("two"), Some(&2));
}

#[test]
fn list_contains_compares_by_content() {
    let listed = vec!["a".to_string(), "bc".to_string()];
    assert!(list_contains(&listed, "bc"));
    assert!(!list_contains(&listed, "b"));
    assert!(!list_contains(&Vec::new(), "a"));
}
