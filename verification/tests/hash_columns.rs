//! Hash columns and their registry.

use morsel_engine::hash_column::{HashColumn, HashColumnRegistry};

#[test]
fn from_strings_basic() {
    let hc = HashColumn::from_strings(&["alice".into(), "bob".into(), "charlie".into()]);
    assert_eq!(hc.len(), 3);
    assert_ne!(hc.get(0), 0);
    assert_ne!(hc.get(1), 0);
    assert_ne!(hc.get(2), 0);
    assert_ne!(hc.get(0), hc.get(1));
}

#[test]
fn from_strs_basic() {
    let hc = HashColumn::from_strs(&["a", "b", "c"]);
    assert_eq!(hc.len(), 3);
    assert_ne!(hc.get(0), hc.get(1));
}

#[test]
fn group_by_hash() {
    let hc = HashColumn::from_strs(&["a", "b", "a", "c", "b"]);
    let groups = hc.group_by_hash();
    assert_eq!(groups.len(), 3);
    let a_hash = xxhash_rust::xxh3::xxh3_64(b"a");
    assert_eq!(groups.get(&a_hash).unwrap(), &vec![0, 2]);
}

#[test]
fn count_distinct() {
    let hc = HashColumn::from_strs(&["a", "b", "a", "c", "b", "a"]);
    assert_eq!(hc.count_distinct(), 3);
}

#[test]
fn empty_column() {
    let hc = HashColumn::from_strs(&[]);
    assert!(hc.is_empty());
    assert_eq!(hc.count_distinct(), 0);
}

#[test]
fn registry_crud() {
    let mut reg = HashColumnRegistry::new();
    let hc = HashColumn::from_strs(&["a", "b", "c"]);
    reg.register("users", "name", hc);
    assert!(reg.has("users", "name"));
    assert_eq!(reg.len(), 1);

    let hc = reg.get("users", "name").unwrap();
    assert_eq!(hc.len(), 3);

    assert!(reg.remove("users", "name"));
    assert!(!reg.has("users", "name"));
}

#[test]
fn registry_multiple_columns() {
    let mut reg = HashColumnRegistry::new();
    reg.register("users", "name", HashColumn::from_strs(&["a", "b"]));
    reg.register("users", "email", HashColumn::from_strs(&["x@y.com", "z@w.com"]));
    reg.register("orders", "id", HashColumn::from_strs(&["1", "2"]));
    assert_eq!(reg.len(), 3);
    assert!(reg.has("users", "name"));
    assert!(reg.has("users", "email"));
    assert!(reg.has("orders", "id"));
    assert!(!reg.has("orders", "name"));
}

#[test]
fn hash_stability() {
    let hc1 = HashColumn::from_strs(&["test"]);
    let hc2 = HashColumn::from_strs(&["test"]);
    assert_eq!(hc1.get(0), hc2.get(0));
}

#[test]
fn large_column() {
    let strings: Vec<String> = (0..1000).map(|i| format!("string_{i}")).collect();
    let hc = HashColumn::from_strings(&strings);
    assert_eq!(hc.len(), 1000);
    assert_eq!(hc.count_distinct(), 1000);
}

#[test]
fn hash_is_xxh3_of_the_utf8_bytes() {
    let hc = HashColumn::from_strs(&["", "größe"]);
    assert_eq!(hc.get(0), 0x2D06_8005_38D3_94C2);
    assert_eq!(hc.get(1), xxhash_rust::xxh3::xxh3_64("größe".as_bytes()));
    assert_eq!(hc.get(2), 0);
}

#[test]
fn registry_replaces_and_forgets() {
    let mut reg = HashColumnRegistry::default();
    assert!(reg.is_empty());
    reg.register("t", "c", HashColumn::from_strs(&["a"]));
    reg.register("t", "c", HashColumn::from_strs(&["a", "b"]));
    assert_eq!(reg.len(), 1);
    assert_eq!(reg.get("t", "c").unwrap().len(), 2);
    assert!(!reg.remove("t", "d"));
    assert!(reg.remove("t", "c"));
    assert!(reg.get("t", "c").is_none());
    assert!(reg.is_empty());
}
