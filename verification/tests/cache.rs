use openfdap::cache::{get, is_prefix_of_length, starts_with, wipe_etags, Etags};
use openfdap::document::Database;
use openfdap::json::JsonValue;

fn keys(keys: &[&str]) -> Vec<String> {
    keys.iter().map(|k| k.to_string()).collect()
}

fn num(n: u64) -> JsonValue {
    JsonValue::Number(serde_json::Number::from(n))
}

fn obj(members: Vec<(&str, JsonValue)>) -> JsonValue {
    JsonValue::Object(members.into_iter().map(|(k, v)| (k.to_string(), v)).collect())
}

fn sample() -> Database {
    Database {
        version: 7,
        data: obj(vec![
            ("a", obj(vec![("b", obj(vec![("c", num(1))])), ("d", num(2))])),
            ("e", num(3)),
        ]),
    }
}

fn is_number(value: &JsonValue, n: u64) -> bool {
    match value {
        JsonValue::Number(found) => *found == serde_json::Number::from(n),
        _ => false,
    }
}

#[test]
fn a_path_begins_with_its_prefixes() {
    assert!(starts_with(&keys(&["a", "b"]), &keys(&[])));
    assert!(starts_with(&keys(&["a", "b"]), &keys(&["a"])));
    assert!(starts_with(&keys(&["a", "b"]), &keys(&["a", "b"])));
    assert!(!starts_with(&keys(&["a", "b"]), &keys(&["a", "b", "c"])));
    assert!(!starts_with(&keys(&["a", "b"]), &keys(&["b"])));
    assert!(!starts_with(&keys(&["ab"]), &keys(&["a"])));
    assert!(is_prefix_of_length(&keys(&["a"]), &keys(&["a", "b"]), 1));
    assert!(!is_prefix_of_length(&keys(&["a"]), &keys(&["a", "b"]), 2));
    assert!(is_prefix_of_length(&keys(&[]), &keys(&["a", "b"]), 0));
    assert!(!is_prefix_of_length(&keys(&["b"]), &keys(&["a", "b"]), 1));
}

#[test]
fn a_new_cache_is_empty() {
    let etags = Etags::new();
    assert!(etags.is_empty());
    assert_eq!(etags.version_of(&keys(&["a"])), None);
    assert_eq!(etags.lookup(&keys(&["a"]), 1), None);
    assert_eq!(etags.lookup(&keys(&["a"]), 0), None);
}

#[test]
fn the_longest_cached_prefix_gives_the_version() {
    let mut etags = Etags::new();
    etags.insert(keys(&[]), 1);
    etags.insert(keys(&["a"]), 2);
    etags.insert(keys(&["a", "b", "c"]), 4);
    assert_eq!(etags.version_of(&keys(&["a", "b", "c", "d"])), Some(4));
    assert_eq!(etags.version_of(&keys(&["a", "b", "c"])), Some(4));
    assert_eq!(etags.version_of(&keys(&["a", "b"])), Some(2));
    assert_eq!(etags.version_of(&keys(&["a", "x"])), Some(2));
    assert_eq!(etags.version_of(&keys(&["z"])), Some(1));
    assert_eq!(etags.version_of(&keys(&[])), Some(1));
    assert_eq!(etags.lookup(&keys(&["a", "b"]), 2), None);
    assert_eq!(etags.lookup(&keys(&["a", "b"]), 1), Some(2));
    assert_eq!(etags.lookup(&keys(&["a", "b"]), 0), Some(1));
}

#[test]
fn a_later_entry_replaces_an_earlier_one() {
    let mut etags = Etags::new();
    etags.insert(keys(&["a"]), 2);
    etags.insert(keys(&["a"]), 5);
    assert_eq!(etags.version_of(&keys(&["a"])), Some(5));
    assert!(!etags.is_empty());
}

#[test]
fn a_read_without_a_cached_prefix_enters_the_document_version() {
    let db = sample();
    let mut etags = Etags::new();
    let (value, version) = get(&db, &mut etags, &keys(&["a", "d"])).unwrap();
    assert!(is_number(value, 2));
    assert_eq!(version, 7);
    assert_eq!(etags.lookup(&keys(&["a", "d"]), 2), Some(7));
    assert_eq!(etags.lookup(&keys(&["a", "d"]), 1), None);
    assert_eq!(etags.lookup(&keys(&["a", "d"]), 0), None);
}

#[test]
fn a_read_with_a_cached_prefix_reports_it_and_enters_nothing() {
    let db = sample();
    let mut etags = Etags::new();
    etags.insert(keys(&["a"]), 3);
    let (value, version) = get(&db, &mut etags, &keys(&["a", "b", "c"])).unwrap();
    assert!(is_number(value, 1));
    assert_eq!(version, 3);
    assert_eq!(etags.lookup(&keys(&["a", "b", "c"]), 3), None);
    assert_eq!(etags.lookup(&keys(&["a", "b", "c"]), 2), None);
    let (_, again) = get(&db, &mut etags, &keys(&["a"])).unwrap();
    assert_eq!(again, 3);
    let (_, other) = get(&db, &mut etags, &keys(&["e"])).unwrap();
    assert_eq!(other, 7);
    assert_eq!(etags.lookup(&keys(&["e"]), 1), Some(7));
}

#[test]
fn a_read_of_nothing_leaves_the_cache_alone() {
    let db = sample();
    let mut etags = Etags::new();
    assert!(get(&db, &mut etags, &keys(&["zz"])).is_none());
    assert!(get(&db, &mut etags, &keys(&["e", "x"])).is_none());
    assert!(etags.is_empty());
}

#[test]
fn a_read_of_the_root_caches_the_empty_path() {
    let db = sample();
    let mut etags = Etags::new();
    let (_, version) = get(&db, &mut etags, &keys(&[])).unwrap();
    assert_eq!(version, 7);
    assert_eq!(etags.lookup(&keys(&[]), 0), Some(7));
    let later = Database { version: 9, data: db.data.clone() };
    let (_, below) = get(&later, &mut etags, &keys(&["a", "b"])).unwrap();
    assert_eq!(below, 7);
}

#[test]
fn a_write_evicts_the_path_what_is_above_and_what_is_below() {
    let mut etags = Etags::new();
    etags.insert(keys(&[]), 1);
    etags.insert(keys(&["a"]), 2);
    etags.insert(keys(&["a", "b"]), 3);
    etags.insert(keys(&["a", "b", "c"]), 4);
    etags.insert(keys(&["a", "b", "c", "d"]), 5);
    etags.insert(keys(&["a", "x"]), 6);
    etags.insert(keys(&["e"]), 7);
    wipe_etags(&mut etags, &keys(&["a", "b"]), Some(9));
    assert_eq!(etags.lookup(&keys(&[]), 0), None);
    assert_eq!(etags.lookup(&keys(&["a"]), 1), None);
    assert_eq!(etags.lookup(&keys(&["a", "b"]), 2), Some(9));
    assert_eq!(etags.lookup(&keys(&["a", "b", "c"]), 3), None);
    assert_eq!(etags.lookup(&keys(&["a", "b", "c", "d"]), 4), None);
    assert_eq!(etags.lookup(&keys(&["a", "x"]), 2), Some(6));
    assert_eq!(etags.lookup(&keys(&["e"]), 1), Some(7));
}

#[test]
fn a_deletion_evicts_and_enters_nothing() {
    let mut etags = Etags::new();
    etags.insert(keys(&["a"]), 2);
    etags.insert(keys(&["a", "b"]), 3);
    etags.insert(keys(&["a", "c"]), 4);
    wipe_etags(&mut etags, &keys(&["a", "b"]), None);
    assert_eq!(etags.lookup(&keys(&["a"]), 1), None);
    assert_eq!(etags.lookup(&keys(&["a", "b"]), 2), None);
    assert_eq!(etags.lookup(&keys(&["a", "c"]), 2), Some(4));
    assert_eq!(etags.version_of(&keys(&["a", "b"])), None);
}

#[test]
fn a_write_at_the_root_empties_the_cache() {
    let mut etags = Etags::new();
    etags.insert(keys(&["a"]), 2);
    etags.insert(keys(&["e", "f"]), 3);
    wipe_etags(&mut etags, &keys(&[]), Some(4));
    assert_eq!(etags.lookup(&keys(&["a"]), 1), None);
    assert_eq!(etags.lookup(&keys(&["e", "f"]), 2), None);
    assert_eq!(etags.version_of(&keys(&["e", "f"])), Some(4));
    wipe_etags(&mut etags, &keys(&[]), None);
    assert!(etags.is_empty());
}

#[test]
fn after_a_write_reads_around_it_report_no_older_version() {
    let db = sample();
    let mut etags = Etags::new();
    for p in [keys(&[]), keys(&["a"]), keys(&["a", "b"]), keys(&["a", "b", "c"]), keys(&["e"])] {
        get(&db, &mut etags, &p).unwrap();
    }
    let next = db.replaced(&keys(&["a", "b"]), obj(vec![("c", num(10))])).unwrap();
    assert_eq!(next.version, 8);
    wipe_etags(&mut etags, &keys(&["a", "b"]), Some(next.version));
    for p in [keys(&[]), keys(&["a"]), keys(&["a", "b"]), keys(&["a", "b", "c"])] {
        let (_, version) = get(&next, &mut etags, &p).unwrap();
        assert_eq!(version, 8, "at {:?}", p);
    }
    let later = next.replaced(&keys(&["e"]), num(0)).unwrap();
    wipe_etags(&mut etags, &keys(&["e"]), Some(later.version));
    for p in [keys(&["a"]), keys(&["a", "b"]), keys(&["a", "b", "c"])] {
        let (_, version) = get(&later, &mut etags, &p).unwrap();
        assert!(version >= 8, "at {:?}", p);
    }
    let (_, root) = get(&later, &mut etags, &keys(&[])).unwrap();
    assert_eq!(root, 9);
}
