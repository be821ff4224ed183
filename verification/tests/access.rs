use openfdap::access::{copy_pattern, literal_path, pattern_covers, Access};
use openfdap::config::{compare_paths, AccessAction, AccessPair, AccessPathSeg, Config};
use openfdap::order::{compare_strings, Order};
use openfdap::users::Users;

fn lit(text: &str) -> AccessPathSeg {
    AccessPathSeg::String(text.to_string())
}

fn any() -> AccessPathSeg {
    AccessPathSeg::Wildcard
}

fn keys(keys: &[&str]) -> Vec<String> {
    keys.iter().map(|k| k.to_string()).collect()
}

fn read_only() -> AccessAction {
    AccessAction { read: true, write: false }
}

fn write_only() -> AccessAction {
    AccessAction { read: false, write: true }
}

fn both() -> AccessAction {
    AccessAction { read: true, write: true }
}

fn pair(path: Vec<AccessPathSeg>, action: AccessAction) -> AccessPair {
    AccessPair { path, action }
}

fn order(a: &str, b: &str) -> Order {
    compare_strings(&a.to_string(), &b.to_string())
}

#[test]
fn strings_compare_by_their_bytes() {
    assert_eq!(order("a", "b"), Order::Less);
    assert_eq!(order("b", "a"), Order::Greater);
    assert_eq!(order("abc", "abc"), Order::Equal);
    assert_eq!(order("", ""), Order::Equal);
    assert_eq!(order("", "a"), Order::Less);
    assert_eq!(order("ab", "abc"), Order::Less);
    assert_eq!(order("abd", "abc"), Order::Greater);
    assert_eq!(order("Z", "a"), Order::Less);
    assert_eq!(order("z", "é"), Order::Less);
    assert_eq!(order("é", "日本"), Order::Less);
}

#[test]
fn string_order_agrees_with_the_standard_one() {
    let samples = ["", "a", "ab", "b", "B", "~", "é", "e", "日本", "\u{10ffff}", "a/b", "*", "zz"];
    for a in samples {
        for b in samples {
            let expected = match a.cmp(b) {
                std::cmp::Ordering::Less => Order::Less,
                std::cmp::Ordering::Equal => Order::Equal,
                std::cmp::Ordering::Greater => Order::Greater,
            };
            assert_eq!(order(a, b), expected, "{:?} against {:?}", a, b);
        }
    }
}

#[test]
fn the_wildcard_comes_before_every_key() {
    assert_eq!(any().compare(&any()), Order::Equal);
    assert_eq!(any().compare(&lit("")), Order::Less);
    assert_eq!(any().compare(&lit("a")), Order::Less);
    assert_eq!(lit("a").compare(&any()), Order::Greater);
    assert_eq!(lit("a").compare(&lit("b")), Order::Less);
    assert_eq!(lit("b").compare(&lit("b")), Order::Equal);
    assert_eq!(lit("c").compare(&lit("b")), Order::Greater);
}

#[test]
fn step_order_agrees_with_the_derived_one() {
    let samples = [any(), lit(""), lit("*"), lit("a"), lit("b"), lit("ab")];
    for a in &samples {
        for b in &samples {
            let expected = match a.cmp(b) {
                std::cmp::Ordering::Less => Order::Less,
                std::cmp::Ordering::Equal => Order::Equal,
                std::cmp::Ordering::Greater => Order::Greater,
            };
            assert_eq!(a.compare(b), expected);
            assert_eq!(a == b, expected == Order::Equal);
        }
    }
}

#[test]
fn patterns_compare_step_by_step() {
    assert_eq!(compare_paths(&vec![], &vec![]), Order::Equal);
    assert_eq!(compare_paths(&vec![], &vec![any()]), Order::Less);
    assert_eq!(compare_paths(&vec![lit("a")], &vec![]), Order::Greater);
    assert_eq!(compare_paths(&vec![lit("a")], &vec![lit("a"), lit("b")]), Order::Less);
    assert_eq!(compare_paths(&vec![lit("a"), any()], &vec![lit("a"), lit("b")]), Order::Less);
    assert_eq!(compare_paths(&vec![lit("a"), lit("c")], &vec![lit("a"), lit("b")]), Order::Greater);
    assert_eq!(compare_paths(&vec![lit("b")], &vec![lit("a"), lit("z")]), Order::Greater);
    assert_eq!(compare_paths(&vec![any(), lit("z")], &vec![lit("a")]), Order::Less);
    assert_eq!(compare_paths(&vec![lit("a"), any()], &vec![lit("a"), any()]), Order::Equal);
}

#[test]
fn pattern_order_agrees_with_the_derived_one() {
    let samples = vec![
        vec![],
        vec![any()],
        vec![any(), any()],
        vec![any(), lit("a")],
        vec![lit("a")],
        vec![lit("a"), any()],
        vec![lit("a"), lit("b")],
        vec![lit("a"), lit("b"), lit("c")],
        vec![lit("b")],
    ];
    for a in &samples {
        for b in &samples {
            let expected = match a.cmp(b) {
                std::cmp::Ordering::Less => Order::Less,
                std::cmp::Ordering::Equal => Order::Equal,
                std::cmp::Ordering::Greater => Order::Greater,
            };
            assert_eq!(compare_paths(a, b), expected);
        }
    }
}

#[test]
fn a_pattern_covers_as_far_as_both_reach() {
    assert!(pattern_covers(&vec![], &keys(&["a"])));
    assert!(pattern_covers(&vec![lit("a")], &keys(&[])));
    assert!(pattern_covers(&vec![lit("a")], &keys(&["a", "b", "c"])));
    assert!(pattern_covers(&vec![lit("a"), any()], &keys(&["a", "x"])));
    assert!(pattern_covers(&vec![lit("a"), any(), lit("c")], &keys(&["a", "x"])));
    assert!(!pattern_covers(&vec![lit("a")], &keys(&["b"])));
    assert!(!pattern_covers(&vec![lit("a"), any()], &keys(&["b", "x"])));
    assert!(!pattern_covers(&vec![any(), lit("x")], &keys(&["a", "y"])));
}

#[test]
fn a_literal_pattern_names_the_path() {
    assert_eq!(literal_path(&keys(&["a", "*"])), vec![lit("a"), lit("*")]);
    assert_eq!(literal_path(&keys(&[])), Vec::<AccessPathSeg>::new());
    assert_eq!(copy_pattern(&vec![any(), lit("k")]), vec![any(), lit("k")]);
    assert_eq!(lit("k").clone(), lit("k"));
}

#[test]
fn a_grant_on_a_key_reaches_everything_below() {
    let access = Access::from_pairs(&vec![pair(vec![lit("a")], read_only())]);
    assert_eq!(access.resolve(&keys(&["a", "b", "c"])), Some(read_only()));
    assert_eq!(access.resolve(&keys(&["a", "b"])), Some(read_only()));
    assert_eq!(access.resolve(&keys(&["a"])), Some(read_only()));
    assert_eq!(access.resolve(&keys(&["b"])), None);
    assert_eq!(access.resolve(&keys(&["b", "a"])), None);
    assert_eq!(access.resolve(&keys(&[])), None);
}

#[test]
fn a_wildcard_stands_for_one_key_at_its_place() {
    let access = Access::from_pairs(&vec![pair(vec![lit("a"), any()], read_only())]);
    assert_eq!(access.resolve(&keys(&["a", "x"])), Some(read_only()));
    assert_eq!(access.resolve(&keys(&["a", "y"])), Some(read_only()));
    assert_eq!(access.resolve(&keys(&["a", "x", "deep"])), Some(read_only()));
    assert_eq!(access.resolve(&keys(&["b", "x"])), None);
    assert_eq!(access.resolve(&keys(&["x", "a"])), None);
    let first = Access::from_pairs(&vec![pair(vec![any(), lit("k")], both())]);
    assert_eq!(first.resolve(&keys(&["u", "k"])), Some(both()));
    assert_eq!(first.resolve(&keys(&["u", "j"])), None);
}

#[test]
fn the_empty_pattern_grants_everything() {
    let access = Access::from_pairs(&vec![pair(vec![], both())]);
    assert_eq!(access.resolve(&keys(&[])), Some(both()));
    assert_eq!(access.resolve(&keys(&["any", "thing"])), Some(both()));
}

#[test]
fn no_grants_resolve_to_nothing() {
    let access = Access::new();
    assert_eq!(access.len(), 0);
    assert_eq!(access.resolve(&keys(&[])), None);
    assert_eq!(access.resolve(&keys(&["a"])), None);
}

#[test]
fn the_greatest_pattern_that_applies_wins() {
    let access = Access::from_pairs(&vec![
        pair(vec![], read_only()),
        pair(vec![lit("a")], write_only()),
        pair(vec![lit("a"), lit("b")], both()),
    ]);
    assert_eq!(access.resolve(&keys(&["a", "b", "c"])), Some(both()));
    assert_eq!(access.resolve(&keys(&["a", "b"])), Some(both()));
    assert_eq!(access.resolve(&keys(&["a", "c"])), Some(write_only()));
    assert_eq!(access.resolve(&keys(&["a"])), Some(write_only()));
    assert_eq!(access.resolve(&keys(&["z"])), Some(read_only()));
    assert_eq!(access.resolve(&keys(&[])), Some(read_only()));
}

#[test]
fn a_pattern_that_fails_is_passed_over() {
    let access = Access::from_pairs(&vec![
        pair(vec![lit("a")], read_only()),
        pair(vec![lit("a"), lit("b")], both()),
    ]);
    assert_eq!(access.resolve(&keys(&["a", "c"])), Some(read_only()));
    let wild = Access::from_pairs(&vec![
        pair(vec![any()], read_only()),
        pair(vec![lit("a"), lit("b")], write_only()),
    ]);
    assert_eq!(wild.resolve(&keys(&["a", "c"])), Some(read_only()));
    assert_eq!(wild.resolve(&keys(&["a", "b"])), Some(write_only()));
}

#[test]
fn a_pattern_after_the_path_is_not_tried() {
    let access = Access::from_pairs(&vec![pair(vec![lit("a"), lit("b")], both())]);
    assert_eq!(access.resolve(&keys(&["a"])), None);
    let longer = Access::from_pairs(&vec![pair(vec![any(), lit("x"), lit("y")], both())]);
    assert_eq!(longer.resolve(&keys(&["a"])), Some(both()));
}

#[test]
fn a_literal_beats_a_wildcard_at_the_same_place() {
    let access = Access::from_pairs(&vec![
        pair(vec![lit("a"), any()], read_only()),
        pair(vec![lit("a"), lit("b")], both()),
    ]);
    assert_eq!(access.resolve(&keys(&["a", "b"])), Some(both()));
    assert_eq!(access.resolve(&keys(&["a", "c"])), Some(read_only()));
}

#[test]
fn of_two_pairs_with_one_pattern_the_later_counts() {
    let access = Access::from_pairs(&vec![
        pair(vec![lit("a")], read_only()),
        pair(vec![lit("b")], read_only()),
        pair(vec![lit("a")], both()),
    ]);
    assert_eq!(access.len(), 2);
    assert_eq!(access.resolve(&keys(&["a"])), Some(both()));
    assert_eq!(access.resolve(&keys(&["b"])), Some(read_only()));
}

#[test]
fn the_order_of_the_pairs_does_not_matter() {
    let pairs = || {
        vec![
            pair(vec![lit("m")], read_only()),
            pair(vec![], write_only()),
            pair(vec![lit("m"), any()], both()),
            pair(vec![any(), lit("q")], read_only()),
        ]
    };
    let forward = Access::from_pairs(&pairs());
    let mut reversed = pairs();
    reversed.reverse();
    let backward = Access::from_pairs(&reversed);
    for p in [keys(&[]), keys(&["m"]), keys(&["m", "x"]), keys(&["z", "q"]), keys(&["z"]), keys(&["m", "q"])] {
        assert_eq!(forward.resolve(&p), backward.resolve(&p));
    }
    assert_eq!(forward.resolve(&keys(&["m", "x"])), Some(both()));
    assert_eq!(forward.resolve(&keys(&["z", "q"])), Some(read_only()));
    assert_eq!(forward.resolve(&keys(&["z"])), Some(read_only()));
    assert_eq!(forward.resolve(&keys(&[])), Some(write_only()));
}

#[test]
fn inserting_puts_a_grant_in_place_of_an_equal_one() {
    let mut access = Access::new();
    access.insert(vec![lit("b")], read_only());
    access.insert(vec![lit("a")], read_only());
    access.insert(vec![lit("c")], read_only());
    assert_eq!(access.len(), 3);
    access.insert(vec![lit("b")], both());
    assert_eq!(access.len(), 3);
    assert_eq!(access.resolve(&keys(&["b", "x"])), Some(both()));
    assert_eq!(access.resolve(&keys(&["a"])), Some(read_only()));
    assert_eq!(access.resolve(&keys(&["c"])), Some(read_only()));
}

#[test]
fn the_known_tokens_come_from_the_configuration() {
    let config = Config {
        bind_addr: "0.0.0.0:64116".to_string(),
        data_dir: std::path::PathBuf::from("/var/lib/store"),
        users: vec![
            ("alpha".to_string(), vec![pair(vec![lit("a")], read_only())]),
            ("beta".to_string(), vec![pair(vec![], both())]),
            ("alpha".to_string(), vec![pair(vec![lit("a")], both())]),
            ("none".to_string(), vec![]),
        ],
    };
    let users = Users::from_config(&config.users);
    let alpha = users.find(&"alpha".to_string()).unwrap();
    assert_eq!(alpha.resolve(&keys(&["a", "b"])), Some(both()));
    let beta = users.find(&"beta".to_string()).unwrap();
    assert_eq!(beta.resolve(&keys(&["zz"])), Some(both()));
    let none = users.find(&"none".to_string()).unwrap();
    assert_eq!(none.resolve(&keys(&[])), None);
    assert!(users.find(&"gamma".to_string()).is_none());
    assert!(users.find(&"".to_string()).is_none());
    assert!(Users::new().find(&"alpha".to_string()).is_none());
}
