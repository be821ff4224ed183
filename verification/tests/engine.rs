use openfdap::access::Access;
use openfdap::cache::{get, Etags};
use openfdap::config::{AccessAction, AccessPair, AccessPathSeg};
use openfdap::document::{Database, StructuralError};
use openfdap::engine::{
    accept, begin, describe_fault, finish, post, read, Body, Method, Request, Response, Staged,
    Step,
};
use openfdap::etag::format_etag;
use openfdap::json::{Kind, JsonValue};
use openfdap::users::{dynamic_users, lookup, Lookup, Users};

fn keys(keys: &[&str]) -> Vec<String> {
    keys.iter().map(|k| k.to_string()).collect()
}

fn num(n: u64) -> JsonValue {
    JsonValue::Number(serde_json::Number::from(n))
}

fn text(t: &str) -> JsonValue {
    JsonValue::String(t.to_string())
}

fn obj(members: Vec<(&str, JsonValue)>) -> JsonValue {
    JsonValue::Object(members.into_iter().map(|(k, v)| (k.to_string(), v)).collect())
}

fn plain(value: &JsonValue) -> serde_json::Value {
    match value {
        JsonValue::Null => serde_json::Value::Null,
        JsonValue::Bool(b) => serde_json::Value::Bool(*b),
        JsonValue::Number(n) => serde_json::Value::Number(n.clone()),
        JsonValue::String(s) => serde_json::Value::String(s.clone()),
        JsonValue::Array(items) => serde_json::Value::Array(items.iter().map(plain).collect()),
        JsonValue::Object(members) => {
            let mut map = serde_json::Map::new();
            for (k, v) in members {
                map.insert(k.clone(), plain(v));
            }
            serde_json::Value::Object(map)
        }
    }
}

fn parsed(json: &str) -> serde_json::Value {
    serde_json::from_str(json).unwrap()
}

fn everything() -> Access {
    Access::from_pairs(&vec![AccessPair {
        path: vec![],
        action: AccessAction { read: true, write: true },
    }])
}

fn only(read: bool, write: bool, at: &[&str]) -> Access {
    Access::from_pairs(&vec![AccessPair {
        path: at.iter().map(|k| AccessPathSeg::String(k.to_string())).collect(),
        action: AccessAction { read, write },
    }])
}

fn request(method: Method, path: &[&str], tag: Option<&str>) -> Request {
    Request { method, path: keys(path), if_none_match: tag.map(|t| t.to_string()) }
}

fn status_of(step: &Step) -> u16 {
    match step {
        Step::Respond(response) => response.status,
        other => panic!("no response but {:?}", other),
    }
}

fn is_bare(step: &Step, status: u16) -> bool {
    match step {
        Step::Respond(Response { status: s, body: Body::Empty, etag: None }) => *s == status,
        _ => false,
    }
}

fn staged(step: Step) -> Staged {
    match step {
        Step::Persist(staged) => staged,
        other => panic!("nothing staged but {:?}", other),
    }
}

fn json_of(response: &Response) -> serde_json::Value {
    match &response.body {
        Body::Json(value) => plain(value),
        Body::Unit => serde_json::Value::Null,
        other => panic!("no JSON but {:?}", other),
    }
}

fn settle(step: Step) -> Result<Staged, (u16, Option<String>)> {
    match step {
        Step::Respond(response) => {
            let message = match response.body {
                Body::Text(message) => Some(message),
                _ => None,
            };
            Err((response.status, message))
        }
        Step::Persist(staged) => Ok(staged),
        Step::ReadBody => panic!("asked for a payload twice"),
    }
}

/// A store in memory, driven as a server drives it, with a disk that can
/// be made to fail.
struct Store {
    db: Database,
    etags: Etags,
    disk: Option<(usize, serde_json::Value)>,
    disk_fails: bool,
}

impl Store {
    fn new() -> Store {
        Store { db: Database::new(), etags: Etags::new(), disk: None, disk_fails: false }
    }

    fn persist(&mut self, staged: &Staged) -> bool {
        if self.disk_fails {
            return false;
        }
        self.disk = Some((staged.document().version, plain(&staged.document().data)));
        true
    }

    fn write(&mut self, grants: &Access, path: &[&str], payload: Option<JsonValue>) -> (u16, Option<String>) {
        let first = begin(Some(grants), &self.db, &mut self.etags, &request(Method::Post, path, None));
        let second = match first {
            Step::ReadBody => post(&self.db, &keys(path), payload),
            other => other,
        };
        let outcome = settle(second);
        self.complete(outcome)
    }

    fn delete(&mut self, grants: &Access, path: &[&str]) -> (u16, Option<String>) {
        let first = begin(Some(grants), &self.db, &mut self.etags, &request(Method::Delete, path, None));
        let outcome = settle(first);
        self.complete(outcome)
    }

    fn complete(&mut self, outcome: Result<Staged, (u16, Option<String>)>) -> (u16, Option<String>) {
        match outcome {
            Ok(staged) => {
                let persisted = self.persist(&staged);
                let response = finish(&mut self.db, &mut self.etags, staged, persisted);
                (response.status, None)
            }
            Err(answer) => answer,
        }
    }

    fn get(&mut self, grants: &Access, path: &[&str], tag: Option<&str>) -> (u16, Option<serde_json::Value>, Option<String>) {
        match begin(Some(grants), &self.db, &mut self.etags, &request(Method::Get, path, tag)) {
            Step::Respond(response) => {
                let body = match &response.body {
                    Body::Json(value) => Some(plain(value)),
                    _ => None,
                };
                (response.status, body, response.etag)
            }
            other => panic!("no response but {:?}", other),
        }
    }
}

#[test]
fn a_write_at_the_root_of_an_empty_store() {
    let mut store = Store::new();
    let all = everything();
    assert_eq!(store.write(&all, &[], Some(obj(vec![("x", num(1))]))), (200, None));
    assert_eq!(store.db.version, 1);
    let (status, body, etag) = store.get(&all, &[], None);
    assert_eq!(status, 200);
    assert_eq!(body, Some(parsed(r#"{"x":1}"#)));
    assert_eq!(etag, Some("\"1\"".to_string()));
    assert_eq!(store.disk, Some((1, parsed(r#"{"x":1}"#))));
}

#[test]
fn a_write_creates_the_objects_on_the_way() {
    let mut store = Store::new();
    let all = everything();
    assert_eq!(store.write(&all, &["a", "b"], Some(num(5))), (200, None));
    assert_eq!(plain(&store.db.data), parsed(r#"{"a":{"b":5}}"#));
    let (status, body, etag) = store.get(&all, &["a"], None);
    assert_eq!((status, body), (200, Some(parsed(r#"{"b":5}"#))));
    assert_eq!(etag, Some("\"1\"".to_string()));
}

#[test]
fn a_deletion_after_a_write() {
    let mut store = Store::new();
    let all = everything();
    store.write(&all, &["a", "b"], Some(num(5)));
    assert_eq!(store.delete(&all, &["a", "b"]), (200, None));
    assert_eq!(store.db.version, 2);
    let (status, body, _) = store.get(&all, &["a"], None);
    assert_eq!((status, body), (200, Some(parsed("{}"))));
    let (status, body, etag) = store.get(&all, &["a", "b"], None);
    assert_eq!((status, body, etag), (404, None, None));
}

#[test]
fn a_conditional_read_with_the_current_tag_is_not_modified() {
    let mut store = Store::new();
    let all = everything();
    store.write(&all, &["a"], Some(obj(vec![("b", num(1))])));
    let (status, _, etag) = store.get(&all, &["a"], None);
    assert_eq!(status, 200);
    let tag = etag.unwrap();
    assert_eq!(tag, "\"1\"");
    let (status, body, etag) = store.get(&all, &["a"], Some(&tag));
    assert_eq!((status, body, etag), (304, None, None));
    assert_eq!(store.write(&all, &["a", "c", "d"], Some(text("new"))), (200, None));
    let (status, body, etag) = store.get(&all, &["a"], Some(&tag));
    assert_eq!(status, 200);
    assert_eq!(body, Some(parsed(r#"{"b":1,"c":{"d":"new"}}"#)));
    assert_eq!(etag, Some("\"2\"".to_string()));
}

#[test]
fn a_conditional_read_needs_an_entry_for_the_very_path() {
    let mut store = Store::new();
    let all = everything();
    store.write(&all, &["a"], Some(obj(vec![("b", num(1))])));
    let (status, body, etag) = store.get(&all, &["a", "b"], Some("\"1\""));
    assert_eq!((status, body), (200, Some(parsed("1"))));
    assert_eq!(etag, Some("\"1\"".to_string()));
    let (status, _, _) = store.get(&all, &["a"], Some("\"0\""));
    assert_eq!(status, 200);
    let (status, _, _) = store.get(&all, &["a"], Some("1"));
    assert_eq!(status, 200);
    let (status, _, _) = store.get(&all, &["a"], Some("\"1\""));
    assert_eq!(status, 304);
}

#[test]
fn a_write_below_a_string_is_a_bad_request() {
    let mut store = Store::new();
    let all = everything();
    assert_eq!(store.write(&all, &["n"], Some(obj(vec![("m", text("s"))]))), (200, None));
    let (status, message) = store.write(&all, &["n", "m", "q"], Some(num(1)));
    assert_eq!(status, 400);
    assert_eq!(
        message.unwrap(),
        "Data at path segment [\"n\", \"m\"] is a string, not null or an object"
    );
    assert_eq!(store.db.version, 1);
    assert_eq!(plain(&store.db.data), parsed(r#"{"n":{"m":"s"}}"#));
}

#[test]
fn an_unknown_token_is_denied_whatever_it_asks() {
    let mut db = Database::new();
    db.data = obj(vec![("a", num(1))]);
    let mut etags = Etags::new();
    for method in [Method::Head, Method::Get, Method::Post, Method::Delete, Method::Other] {
        for path in [keys(&[]), keys(&["a"]), keys(&["no", "such"])] {
            let head = Request { method, path, if_none_match: Some("\"0\"".to_string()) };
            assert!(is_bare(&begin(None, &db, &mut etags, &head), 401));
        }
    }
    assert!(etags.is_empty());
    assert_eq!(db.version, 0);
}

#[test]
fn a_token_without_a_grant_for_the_path_is_denied() {
    let db = Database::new();
    let mut etags = Etags::new();
    let grants = only(true, true, &["mine"]);
    for method in [Method::Head, Method::Get, Method::Post, Method::Delete] {
        assert!(is_bare(&begin(Some(&grants), &db, &mut etags, &request(method, &["theirs"], None)), 401));
        assert!(is_bare(&begin(Some(&grants), &db, &mut etags, &request(method, &[], None)), 401));
    }
}

#[test]
fn a_read_needs_the_read_grant_and_a_write_the_write_grant() {
    let mut db = Database::new();
    db.data = obj(vec![("a", num(1))]);
    let mut etags = Etags::new();
    let reader = only(true, false, &[]);
    let writer = only(false, true, &[]);
    assert_eq!(status_of(&begin(Some(&reader), &db, &mut etags, &request(Method::Get, &["a"], None))), 200);
    assert_eq!(status_of(&begin(Some(&reader), &db, &mut etags, &request(Method::Head, &["a"], None))), 200);
    assert!(is_bare(&begin(Some(&reader), &db, &mut etags, &request(Method::Post, &["a"], None)), 401));
    assert!(is_bare(&begin(Some(&reader), &db, &mut etags, &request(Method::Delete, &["a"], None)), 401));
    assert!(is_bare(&begin(Some(&writer), &db, &mut etags, &request(Method::Get, &["a"], None)), 401));
    assert!(is_bare(&begin(Some(&writer), &db, &mut etags, &request(Method::Head, &["a"], None)), 401));
    assert!(matches!(begin(Some(&writer), &db, &mut etags, &request(Method::Post, &["a"], None)), Step::ReadBody));
    assert!(matches!(begin(Some(&writer), &db, &mut etags, &request(Method::Delete, &["a"], None)), Step::Persist(_)));
}

#[test]
fn any_other_method_is_denied() {
    let db = Database::new();
    let mut etags = Etags::new();
    let all = everything();
    assert!(is_bare(&begin(Some(&all), &db, &mut etags, &request(Method::Other, &[], None)), 401));
}

#[test]
fn a_head_request_gets_the_tag_and_the_unit() {
    let mut db = Database::new();
    db.version = 12;
    db.data = obj(vec![("a", num(1))]);
    let mut etags = Etags::new();
    let response = read(&db, &mut etags, true, &keys(&["a"]), &None);
    assert_eq!(response.status, 200);
    assert!(matches!(response.body, Body::Unit));
    assert_eq!(response.etag, Some("\"12\"".to_string()));
    assert_eq!(json_of(&response), parsed("null"));
    let missing = read(&db, &mut etags, true, &keys(&["b"]), &None);
    assert_eq!(missing.status, 404);
    assert!(matches!(missing.body, Body::Empty));
    assert_eq!(missing.etag, None);
    let again = read(&db, &mut etags, true, &keys(&["a"]), &Some("\"12\"".to_string()));
    assert_eq!(again.status, 304);
    assert!(matches!(again.body, Body::Empty));
}

#[test]
fn a_payload_that_cannot_be_had_is_a_failure() {
    let db = Database::new();
    assert!(is_bare(&post(&db, &keys(&["a"]), None), 503));
    let mut store = Store::new();
    assert_eq!(store.write(&everything(), &["a"], None), (503, None));
    assert_eq!(store.db.version, 0);
    assert_eq!(store.disk, None);
}

#[test]
fn a_deletion_that_cannot_follow_its_path_is_a_bad_request() {
    let mut store = Store::new();
    let all = everything();
    store.write(&all, &["a"], Some(obj(vec![("s", text("x"))])));
    let (status, message) = store.delete(&all, &["a", "s", "t"]);
    assert_eq!(status, 400);
    assert_eq!(message.unwrap(), "Data at path segment [\"a\", \"s\"] is a string, not an object");
    let (status, message) = store.delete(&all, &["a", "q", "t"]);
    assert_eq!(status, 400);
    assert_eq!(message.unwrap(), "Data at path segment [\"a\", \"q\"] is missing");
    assert_eq!(store.delete(&all, &["a", "q"]), (200, None));
    assert_eq!(store.db.version, 2);
}

#[test]
fn a_fault_is_described_with_its_place_and_the_kind_found() {
    let array = StructuralError { path_prefix: keys(&[]), actual_type: Some(Kind::Array) };
    assert_eq!(describe_fault(&array, true), "Data at path segment [] is a array, not null or an object");
    assert_eq!(describe_fault(&array, false), "Data at path segment [] is a array, not an object");
    let quoted = StructuralError { path_prefix: keys(&["a\"b", "c d"]), actual_type: Some(Kind::Null) };
    assert_eq!(
        describe_fault(&quoted, false),
        "Data at path segment [\"a\\\"b\", \"c d\"] is a null, not an object"
    );
    let missing = StructuralError { path_prefix: keys(&["k"]), actual_type: None };
    assert_eq!(describe_fault(&missing, false), "Data at path segment [\"k\"] is missing");
}

#[test]
fn the_version_rises_by_one_for_each_change_that_commits() {
    let mut store = Store::new();
    let all = everything();
    let mut expected = 0;
    let steps: Vec<(&[&str], Option<JsonValue>, bool)> = vec![
        (&["a"], Some(num(1)), true),
        (&["a", "b"], Some(num(2)), false),
        (&["b"], Some(obj(vec![])), true),
        (&["b", "c"], Some(text("x")), true),
        (&["b", "c", "d"], Some(num(3)), false),
        (&["b"], None, false),
        (&[], Some(JsonValue::Null), true),
    ];
    for (path, payload, commits) in steps {
        let before = store.db.version;
        let (status, _) = store.write(&all, path, payload);
        if commits {
            expected += 1;
            assert_eq!(status, 200);
        } else {
            assert_ne!(status, 200);
        }
        assert_eq!(store.db.version, expected);
        assert!(store.db.version >= before);
    }
    assert_eq!(store.delete(&all, &["x"]).0, 400);
    assert_eq!(store.db.version, expected);
    assert_eq!(store.delete(&all, &[]).0, 200);
    assert_eq!(store.db.version, expected + 1);
    assert_eq!(store.disk.as_ref().unwrap().0, expected + 1);
}

#[test]
fn where_the_disk_fails_nothing_changes() {
    let mut store = Store::new();
    let all = everything();
    store.write(&all, &["a"], Some(num(1)));
    let (_, _, tag) = store.get(&all, &["a"], None);
    let disk_before = store.disk.clone();
    store.disk_fails = true;
    assert_eq!(store.write(&all, &["a"], Some(num(2))), (503, None));
    assert_eq!(store.delete(&all, &["a"]), (503, None));
    assert_eq!(store.db.version, 1);
    assert_eq!(plain(&store.db.data), parsed(r#"{"a":1}"#));
    assert_eq!(store.disk, disk_before);
    let (status, _, _) = store.get(&all, &["a"], tag.as_deref());
    assert_eq!(status, 304);
    store.disk_fails = false;
    assert_eq!(store.write(&all, &["a"], Some(num(2))), (200, None));
    assert_eq!(store.db.version, 2);
    let (status, body, etag) = store.get(&all, &["a"], tag.as_deref());
    assert_eq!((status, body, etag), (200, Some(parsed("2")), Some("\"2\"".to_string())));
}

#[test]
fn a_staged_change_that_does_not_follow_is_not_committed() {
    let mut db = Database::new();
    let mut etags = Etags::new();
    let first = staged(post(&db, &keys(&["a"]), Some(num(1))));
    let second = staged(post(&db, &keys(&["b"]), Some(num(2))));
    assert_eq!(first.document().version, 1);
    assert_eq!(finish(&mut db, &mut etags, first, true).status, 200);
    assert_eq!(db.version, 1);
    assert_eq!(finish(&mut db, &mut etags, second, true).status, 503);
    assert_eq!(db.version, 1);
    assert_eq!(plain(&db.data), parsed(r#"{"a":1}"#));
}

#[test]
fn a_committed_write_is_cached_at_its_path_and_a_deletion_is_not() {
    let mut store = Store::new();
    let all = everything();
    store.write(&all, &["a", "b"], Some(num(1)));
    assert_eq!(store.etags.lookup(&keys(&["a", "b"]), 2), Some(1));
    store.get(&all, &["a"], None);
    assert_eq!(store.etags.lookup(&keys(&["a"]), 1), Some(1));
    store.write(&all, &["a", "c"], Some(num(2)));
    assert_eq!(store.etags.lookup(&keys(&["a"]), 1), None);
    assert_eq!(store.etags.lookup(&keys(&["a", "b"]), 2), Some(1));
    assert_eq!(store.etags.lookup(&keys(&["a", "c"]), 2), Some(2));
    store.delete(&all, &["a", "b"]);
    assert_eq!(store.etags.lookup(&keys(&["a", "b"]), 2), None);
    assert_eq!(store.etags.lookup(&keys(&["a", "c"]), 2), Some(2));
    let (status, _, etag) = store.get(&all, &["a"], None);
    assert_eq!((status, etag), (200, Some(format_etag(3))));
}

#[test]
fn the_counter_at_its_end_stops_changes() {
    let db = Database { version: usize::MAX, data: JsonValue::Null };
    let mut etags = Etags::new();
    let all = everything();
    assert!(is_bare(&post(&db, &keys(&["a"]), Some(num(1))), 503));
    assert!(is_bare(&begin(Some(&all), &db, &mut etags, &request(Method::Delete, &[], None)), 503));
    assert_eq!(status_of(&begin(Some(&all), &db, &mut etags, &request(Method::Get, &[], None))), 200);
}

#[test]
fn a_request_is_accepted_with_its_path_parsed() {
    let head = accept(true, Method::Get, "/a%20b/c/", Some("\"3\"".to_string())).unwrap();
    assert_eq!(head.method, Method::Get);
    assert_eq!(head.path, keys(&["a b", "c"]));
    assert_eq!(head.if_none_match, Some("\"3\"".to_string()));
    let root = accept(true, Method::Delete, "", None).unwrap();
    assert_eq!((root.method, root.path, root.if_none_match), (Method::Delete, keys(&[]), None));
}

#[test]
fn a_token_without_grants_is_denied_before_its_path_is_looked_at() {
    let denied = accept(false, Method::Get, "/%ff", None).unwrap_err();
    assert_eq!(denied.status, 401);
    assert!(matches!(denied.body, Body::Empty));
    let failed = accept(true, Method::Get, "/%ff", None).unwrap_err();
    assert_eq!(failed.status, 503);
    assert!(matches!(failed.body, Body::Empty));
    assert_eq!(failed.etag, None);
}

#[test]
fn a_token_is_looked_up_in_the_configuration_first() {
    let users = Users::from_config(&vec![(
        "alpha".to_string(),
        vec![AccessPair { path: vec![], action: AccessAction { read: true, write: false } }],
    )]);
    let mut db = Database::new();
    let mut etags = Etags::new();
    assert!(matches!(lookup(&users, &db, &mut etags, &"alpha".to_string()), Lookup::Known(_)));
    assert!(matches!(lookup(&users, &db, &mut etags, &"beta".to_string()), Lookup::Unknown));
    assert!(etags.is_empty());
    db.version = 4;
    db.data = obj(vec![("fdap_user", obj(vec![("beta", obj(vec![]))]))]);
    match lookup(&users, &db, &mut etags, &"beta".to_string()) {
        Lookup::Dynamic(value) => assert_eq!(plain(value), parsed(r#"{"beta":{}}"#)),
        other => panic!("no value but {:?}", other),
    }
    assert_eq!(etags.lookup(&keys(&["fdap_user"]), 1), Some(4));
    assert!(matches!(lookup(&users, &db, &mut etags, &"alpha".to_string()), Lookup::Known(_)));
    let mut fresh = Etags::new();
    assert_eq!(plain(dynamic_users(&db, &mut fresh).unwrap()), parsed(r#"{"beta":{}}"#));
    assert_eq!(get(&db, &mut fresh, &keys(&["fdap_user", "beta"])).unwrap().1, 4);
}
