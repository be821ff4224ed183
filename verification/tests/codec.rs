use openfdap::codec::{from_json, parse_payload, to_json};
use openfdap::document::{db_get, Database};
use openfdap::engine::{finish, post_bytes, Step};
use openfdap::cache::Etags;
use openfdap::json::{JsonValue, Kind};

fn keys(keys: &[&str]) -> Vec<String> {
    keys.iter().map(|k| k.to_string()).collect()
}

fn plain(value: &JsonValue) -> serde_json::Value {
    match value {
        JsonValue::Null => serde_json::Value::Null,
        JsonValue::Bool(b) => serde_json::Value::Bool(*b),
        JsonValue::Number(n) => serde_json::Value::Number(n.clone()),
        JsonValue::String(s) => serde_json::Value::String(s.clone()),
        JsonValue::Array(items) => serde_json::Value::Array(items.iter().map(plain).collect()),
        JsonValue::Object(members) => {
            let mut map = serde_json::Map::new();
            for (k, v) in members {
                map.insert(k.clone(), plain(v));
            }
            serde_json::Value::Object(map)
        }
    }
}

fn parsed(json: &str) -> serde_json::Value {
    serde_json::from_str(json).unwrap()
}

#[test]
fn a_payload_is_parsed_into_a_value() {
    let text = r#"{"b":[1,-2,3.5,"x",null,true,{"deep":{}}],"a":"é","n":18446744073709551615}"#;
    let value = parse_payload(text.as_bytes()).unwrap();
    assert_eq!(plain(&value), parsed(text));
    assert_eq!(value.kind(), Kind::Object);
    assert_eq!(plain(db_get(&value, &keys(&["a"])).unwrap()), parsed(r#""é""#));
    match db_get(&value, &keys(&["b"])).unwrap() {
        JsonValue::Array(items) => {
            assert_eq!(items.len(), 7);
            assert_eq!(plain(&items[0]), parsed("1"));
            assert_eq!(plain(&items[2]), parsed("3.5"));
            assert_eq!(plain(&items[6]), parsed(r#"{"deep":{}}"#));
        }
        other => panic!("no array but {:?}", other),
    }
}

#[test]
fn scalars_are_payloads_too() {
    assert!(matches!(parse_payload(b"null"), Some(JsonValue::Null)));
    assert!(matches!(parse_payload(b" true "), Some(JsonValue::Bool(true))));
    assert_eq!(plain(&parse_payload(b"5").unwrap()), parsed("5"));
    assert_eq!(plain(&parse_payload(b"\"s\"").unwrap()), parsed("\"s\""));
    assert_eq!(plain(&parse_payload(b"[]").unwrap()), parsed("[]"));
    assert_eq!(plain(&parse_payload(b"{}").unwrap()), parsed("{}"));
}

#[test]
fn what_is_no_json_is_no_payload() {
    assert!(parse_payload(b"").is_none());
    assert!(parse_payload(b"{").is_none());
    assert!(parse_payload(b"{\"a\":}").is_none());
    assert!(parse_payload(b"1 2").is_none());
    assert!(parse_payload(b"nul").is_none());
    assert!(parse_payload(&[0xff, 0xfe]).is_none());
    assert!(parse_payload(b"\"\xff\"").is_none());
}

#[test]
fn of_two_members_with_one_key_the_parser_keeps_the_last() {
    let value = parse_payload(br#"{"k":1,"k":2}"#).unwrap();
    match &value {
        JsonValue::Object(members) => assert_eq!(members.len(), 1),
        other => panic!("no object but {:?}", other),
    }
    assert_eq!(plain(db_get(&value, &keys(&["k"])).unwrap()), parsed("2"));
}

#[test]
fn a_parsed_tree_becomes_the_same_value() {
    let tree = parsed(r#"{"z":{"y":[{"x":[[],[null]]}]},"a":0.25,"m":-7}"#);
    let value = from_json(tree.clone());
    assert_eq!(plain(&value), tree);
    match &value {
        JsonValue::Object(members) => {
            let names: Vec<&str> = members.iter().map(|(k, _)| k.as_str()).collect();
            assert_eq!(names, vec!["a", "m", "z"]);
        }
        other => panic!("no object but {:?}", other),
    }
}

#[test]
fn a_write_is_staged_from_the_bytes_of_its_payload() {
    let mut db = Database::new();
    let mut etags = Etags::new();
    let staged = match post_bytes(&db, &keys(&["a", "b"]), Some(br#"{"c":[1,2]}"#)) {
        Step::Persist(staged) => staged,
        other => panic!("nothing staged but {:?}", other),
    };
    assert_eq!(finish(&mut db, &mut etags, staged, true).status, 200);
    assert_eq!(db.version, 1);
    assert_eq!(plain(&db.data), parsed(r#"{"a":{"b":{"c":[1,2]}}}"#));
    for body in [Some(&b"{not json"[..]), None] {
        match post_bytes(&db, &keys(&["a"]), body) {
            Step::Respond(response) => assert_eq!(response.status, 503),
            other => panic!("no response but {:?}", other),
        }
    }
    match post_bytes(&db, &keys(&["a", "b", "c", "d"]), Some(b"1")) {
        Step::Respond(response) => assert_eq!(response.status, 400),
        other => panic!("no response but {:?}", other),
    }
    assert_eq!(db.version, 1);
}

#[test]
fn a_value_becomes_the_same_tree() {
    let value = JsonValue::Object(vec![
        ("b".to_string(), JsonValue::Array(vec![JsonValue::Null, JsonValue::Bool(false)])),
        ("a".to_string(), JsonValue::Number(serde_json::Number::from(7u64))),
        ("s".to_string(), JsonValue::String("t".to_string())),
        ("o".to_string(), JsonValue::Object(vec![])),
    ]);
    assert_eq!(to_json(&value), parsed(r#"{"a":7,"b":[null,false],"o":{},"s":"t"}"#));
    assert_eq!(to_json(&JsonValue::Null), serde_json::Value::Null);
    assert_eq!(serde_json::to_string(&to_json(&value)).unwrap(), r#"{"a":7,"b":[null,false],"o":{},"s":"t"}"#);
}

#[test]
fn of_two_members_with_one_key_the_tree_keeps_the_last() {
    let value = JsonValue::Object(vec![
        ("k".to_string(), JsonValue::Bool(true)),
        ("j".to_string(), JsonValue::Null),
        ("k".to_string(), JsonValue::Bool(false)),
    ]);
    assert_eq!(to_json(&value), parsed(r#"{"j":null,"k":false}"#));
    assert_eq!(plain(db_get(&value, &keys(&["k"])).unwrap()), parsed("false"));
}

#[test]
fn there_and_back_is_the_same_value() {
    for text in ["null", "[1,[2,[3]]]", r#"{"a":{"b":{"c":"d"}},"e":[{},{"f":1.5e10}]}"#, "\"\\u00e9\"", "-0.0"] {
        let tree = parsed(text);
        assert_eq!(to_json(&from_json(tree.clone())), tree);
    }
}
