//! JSON text and `serde_json`: a payload is parsed by `serde_json`, and what
//! it gives is turned into a value of this library; a value of this
//! library is turned into one of `serde_json`, which can write it.

use crate::document::find_member;
use crate::json::{items_model, members_model, Json};
use vstd::prelude::*;

verus! {

/// `serde_json::Value`, the tree that the parser builds. It is taken apart
/// by `open` and not looked into otherwise.
#[verifier::external_type_specification]
#[verifier::external_body]
pub struct ExJsonValue(serde_json::Value);

/// The JSON value that a `serde_json::Value` is.
pub uninterp spec fn json_of(value: serde_json::Value) -> Json;

/// What `serde_json::from_slice` makes of a text as a `serde_json::Value`:
/// the JSON value that the text stands for, `None` where the parser
/// refuses the text.
pub uninterp spec fn parsed_json(text: Seq<u8>) -> Option<Json>;

/// Calls `serde_json::from_slice::<serde_json::Value>`. Trusted: the outcome
/// depends on the bytes alone, and it is what `parsed_json` names. `None`
/// stands for the parser's error.
#[verifier::external_body]
fn parse_text(text: &[u8]) -> (r: Option<serde_json::Value>)
    ensures
        match parsed_json(text@) {
            Some(json) => r is Some && json_of(r->Some_0) == json,
            None => r is None,
        },
{
    serde_json::from_slice::<serde_json::Value>(text).ok()
}

/// A `serde_json::Value` taken apart by one level: its variant, with what
/// the variant holds.
pub enum Opened {
    Null,
    Bool(bool),
    Number(serde_json::Number),
    String(String),
    Array(Vec<serde_json::Value>),
    Object(Vec<(String, serde_json::Value)>),
}

/// The model of a list of parsed members: each inserted in order.
pub open spec fn parsed_members(members: Seq<(String, serde_json::Value)>) -> Map<Seq<char>, Json>
    decreases members.len(),
{
    if members.len() == 0 {
        Map::empty()
    } else {
        parsed_members(members.drop_last()).insert(members.last().0@, json_of(members.last().1))
    }
}

/// The JSON value that the parts of an opened value make up.
pub open spec fn opened_model(opened: Opened) -> Json {
    match opened {
        Opened::Null => Json::Null,
        Opened::Bool(b) => Json::Bool(b),
        Opened::Number(n) => Json::Number(n),
        Opened::String(s) => Json::String(s@),
        Opened::Array(items) => Json::Array(Seq::new(items@.len(), |i: int| json_of(items@[i]))),
        Opened::Object(members) => Json::Object(parsed_members(members@)),
    }
}

/// No two members have the same key.
pub open spec fn distinct_keys(members: Seq<(String, serde_json::Value)>) -> bool {
    forall|i: int, j: int|
        0 <= i < j < members.len() ==> (#[trigger] members[i]).0@ != (#[trigger] members[j]).0@
}

/// Takes a `serde_json::Value` apart by matching on its variants; the
/// members of an object are handed out by `serde_json::Map::into_iter`.
/// Trusted: the parts make up the value, and an object has each key once.
#[verifier::external_body]
fn open(value: serde_json::Value) -> (r: Opened)
    ensures
        opened_model(r) == json_of(value),
        r matches Opened::Object(members) ==> distinct_keys(members@),
{
    match value {
        serde_json::Value::Null => Opened::Null,
        serde_json::Value::Bool(b) => Opened::Bool(b),
        serde_json::Value::Number(n) => Opened::Number(n),
        serde_json::Value::String(s) => Opened::String(s),
        serde_json::Value::Array(items) => Opened::Array(items),
        serde_json::Value::Object(map) => Opened::Object(map.into_iter().collect()),
    }
}

/// Among members with distinct keys each member's value is what the model
/// holds under its key, and the model has finitely many keys.
proof fn lemma_parsed_members(members: Seq<(String, serde_json::Value)>, i: int)
    requires
        distinct_keys(members),
        0 <= i < members.len(),
    ensures
        parsed_members(members).dom().finite(),
        parsed_members(members).contains_key(members[i].0@),
        parsed_members(members)[members[i].0@] == json_of(members[i].1),
    decreases members.len(),
{
    let init = members.drop_last();
    lemma_parsed_members_finite(members);
    if i < members.len() - 1 {
        assert forall|a: int, b: int| 0 <= a < b < init.len() implies (#[trigger] init[a]).0@ != (
        #[trigger] init[b]).0@ by {
            assert(members[a].0@ != members[b].0@);
        }
        lemma_parsed_members(init, i);
        assert(init[i] == members[i]);
        assert(members[i].0@ != members[members.len() - 1].0@);
    }
}

proof fn lemma_parsed_members_finite(members: Seq<(String, serde_json::Value)>)
    ensures
        parsed_members(members).dom().finite(),
    decreases members.len(),
{
    if members.len() > 0 {
        lemma_parsed_members_finite(members.drop_last());
    }
}

/// A key is in the model of parsed members exactly if some member has it.
proof fn lemma_parsed_domain(members: Seq<(String, serde_json::Value)>, key: Seq<char>)
    ensures
        parsed_members(members).contains_key(key) <==> exists|i: int|
            0 <= i < members.len() && (#[trigger] members[i]).0@ == key,
    decreases members.len(),
{
    if members.len() > 0 {
        let init = members.drop_last();
        lemma_parsed_domain(init, key);
        if parsed_members(members).contains_key(key) {
            if members.last().0@ == key {
                assert(members[members.len() - 1].0@ == key);
            } else {
                let i = choose|i: int| 0 <= i < init.len() && (#[trigger] init[i]).0@ == key;
                assert(members[i].0@ == key);
            }
        }
        if exists|i: int| 0 <= i < members.len() && (#[trigger] members[i]).0@ == key {
            let i = choose|i: int| 0 <= i < members.len() && (#[trigger] members[i]).0@ == key;
            if i < members.len() - 1 {
                assert(init[i].0@ == key);
            }
        }
    }
}

/// No later member has the key of the member at `k`.
pub open spec fn last_of_its_key(members: Seq<(String, crate::json::JsonValue)>, k: int) -> bool {
    forall|j: int| k < j < members.len() ==> (#[trigger] members[j]).0@ != members[k].0@
}

/// Among the members before `n`, a key that occurs has a last occurrence.
proof fn lemma_last_occurrence(
    members: Seq<(String, crate::json::JsonValue)>,
    key: Seq<char>,
    n: int,
) -> (k: int)
    requires
        0 <= n <= members.len(),
        exists|i: int| 0 <= i < n && (#[trigger] members[i]).0@ == key,
    ensures
        0 <= k < n,
        members[k].0@ == key,
        forall|j: int| k < j < n ==> (#[trigger] members[j]).0@ != key,
    decreases n,
{
    if members[n - 1].0@ == key {
        n - 1
    } else {
        let i = choose|i: int| 0 <= i < n && (#[trigger] members[i]).0@ == key;
        assert(i < n - 1);
        lemma_last_occurrence(members, key, n - 1)
    }
}

/// The members that are the last of their key, converted, are the object
/// that all the members make up.
proof fn lemma_last_members_model(
    members: Seq<(String, crate::json::JsonValue)>,
    converted: Seq<(String, serde_json::Value)>,
    picked: Seq<int>,
)
    requires
        converted.len() == picked.len(),
        forall|j: int|
            0 <= j < picked.len() ==> 0 <= (#[trigger] picked[j]) < members.len()
                && converted[j].0@ == members[picked[j]].0@ && json_of(converted[j].1)
                == members[picked[j]].1@ && last_of_its_key(members, picked[j]),
        forall|a: int, b: int| 0 <= a < b < picked.len() ==> picked[a] < picked[b],
        forall|k: int|
            0 <= k < members.len() && #[trigger] last_of_its_key(members, k) ==> picked.contains(k),
    ensures
        distinct_keys(converted),
        parsed_members(converted) == members_model(members),
{
    assert forall|a: int, b: int| 0 <= a < b < converted.len() implies (#[trigger] converted[a]).0@
        != (#[trigger] converted[b]).0@ by {
        assert(picked[a] < picked[b]);
        assert(last_of_its_key(members, picked[a]));
        assert(members[picked[b]].0@ != members[picked[a]].0@);
    }
    let left = parsed_members(converted);
    let right = members_model(members);
    assert forall|key: Seq<char>| left.contains_key(key) <==> right.contains_key(key) by {
        lemma_parsed_domain(converted, key);
        crate::json::lemma_members_domain(members, key);
        if left.contains_key(key) {
            let j = choose|j: int| 0 <= j < converted.len() && (#[trigger] converted[j]).0@ == key;
            assert(members[picked[j]].0@ == key);
        }
        if right.contains_key(key) {
            let k = lemma_last_occurrence(members, key, members.len() as int);
            assert(last_of_its_key(members, k));
            assert(picked.contains(k));
            let j = choose|j: int| 0 <= j < picked.len() && picked[j] == k;
            assert(converted[j].0@ == key);
        }
    }
    assert forall|key: Seq<char>| left.contains_key(key) implies left[key] == right[key] by {
        lemma_parsed_domain(converted, key);
        let j = choose|j: int| 0 <= j < converted.len() && (#[trigger] converted[j]).0@ == key;
        lemma_parsed_members(converted, j);
        assert(last_of_its_key(members, picked[j]));
        crate::json::lemma_members_last_wins(members, key, picked[j]);
    }
    assert(left =~= right);
}

/// The value of this library that a parsed value is.
pub fn from_json(value: serde_json::Value) -> (r: crate::json::JsonValue)
    ensures
        r@ == json_of(value),
    decreases json_of(value),
{
    let ghost whole = json_of(value);
    match open(value) {
        Opened::Null => crate::json::JsonValue::Null,
        Opened::Bool(b) => crate::json::JsonValue::Bool(b),
        Opened::Number(n) => crate::json::JsonValue::Number(n),
        Opened::String(s) => crate::json::JsonValue::String(s),
        Opened::Array(items) => {
            let ghost parts = items@;
            let mut converted: Vec<crate::json::JsonValue> = Vec::new();
            for item in it: items
                invariant
                    it.seq() == parts,
                    whole == json_of(value),
                    whole == Json::Array(Seq::new(parts.len(), |i: int| json_of(parts[i]))),
                    converted.len() == it.index(),
                    forall|k: int|
                        0 <= k < converted.len() ==> (#[trigger] converted[k])@ == json_of(parts[k]),
            {
                proof {
                    let at = it.index() as int;
                    assert(item == parts[at]);
                    assert(whole->Array_0[at] == json_of(item));
                    assert(decreases_to!(whole => whole->Array_0));
                    assert(decreases_to!(whole->Array_0 => whole->Array_0[at]));
                }
                let value = from_json(item);
                converted.push(value);
            }
            proof {
                crate::json::lemma_items_model(converted@);
                assert(items_model(converted@) =~= whole->Array_0);
            }
            crate::json::JsonValue::Array(converted)
        },
        Opened::Object(members) => {
            let ghost parts = members@;
            let mut converted: Vec<(String, crate::json::JsonValue)> = Vec::new();
            assert(parts.take(0) =~= Seq::<(String, serde_json::Value)>::empty());
            for member in it: members
                invariant
                    it.seq() == parts,
                    distinct_keys(parts),
                    whole == json_of(value),
                    whole == Json::Object(parsed_members(parts)),
                    converted.len() == it.index(),
                    members_model(converted@) == parsed_members(parts.take(it.index() as int)),
            {
                let ghost at = it.index() as int;
                let (key, item) = member;
                proof {
                    assert((key, item) == parts[at]);
                    lemma_parsed_members(parts, at);
                    assert(decreases_to!(whole => whole->Object_0));
                    assert(decreases_to!(whole->Object_0 => whole->Object_0[key@]));
                }
                let value = from_json(item);
                proof {
                    assert(parts.take(at + 1).drop_last() =~= parts.take(at));
                    assert(parts.take(at + 1).last() == parts[at]);
                    assert(converted@.push((key, value)).drop_last() =~= converted@);
                }
                converted.push((key, value));
            }
            proof {
                assert(parts.take(parts.len() as int) =~= parts);
            }
            crate::json::JsonValue::Object(converted)
        },
    }
}

/// Puts a `serde_json::Value` together from its parts, variant by variant;
/// the members of an object, each with a key of its own, are collected into
/// a `serde_json::Map`. Trusted: the value is what the parts make up.
#[verifier::external_body]
fn close(opened: Opened) -> (r: serde_json::Value)
    requires
        opened matches Opened::Object(members) ==> distinct_keys(members@),
    ensures
        json_of(r) == opened_model(opened),
{
    match opened {
        Opened::Null => serde_json::Value::Null,
        Opened::Bool(b) => serde_json::Value::Bool(b),
        Opened::Number(n) => serde_json::Value::Number(n),
        Opened::String(s) => serde_json::Value::String(s),
        Opened::Array(items) => serde_json::Value::Array(items),
        Opened::Object(members) => serde_json::Value::Object(members.into_iter().collect()),
    }
}

/// The `serde_json::Value` that a value of this library is, for what is to
/// be written as JSON text.
pub fn to_json(value: &crate::json::JsonValue) -> (r: serde_json::Value)
    ensures
        json_of(r) == value@,
    decreases value,
{
    match value {
        crate::json::JsonValue::Null => close(Opened::Null),
        crate::json::JsonValue::Bool(b) => close(Opened::Bool(*b)),
        crate::json::JsonValue::Number(n) => close(Opened::Number(crate::json::clone_number(n))),
        crate::json::JsonValue::String(s) => close(Opened::String(s.clone())),
        crate::json::JsonValue::Array(items) => {
            let mut converted: Vec<serde_json::Value> = Vec::new();
            let mut i: usize = 0;
            while i < items.len()
                invariant
                    i <= items.len(),
                    converted.len() == i,
                    forall|k: int| 0 <= k < i ==> json_of(#[trigger] converted[k]) == items[k]@,
                    forall|k: int| 0 <= k < items.len() ==> decreases_to!(value => items[k]),
                decreases items.len() - i,
            {
                let item = to_json(&items[i]);
                converted.push(item);
                i = i + 1;
            }
            proof {
                crate::json::lemma_items_model(items@);
                assert(Seq::new(converted@.len(), |k: int| json_of(converted@[k])) =~= items_model(
                    items@,
                ));
            }
            close(Opened::Array(converted))
        },
        crate::json::JsonValue::Object(members) => {
            let mut converted: Vec<(String, serde_json::Value)> = Vec::new();
            let ghost mut picked: Seq<int> = Seq::empty();
            let mut i: usize = 0;
            while i < members.len()
                invariant
                    i <= members.len(),
                    converted.len() == picked.len(),
                    forall|j: int|
                        0 <= j < picked.len() ==> 0 <= (#[trigger] picked[j]) < i
                            && converted[j].0@ == members[picked[j]].0@ && json_of(converted[j].1)
                            == members[picked[j]].1@ && last_of_its_key(members@, picked[j]),
                    forall|a: int, b: int| 0 <= a < b < picked.len() ==> picked[a] < picked[b],
                    forall|k: int|
                        0 <= k < i && #[trigger] last_of_its_key(members@, k) ==> picked.contains(k),
                    forall|k: int| 0 <= k < members.len() ==> decreases_to!(value => members[k]),
                decreases members.len() - i,
            {
                let found = find_member(members, &members[i].0);
                proof {
                    crate::json::lemma_members_domain(members@, members[i as int].0@);
                    if found is Some && found->Some_0 != i {
                        let k = found->Some_0;
                        assert(k > i) by {
                            if k < i {
                                assert(members[i as int].0@ != members[i as int].0@);
                            }
                        }
                        assert(members@[k as int].0@ == members@[i as int].0@);
                    }
                }
                let last = match found {
                    Some(k) => k == i,
                    None => false,
                };
                if last {
                    let key = members[i].0.clone();
                    let item = to_json(&members[i].1);
                    converted.push((key, item));
                    proof {
                        let before = picked;
                        picked = picked.push(i as int);
                        assert forall|k: int|
                            0 <= k < i + 1 && #[trigger] last_of_its_key(
                                members@,
                                k,
                            ) implies picked.contains(k) by {
                            if k < i {
                                assert(before.contains(k));
                                let j = choose|j: int| 0 <= j < before.len() && before[j] == k;
                                assert(picked[j] == k);
                            } else {
                                assert(picked[picked.len() - 1] == k);
                            }
                        }
                    }
                } else {
                    assert(!last_of_its_key(members@, i as int));
                }
                i = i + 1;
            }
            proof {
                lemma_last_members_model(members@, converted@, picked);
            }
            close(Opened::Object(converted))
        },
    }
}

/// The value that a text is as JSON; `None` where the text is no JSON.
pub fn parse_payload(text: &[u8]) -> (r: Option<crate::json::JsonValue>)
    ensures
        match parsed_json(text@) {
            Some(json) => r is Some && r->Some_0@ == json,
            None => r is None,
        },
{
    match parse_text(text) {
        Some(value) => Some(from_json(value)),
        None => None,
    }
}

} // verus!
