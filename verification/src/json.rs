//! JSON values as a tagged tree, and their mathematical model.

use vstd::prelude::*;

verus! {

/// `serde_json::Number`, carried through unopened: no operation of this
/// library looks inside a number.
#[verifier::external_type_specification]
#[verifier::external_body]
pub struct ExNumber(serde_json::Number);

/// Calls `<serde_json::Number as Clone>::clone`. Trusted: the copy is the
/// same number as the one copied.
#[verifier::external_body]
pub(crate) fn clone_number(n: &serde_json::Number) -> (r: serde_json::Number)
    ensures
        r == *n,
{
    n.clone()
}

/// The six kinds of JSON value.
#[derive(Clone, Copy, Debug, PartialEq, Eq, Structural)]
pub enum Kind {
    Null,
    Bool,
    Number,
    String,
    Array,
    Object,
}

/// A JSON value. An object is a list of members; where a key occurs more
/// than once, the last occurrence is the member's value.
#[derive(Debug)]
pub enum JsonValue {
    Null,
    Bool(bool),
    Number(serde_json::Number),
    String(String),
    Array(Vec<JsonValue>),
    Object(Vec<(String, JsonValue)>),
}

/// The mathematical model of a JSON value: strings are sequences of
/// characters, arrays are sequences, objects are maps from key to value.
pub enum Json {
    Null,
    Bool(bool),
    Number(serde_json::Number),
    String(Seq<char>),
    Array(Seq<Json>),
    Object(Map<Seq<char>, Json>),
}

impl Json {
    /// The kind of this value.
    pub open spec fn kind(self) -> Kind {
        match self {
            Json::Null => Kind::Null,
            Json::Bool(_) => Kind::Bool,
            Json::Number(_) => Kind::Number,
            Json::String(_) => Kind::String,
            Json::Array(_) => Kind::Array,
            Json::Object(_) => Kind::Object,
        }
    }
}

/// The model of a list of members: each member inserted in order, so that a
/// later one replaces an earlier one with the same key.
pub open spec fn members_model(members: Seq<(String, JsonValue)>) -> Map<Seq<char>, Json>
    decreases members, 0nat,
{
    if members.len() == 0 {
        Map::empty()
    } else {
        members_model(members.drop_last()).insert(
            members.last().0@,
            value_model(members.last().1),
        )
    }
}

/// The model of a list of array items, item by item.
pub open spec fn items_model(items: Seq<JsonValue>) -> Seq<Json>
    decreases items, 0nat,
{
    if items.len() == 0 {
        Seq::empty()
    } else {
        items_model(items.drop_last()).push(value_model(items.last()))
    }
}

/// The model of a value.
pub open spec fn value_model(v: JsonValue) -> Json
    decreases v, 1nat,
{
    match v {
        JsonValue::Null => Json::Null,
        JsonValue::Bool(b) => Json::Bool(b),
        JsonValue::Number(n) => Json::Number(n),
        JsonValue::String(s) => Json::String(s@),
        JsonValue::Array(items) => Json::Array(items_model(items@)),
        JsonValue::Object(members) => Json::Object(members_model(members@)),
    }
}

impl View for JsonValue {
    type V = Json;

    open spec fn view(&self) -> Json {
        value_model(*self)
    }
}

/// The name under which a kind is reported.
pub open spec fn kind_name(kind: Kind) -> Seq<char> {
    match kind {
        Kind::Null => "null"@,
        Kind::Bool => "bool"@,
        Kind::Number => "number"@,
        Kind::String => "string"@,
        Kind::Array => "array"@,
        Kind::Object => "object"@,
    }
}

impl Kind {
    /// The name under which this kind is reported.
    pub fn name(self) -> (r: &'static str)
        ensures
            r@ == kind_name(self),
    {
        match self {
            Kind::Null => "null",
            Kind::Bool => "bool",
            Kind::Number => "number",
            Kind::String => "string",
            Kind::Array => "array",
            Kind::Object => "object",
        }
    }
}

impl JsonValue {
    /// The kind of this value.
    pub fn kind(&self) -> (r: Kind)
        ensures
            r == self@.kind(),
    {
        match self {
            JsonValue::Null => Kind::Null,
            JsonValue::Bool(_) => Kind::Bool,
            JsonValue::Number(_) => Kind::Number,
            JsonValue::String(_) => Kind::String,
            JsonValue::Array(_) => Kind::Array,
            JsonValue::Object(_) => Kind::Object,
        }
    }
}

/// The name of the kind of `v`: one of `null`, `bool`, `number`, `string`,
/// `array`, `object`.
pub fn json_type(v: &JsonValue) -> (r: &'static str)
    ensures
        r@ == kind_name(v@.kind()),
{
    v.kind().name()
}

/// `items_model` has one item for each value, and each is that value's model.
pub proof fn lemma_items_model(items: Seq<JsonValue>)
    ensures
        items_model(items).len() == items.len(),
        forall|i: int| 0 <= i < items.len() ==> #[trigger] items_model(items)[i] == items[i]@,
    decreases items.len(),
{
    if items.len() > 0 {
        lemma_items_model(items.drop_last());
    }
}

/// A key is in the model of a member list exactly if some member has it.
pub proof fn lemma_members_domain(members: Seq<(String, JsonValue)>, key: Seq<char>)
    ensures
        members_model(members).contains_key(key) <==> exists|i: int|
            0 <= i < members.len() && (#[trigger] members[i]).0@ == key,
    decreases members.len(),
{
    if members.len() > 0 {
        let init = members.drop_last();
        lemma_members_domain(init, key);
        if members_model(members).contains_key(key) {
            if members.last().0@ == key {
                assert(members[members.len() - 1].0@ == key);
            } else {
                let i = choose|i: int| 0 <= i < init.len() && (#[trigger] init[i]).0@ == key;
                assert(members[i].0@ == key);
            }
        }
        if exists|i: int| 0 <= i < members.len() && (#[trigger] members[i]).0@ == key {
            let i = choose|i: int| 0 <= i < members.len() && (#[trigger] members[i]).0@ == key;
            if i < members.len() - 1 {
                assert(init[i].0@ == key);
            }
        }
    }
}

/// The value of a key in the model is that of the last member with the key.
pub proof fn lemma_members_last_wins(members: Seq<(String, JsonValue)>, key: Seq<char>, i: int)
    requires
        0 <= i < members.len(),
        members[i].0@ == key,
        forall|j: int| i < j < members.len() ==> (#[trigger] members[j]).0@ != key,
    ensures
        members_model(members).contains_key(key),
        members_model(members)[key] == members[i].1@,
    decreases members.len(),
{
    if i < members.len() - 1 {
        let init = members.drop_last();
        assert(members[members.len() - 1].0@ != key);
        assert forall|j: int| i < j < init.len() implies (#[trigger] init[j]).0@ != key by {
            assert(members[j].0@ != key);
        }
        lemma_members_last_wins(init, key, i);
    }
}

impl Clone for JsonValue {
    /// A deep copy: the same JSON value, in a tree of its own.
    fn clone(&self) -> (r: Self)
        ensures
            r@ == self@,
        decreases self,
    {
        match self {
            JsonValue::Null => JsonValue::Null,
            JsonValue::Bool(b) => JsonValue::Bool(*b),
            JsonValue::Number(n) => JsonValue::Number(clone_number(n)),
            JsonValue::String(s) => JsonValue::String(s.clone()),
            JsonValue::Array(items) => {
                let mut copy: Vec<JsonValue> = Vec::new();
                let mut i: usize = 0;
                while i < items.len()
                    invariant
                        i <= items.len(),
                        copy.len() == i,
                        items_model(copy@) == items_model(items@.take(i as int)),
                        forall|k: int| 0 <= k < items.len() ==> decreases_to!(self => items[k]),
                    decreases items.len() - i,
                {
                    let item = items[i].clone();
                    proof {
                        let next = items@.take(i + 1);
                        assert(next.drop_last() == items@.take(i as int));
                        assert(copy@.push(item).drop_last() == copy@);
                    }
                    copy.push(item);
                    i = i + 1;
                }
                proof {
                    assert(items@.take(items.len() as int) == items@);
                }
                JsonValue::Array(copy)
            },
            JsonValue::Object(members) => {
                let mut copy: Vec<(String, JsonValue)> = Vec::new();
                let mut i: usize = 0;
                while i < members.len()
                    invariant
                        i <= members.len(),
                        copy.len() == i,
                        members_model(copy@) == members_model(members@.take(i as int)),
                        forall|k: int|
                            0 <= k < members.len() ==> decreases_to!(self => members[k]),
                    decreases members.len() - i,
                {
                    let key = members[i].0.clone();
                    let value = members[i].1.clone();
                    proof {
                        let next = members@.take(i + 1);
                        assert(next.drop_last() == members@.take(i as int));
                        assert(copy@.push((key, value)).drop_last() == copy@);
                    }
                    copy.push((key, value));
                    i = i + 1;
                }
                proof {
                    assert(members@.take(members.len() as int) == members@);
                }
                JsonValue::Object(copy)
            },
        }
    }
}

} // verus!
