//! The document: one JSON tree with a version counter, read and changed at
//! paths of object keys.

use crate::json::{
    lemma_members_domain, lemma_members_last_wins, members_model, Json, Kind, JsonValue,
};
use vstd::prelude::*;

verus! {

/// The model of a path: the key at each step.
pub open spec fn path_view(path: Seq<String>) -> Seq<Seq<char>> {
    Seq::new(path.len(), |i: int| path[i]@)
}

/// Why a path could not be followed: at `path_prefix` stands a value of kind
/// `actual_type` that is no container, or, where `actual_type` is `None`,
/// nothing at all.
#[derive(Debug)]
pub struct StructuralError {
    pub path_prefix: Vec<String>,
    pub actual_type: Option<Kind>,
}

/// The model of a `StructuralError`.
pub struct StructuralFault {
    pub path_prefix: Seq<Seq<char>>,
    pub actual_type: Option<Kind>,
}

impl View for StructuralError {
    type V = StructuralFault;

    open spec fn view(&self) -> StructuralFault {
        StructuralFault { path_prefix: path_view(self.path_prefix@), actual_type: self.actual_type }
    }
}

/// The value that `node` holds at `path[i..]`, if every step but the last
/// goes through an object that has the key.
pub open spec fn get_from(node: Json, path: Seq<Seq<char>>, i: int) -> Option<Json>
    decreases path.len() - i,
{
    if i >= path.len() {
        Some(node)
    } else {
        match node {
            Json::Object(m) => if m.contains_key(path[i]) {
                get_from(m[path[i]], path, i + 1)
            } else {
                None
            },
            _ => None,
        }
    }
}

/// The value at `path` under `root`; the empty path names the root itself.
pub open spec fn get_at(root: Json, path: Seq<Seq<char>>) -> Option<Json> {
    get_from(root, path, 0)
}

/// `node` with the slot at `path[i..]` overwritten by `value`. On the way
/// down, `null` and absent members become objects; any other value that is
/// no object stops the descent.
pub open spec fn set_from(node: Json, path: Seq<Seq<char>>, i: int, value: Json) -> Result<
    Json,
    StructuralFault,
>
    decreases path.len() - i,
{
    if i >= path.len() {
        Ok(value)
    } else {
        match node {
            Json::Null => match set_from(Json::Null, path, i + 1, value) {
                Ok(child) => Ok(Json::Object(Map::empty().insert(path[i], child))),
                Err(e) => Err(e),
            },
            Json::Object(m) => {
                let old_child = if m.contains_key(path[i]) {
                    m[path[i]]
                } else {
                    Json::Null
                };
                match set_from(old_child, path, i + 1, value) {
                    Ok(child) => Ok(Json::Object(m.insert(path[i], child))),
                    Err(e) => Err(e),
                }
            },
            _ => Err(
                StructuralFault { path_prefix: path.take(i), actual_type: Some(node.kind()) },
            ),
        }
    }
}

/// `root` with the slot at `path` overwritten by `value`.
pub open spec fn set_at(root: Json, path: Seq<Seq<char>>, value: Json) -> Result<
    Json,
    StructuralFault,
> {
    set_from(root, path, 0, value)
}

/// `node` without the member that `path[i..]` names, for `i < path.len()`.
/// Every step goes through an object; every step but the last needs its key.
pub open spec fn delete_from(node: Json, path: Seq<Seq<char>>, i: int) -> Result<
    Json,
    StructuralFault,
>
    decreases path.len() - i,
{
    match node {
        Json::Object(m) => if i + 1 >= path.len() {
            Ok(Json::Object(m.remove(path[i])))
        } else if m.contains_key(path[i]) {
            match delete_from(m[path[i]], path, i + 1) {
                Ok(child) => Ok(Json::Object(m.insert(path[i], child))),
                Err(e) => Err(e),
            }
        } else {
            Err(StructuralFault { path_prefix: path.take(i + 1), actual_type: None })
        },
        _ => Err(StructuralFault { path_prefix: path.take(i), actual_type: Some(node.kind()) }),
    }
}

/// `root` without what `path` names; deleting the empty path leaves `null`.
pub open spec fn delete_at(root: Json, path: Seq<Seq<char>>) -> Result<Json, StructuralFault> {
    if path.len() == 0 {
        Ok(Json::Null)
    } else {
        delete_from(root, path, 0)
    }
}

/// The index of the last member of `members` with the key `key`: the
/// member whose value the object holds under the key.
pub fn find_member(members: &Vec<(String, JsonValue)>, key: &String) -> (r: Option<usize>)
    ensures
        match r {
            Some(k) => k < members.len() && members[k as int].0@ == key@ && (forall|j: int|
                k < j < members.len() ==> (#[trigger] members[j]).0@ != key@) && members_model(
                members@,
            ).contains_key(key@) && members_model(members@)[key@] == members[k as int].1@,
            None => !members_model(members@).contains_key(key@),
        },
{
    let mut k: usize = members.len();
    while k > 0
        invariant
            k <= members.len(),
            forall|j: int| k <= j < members.len() ==> (#[trigger] members[j]).0@ != key@,
        decreases k,
    {
        k = k - 1;
        if members[k].0 == *key {
            proof {
                lemma_members_last_wins(members@, key@, k as int);
            }
            return Some(k);
        }
    }
    proof {
        lemma_members_domain(members@, key@);
    }
    None
}

/// Copies of the members of `members` whose key is not `key`, in their order.
pub fn without_member(members: &Vec<(String, JsonValue)>, key: &String) -> (r: Vec<(String, JsonValue)>)
    ensures
        members_model(r@) == members_model(members@).remove(key@),
{
    let mut kept: Vec<(String, JsonValue)> = Vec::new();
    let mut i: usize = 0;
    while i < members.len()
        invariant
            i <= members.len(),
            members_model(kept@) == members_model(members@.take(i as int)).remove(key@),
        decreases members.len() - i,
    {
        proof {
            assert(members@.take(i + 1).drop_last() == members@.take(i as int));
        }
        if members[i].0 != *key {
            let k = members[i].0.clone();
            let v = members[i].1.clone();
            proof {
                assert(kept@.push((k, v)).drop_last() == kept@);
                let before = members_model(members@.take(i as int));
                assert(before.remove(key@).insert(k@, v@) == before.insert(k@, v@).remove(key@));
            }
            kept.push((k, v));
        } else {
            proof {
                let before = members_model(members@.take(i as int));
                assert(before.remove(key@) == before.insert(
                    key@,
                    members[i as int].1@,
                ).remove(key@));
            }
        }
        i = i + 1;
    }
    proof {
        assert(members@.take(members.len() as int) == members@);
    }
    kept
}

/// Copies of the first `n` keys of `path`.
pub fn path_prefix(path: &Vec<String>, n: usize) -> (r: Vec<String>)
    requires
        n <= path.len(),
    ensures
        path_view(r@) == path_view(path@).take(n as int),
{
    let mut prefix: Vec<String> = Vec::new();
    let mut i: usize = 0;
    while i < n
        invariant
            i <= n <= path.len(),
            prefix.len() == i,
            forall|j: int| 0 <= j < i ==> (#[trigger] prefix[j])@ == path[j]@,
        decreases n - i,
    {
        prefix.push(path[i].clone());
        i = i + 1;
    }
    proof {
        assert(path_view(prefix@) =~= path_view(path@).take(n as int));
    }
    prefix
}

/// The value at `path` under `root`: `None` where a step meets a value that
/// is no object, or an object without the key. The empty path gives the
/// root.
pub fn db_get<'a>(root: &'a JsonValue, path: &Vec<String>) -> (r: Option<&'a JsonValue>)
    ensures
        match get_at(root@, path_view(path@)) {
            Some(found) => r is Some && r->Some_0@ == found,
            None => r is None,
        },
{
    let mut at: &JsonValue = root;
    let mut i: usize = 0;
    while i < path.len()
        invariant
            i <= path.len(),
            get_from(at@, path_view(path@), i as int) == get_at(root@, path_view(path@)),
        decreases path.len() - i,
    {
        match at {
            JsonValue::Object(members) => match find_member(members, &path[i]) {
                Some(k) => {
                    at = &members[k].1;
                },
                None => {
                    return None;
                },
            },
            _ => {
                return None;
            },
        }
        i = i + 1;
    }
    Some(at)
}

/// A copy of `node` with the slot at `path[i..]` overwritten by `value`.
fn set_below(node: &JsonValue, path: &Vec<String>, i: usize, value: JsonValue) -> (r: Result<
    JsonValue,
    StructuralError,
>)
    requires
        i <= path.len(),
    ensures
        match set_from(node@, path_view(path@), i as int, value@) {
            Ok(tree) => r is Ok && r->Ok_0@ == tree,
            Err(fault) => r is Err && r->Err_0@ == fault,
        },
    decreases path.len() - i,
{
    if i >= path.len() {
        return Ok(value);
    }
    match node {
        JsonValue::Null => {
            let child = set_below(&JsonValue::Null, path, i + 1, value)?;
            let mut members: Vec<(String, JsonValue)> = Vec::new();
            let key = path[i].clone();
            proof {
                assert(members@.push((key, child)).drop_last() == members@);
                assert(members_model(members@) == Map::<Seq<char>, Json>::empty());
            }
            members.push((key, child));
            Ok(JsonValue::Object(members))
        },
        JsonValue::Object(members) => {
            let found = find_member(members, &path[i]);
            let child = match found {
                Some(k) => set_below(&members[k].1, path, i + 1, value)?,
                None => set_below(&JsonValue::Null, path, i + 1, value)?,
            };
            let mut rest = without_member(members, &path[i]);
            let key = path[i].clone();
            proof {
                assert(rest@.push((key, child)).drop_last() == rest@);
                let m = members_model(members@);
                assert(m.remove(key@).insert(key@, child@) == m.insert(key@, child@));
            }
            rest.push((key, child));
            assert(members_model(rest@) =~= members_model(members@).insert(key@, child@));
            Ok(JsonValue::Object(rest))
        },
        _ => Err(StructuralError { path_prefix: path_prefix(path, i), actual_type: Some(node.kind()) }),
    }
}

/// A copy of `root` with the slot at `path` overwritten by `value`, nothing
/// merged. On the way down `null` and absent members become objects. Fails
/// where a step meets any other value that is no object, and then reports
/// where that value stands and its kind.
pub fn db_set(root: &JsonValue, path: &Vec<String>, value: JsonValue) -> (r: Result<JsonValue, StructuralError>)
    ensures
        match set_at(root@, path_view(path@), value@) {
            Ok(tree) => r is Ok && r->Ok_0@ == tree,
            Err(fault) => r is Err && r->Err_0@ == fault,
        },
{
    set_below(root, path, 0, value)
}

/// A copy of `node` without the member that `path[i..]` names.
fn delete_below(node: &JsonValue, path: &Vec<String>, i: usize) -> (r: Result<JsonValue, StructuralError>)
    requires
        i < path.len(),
    ensures
        match delete_from(node@, path_view(path@), i as int) {
            Ok(tree) => r is Ok && r->Ok_0@ == tree,
            Err(fault) => r is Err && r->Err_0@ == fault,
        },
    decreases path.len() - i,
{
    match node {
        JsonValue::Object(members) => {
            if i + 1 >= path.len() {
                Ok(JsonValue::Object(without_member(members, &path[i])))
            } else {
                match find_member(members, &path[i]) {
                    Some(k) => {
                        let child = delete_below(&members[k].1, path, i + 1)?;
                        let mut rest = without_member(members, &path[i]);
                        let key = path[i].clone();
                        proof {
                            assert(rest@.push((key, child)).drop_last() == rest@);
                            let m = members_model(members@);
                            assert(m.remove(key@).insert(key@, child@) == m.insert(
                                key@,
                                child@,
                            ));
                        }
                        rest.push((key, child));
                        Ok(JsonValue::Object(rest))
                    },
                    None => Err(
                        StructuralError { path_prefix: path_prefix(path, i + 1), actual_type: None },
                    ),
                }
            }
        },
        _ => Err(StructuralError { path_prefix: path_prefix(path, i), actual_type: Some(node.kind()) }),
    }
}

/// A copy of `root` without what `path` names. Deleting the empty path
/// leaves `null`; deleting a key that its parent does not have changes
/// nothing. Fails where the parent, or a value above it, is no object or is
/// not there.
pub fn db_delete(root: &JsonValue, path: &Vec<String>) -> (r: Result<JsonValue, StructuralError>)
    ensures
        match delete_at(root@, path_view(path@)) {
            Ok(tree) => r is Ok && r->Ok_0@ == tree,
            Err(fault) => r is Err && r->Err_0@ == fault,
        },
{
    if path.len() == 0 {
        Ok(JsonValue::Null)
    } else {
        delete_below(root, path, 0)
    }
}

/// The document: the JSON tree with the number of changes made to it.
#[derive(Debug)]
pub struct Database {
    pub version: usize,
    pub data: JsonValue,
}

/// The model of a document.
pub struct DatabaseModel {
    pub version: nat,
    pub data: Json,
}

impl View for Database {
    type V = DatabaseModel;

    open spec fn view(&self) -> DatabaseModel {
        DatabaseModel { version: self.version as nat, data: self.data@ }
    }
}

impl Clone for Database {
    fn clone(&self) -> (r: Self)
        ensures
            r@ == self@,
    {
        Database { version: self.version, data: self.data.clone() }
    }
}

/// A change to the document.
pub enum Change {
    /// Overwrite the slot at a path with a value.
    Write(Seq<Seq<char>>, Json),
    /// Remove what a path names.
    Remove(Seq<Seq<char>>),
}

/// The document after `change`: the version one higher and the tree
/// changed, or the fault that stops the change.
pub open spec fn changed(db: DatabaseModel, change: Change) -> Result<DatabaseModel, StructuralFault> {
    let tree = match change {
        Change::Write(path, value) => set_at(db.data, path, value),
        Change::Remove(path) => delete_at(db.data, path),
    };
    match tree {
        Ok(data) => Ok(DatabaseModel { version: db.version + 1, data }),
        Err(fault) => Err(fault),
    }
}

impl Database {
    /// The document of a store that holds nothing yet: version 0, `null`.
    pub fn new() -> (r: Database)
        ensures
            r@ == (DatabaseModel { version: 0, data: Json::Null }),
    {
        Database { version: 0, data: JsonValue::Null }
    }

    /// The next document where the slot at `path` is overwritten by `value`:
    /// a changed copy with the version one higher. This document stays as
    /// it is.
    pub fn replaced(&self, path: &Vec<String>, value: JsonValue) -> (r: Result<
        Database,
        StructuralError,
    >)
        requires
            self.version < usize::MAX,
        ensures
            match changed(self@, Change::Write(path_view(path@), value@)) {
                Ok(next) => r is Ok && r->Ok_0@ == next,
                Err(fault) => r is Err && r->Err_0@ == fault,
            },
    {
        match db_set(&self.data, path, value) {
            Ok(data) => Ok(Database { version: self.version + 1, data }),
            Err(e) => Err(e),
        }
    }

    /// The next document where what `path` names is removed: a changed copy
    /// with the version one higher. This document stays as it is.
    pub fn deleted(&self, path: &Vec<String>) -> (r: Result<Database, StructuralError>)
        requires
            self.version < usize::MAX,
        ensures
            match changed(self@, Change::Remove(path_view(path@))) {
                Ok(next) => r is Ok && r->Ok_0@ == next,
                Err(fault) => r is Err && r->Err_0@ == fault,
            },
    {
        match db_delete(&self.data, path) {
            Ok(data) => Ok(Database { version: self.version + 1, data }),
            Err(e) => Err(e),
        }
    }
}

/// Writing and then reading: after a write at `path` succeeds, the value at
/// `path` is exactly the value written.
pub proof fn lemma_set_then_get(root: Json, path: Seq<Seq<char>>, value: Json)
    requires
        set_at(root, path, value) is Ok,
    ensures
        get_at(set_at(root, path, value)->Ok_0, path) == Some(value),
{
    lemma_set_then_get_from(root, path, 0, value);
}

proof fn lemma_set_then_get_from(node: Json, path: Seq<Seq<char>>, i: int, value: Json)
    requires
        0 <= i <= path.len(),
        set_from(node, path, i, value) is Ok,
    ensures
        get_from(set_from(node, path, i, value)->Ok_0, path, i) == Some(value),
    decreases path.len() - i,
{
    if i < path.len() {
        match node {
            Json::Null => {
                lemma_set_then_get_from(Json::Null, path, i + 1, value);
            },
            Json::Object(m) => {
                let old_child = if m.contains_key(path[i]) {
                    m[path[i]]
                } else {
                    Json::Null
                };
                lemma_set_then_get_from(old_child, path, i + 1, value);
            },
            _ => {},
        }
    }
}

/// What a path holds depends on the keys still to go alone.
proof fn lemma_get_from_suffix(
    node: Json,
    a: Seq<Seq<char>>,
    i: int,
    b: Seq<Seq<char>>,
    j: int,
)
    requires
        0 <= i <= a.len(),
        0 <= j <= b.len(),
        a.skip(i) == b.skip(j),
    ensures
        get_from(node, a, i) == get_from(node, b, j),
    decreases a.len() - i,
{
    assert(a.len() - i == b.len() - j) by {
        assert(a.skip(i).len() == a.len() - i);
        assert(b.skip(j).len() == b.len() - j);
    }
    if i < a.len() {
        assert(a[i] == a.skip(i)[0]);
        assert(b[j] == b.skip(j)[0]);
        assert(a.skip(i + 1) =~= a.skip(i).skip(1));
        assert(b.skip(j + 1) =~= b.skip(j).skip(1));
        match node {
            Json::Object(m) => {
                if m.contains_key(a[i]) {
                    lemma_get_from_suffix(m[a[i]], a, i + 1, b, j + 1);
                }
            },
            _ => {},
        }
    }
}

/// Writing and then reading below: after a write at `path` succeeds, a path
/// that goes on from `path` holds what the value written holds there.
pub proof fn lemma_set_then_get_below(
    root: Json,
    path: Seq<Seq<char>>,
    value: Json,
    rest: Seq<Seq<char>>,
)
    requires
        set_at(root, path, value) is Ok,
    ensures
        get_at(set_at(root, path, value)->Ok_0, path + rest) == get_at(value, rest),
{
    lemma_set_then_get_below_from(root, path, 0, value, rest);
    assert((path + rest).skip(path.len() as int) =~= rest.skip(0));
    lemma_get_from_suffix(value, path + rest, path.len() as int, rest, 0);
}

proof fn lemma_set_then_get_below_from(
    node: Json,
    path: Seq<Seq<char>>,
    i: int,
    value: Json,
    rest: Seq<Seq<char>>,
)
    requires
        0 <= i <= path.len(),
        set_from(node, path, i, value) is Ok,
    ensures
        get_from(set_from(node, path, i, value)->Ok_0, path + rest, i) == get_from(
            value,
            path + rest,
            path.len() as int,
        ),
    decreases path.len() - i,
{
    if i < path.len() {
        assert((path + rest)[i] == path[i]);
        match node {
            Json::Null => {
                lemma_set_then_get_below_from(Json::Null, path, i + 1, value, rest);
            },
            Json::Object(m) => {
                let old_child = if m.contains_key(path[i]) {
                    m[path[i]]
                } else {
                    Json::Null
                };
                lemma_set_then_get_below_from(old_child, path, i + 1, value, rest);
            },
            _ => {},
        }
    }
}

/// Deleting and then reading below: after a deletion at a path that is not
/// empty succeeds, no path that goes on from it holds anything.
pub proof fn lemma_delete_then_get_below(root: Json, path: Seq<Seq<char>>, rest: Seq<Seq<char>>)
    requires
        path.len() > 0,
        delete_at(root, path) is Ok,
    ensures
        get_at(delete_at(root, path)->Ok_0, path + rest) is None,
{
    lemma_delete_then_get_below_from(root, path, 0, rest);
}

proof fn lemma_delete_then_get_below_from(
    node: Json,
    path: Seq<Seq<char>>,
    i: int,
    rest: Seq<Seq<char>>,
)
    requires
        0 <= i < path.len(),
        delete_from(node, path, i) is Ok,
    ensures
        get_from(delete_from(node, path, i)->Ok_0, path + rest, i) is None,
    decreases path.len() - i,
{
    assert((path + rest)[i] == path[i]);
    match node {
        Json::Object(m) => {
            if i + 1 < path.len() {
                lemma_delete_then_get_below_from(m[path[i]], path, i + 1, rest);
            }
        },
        _ => {},
    }
}

/// A write at `path` changes nothing at a path that parts ways with it:
/// what `other` holds is the same before and after, where neither path
/// begins with the other.
pub proof fn lemma_set_keeps_unrelated(
    root: Json,
    path: Seq<Seq<char>>,
    value: Json,
    other: Seq<Seq<char>>,
)
    requires
        set_at(root, path, value) is Ok,
        !path.is_prefix_of(other),
        !other.is_prefix_of(path),
    ensures
        get_at(set_at(root, path, value)->Ok_0, other) == get_at(root, other),
{
    let d = lemma_parting_index(path, other);
    lemma_set_frame_from(root, path, 0, value, other, d);
}

/// Two paths of which neither begins with the other agree up to some index
/// that both have, and differ there.
pub proof fn lemma_parting_index(a: Seq<Seq<char>>, b: Seq<Seq<char>>) -> (d: int)
    requires
        !a.is_prefix_of(b),
        !b.is_prefix_of(a),
    ensures
        0 <= d < a.len(),
        d < b.len(),
        a[d] != b[d],
        forall|k: int| 0 <= k < d ==> a[k] == b[k],
{
    lemma_parting_index_from(a, b, 0)
}

proof fn lemma_parting_index_from(a: Seq<Seq<char>>, b: Seq<Seq<char>>, i: int) -> (d: int)
    requires
        !a.is_prefix_of(b),
        !b.is_prefix_of(a),
        0 <= i <= a.len(),
        i <= b.len(),
        forall|k: int| 0 <= k < i ==> a[k] == b[k],
    ensures
        0 <= d < a.len(),
        d < b.len(),
        a[d] != b[d],
        forall|k: int| 0 <= k < d ==> a[k] == b[k],
    decreases a.len() - i,
{
    if i == a.len() {
        assert(a =~= b.subrange(0, a.len() as int));
        0
    } else if i == b.len() {
        assert(b =~= a.subrange(0, b.len() as int));
        0
    } else if a[i] != b[i] {
        i
    } else {
        lemma_parting_index_from(a, b, i + 1)
    }
}

proof fn lemma_set_frame_from(
    node: Json,
    path: Seq<Seq<char>>,
    i: int,
    value: Json,
    other: Seq<Seq<char>>,
    d: int,
)
    requires
        0 <= i <= d,
        d < path.len(),
        d < other.len(),
        path[d] != other[d],
        forall|k: int| i <= k < d ==> path[k] == other[k],
        set_from(node, path, i, value) is Ok,
    ensures
        get_from(set_from(node, path, i, value)->Ok_0, other, i) == get_from(node, other, i),
    decreases path.len() - i,
{
    if i < d {
        match node {
            Json::Null => {
                lemma_set_frame_from(Json::Null, path, i + 1, value, other, d);
            },
            Json::Object(m) => {
                let old_child = if m.contains_key(path[i]) {
                    m[path[i]]
                } else {
                    Json::Null
                };
                lemma_set_frame_from(old_child, path, i + 1, value, other, d);
            },
            _ => {},
        }
    }
}

/// Deleting and then reading: after a deletion at a path that is not empty
/// succeeds, nothing is at that path. After deleting the empty path the
/// root is `null`.
pub proof fn lemma_delete_then_get(root: Json, path: Seq<Seq<char>>)
    requires
        delete_at(root, path) is Ok,
    ensures
        path.len() > 0 ==> get_at(delete_at(root, path)->Ok_0, path) is None,
        path.len() == 0 ==> get_at(delete_at(root, path)->Ok_0, path) == Some(Json::Null),
{
    if path.len() > 0 {
        lemma_delete_then_get_from(root, path, 0);
    }
}

proof fn lemma_delete_then_get_from(node: Json, path: Seq<Seq<char>>, i: int)
    requires
        0 <= i < path.len(),
        delete_from(node, path, i) is Ok,
    ensures
        get_from(delete_from(node, path, i)->Ok_0, path, i) is None,
    decreases path.len() - i,
{
    match node {
        Json::Object(m) => {
            if i + 1 < path.len() {
                lemma_delete_then_get_from(m[path[i]], path, i + 1);
            }
        },
        _ => {},
    }
}

/// A deletion that fails finds nothing to delete: the path held no value.
pub proof fn lemma_delete_fails_only_on_absent(root: Json, path: Seq<Seq<char>>)
    requires
        delete_at(root, path) is Err,
    ensures
        get_at(root, path) is None,
{
    lemma_delete_fails_from(root, path, 0);
}

proof fn lemma_delete_fails_from(node: Json, path: Seq<Seq<char>>, i: int)
    requires
        0 <= i < path.len(),
        delete_from(node, path, i) is Err,
    ensures
        get_from(node, path, i) is None,
    decreases path.len() - i,
{
    match node {
        Json::Object(m) => {
            if i + 1 < path.len() && m.contains_key(path[i]) {
                lemma_delete_fails_from(m[path[i]], path, i + 1);
            }
        },
        _ => {},
    }
}

/// A deletion at `path` changes nothing at a path that parts ways with it,
/// the siblings of `path` among them.
pub proof fn lemma_delete_keeps_unrelated(root: Json, path: Seq<Seq<char>>, other: Seq<Seq<char>>)
    requires
        delete_at(root, path) is Ok,
        !path.is_prefix_of(other),
        !other.is_prefix_of(path),
    ensures
        get_at(delete_at(root, path)->Ok_0, other) == get_at(root, other),
{
    let d = lemma_parting_index(path, other);
    lemma_delete_frame_from(root, path, 0, other, d);
}

proof fn lemma_delete_frame_from(
    node: Json,
    path: Seq<Seq<char>>,
    i: int,
    other: Seq<Seq<char>>,
    d: int,
)
    requires
        0 <= i <= d,
        d < path.len(),
        d < other.len(),
        path[d] != other[d],
        forall|k: int| i <= k < d ==> path[k] == other[k],
        delete_from(node, path, i) is Ok,
    ensures
        get_from(delete_from(node, path, i)->Ok_0, other, i) == get_from(node, other, i),
    decreases path.len() - i,
{
    match node {
        Json::Object(m) => {
            if i < d {
                lemma_delete_frame_from(m[path[i]], path, i + 1, other, d);
            }
        },
        _ => {},
    }
}


} // verus!
