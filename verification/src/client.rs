//! What a client of the store computes before it sends a request: the path
//! of the URL, and the path under which a user's data lies.

use crate::document::path_view;
use vstd::prelude::*;
use vstd::string::StringExecFns;

verus! {

/// What went wrong for a client, in words.
#[derive(Debug, PartialEq, Eq, PartialOrd, Ord)]
pub struct Error(pub String);

impl Clone for Error {
    fn clone(&self) -> (r: Self)
        ensures
            r.0@ == self.0@,
    {
        Error(self.0.clone())
    }
}

impl Error {
    /// The words of the error.
    pub fn message(&self) -> (r: String)
        ensures
            r@ == self.0@,
    {
        self.0.clone()
    }
}

/// The keys of a path with a slash between each two.
pub open spec fn joined(path: Seq<Seq<char>>) -> Seq<char>
    decreases path.len(),
{
    if path.len() == 0 {
        Seq::empty()
    } else if path.len() == 1 {
        path[0]
    } else {
        joined(path.drop_last()) + seq!['/'] + path.last()
    }
}

/// The path under which the data of `user` at `path` lies: `user`, the
/// user's name, then the keys of `path`.
pub open spec fn user_keys(user: Seq<char>, path: Seq<Seq<char>>) -> Seq<Seq<char>> {
    seq!["user"@, user] + path
}

/// The path of the URL for a document path: the keys as they are, with a
/// slash between each two.
pub fn build_subpath(path: &Vec<String>) -> (r: String)
    ensures
        r@ == joined(path_view(path@)),
{
    let mut subpath = String::new();
    let mut i: usize = 0;
    while i < path.len()
        invariant
            i <= path.len(),
            subpath@ == joined(path_view(path@).take(i as int)),
        decreases path.len() - i,
    {
        proof {
            assert(path_view(path@).take(i + 1).drop_last() =~= path_view(path@).take(i as int));
        }
        if i > 0 {
            subpath.append("/");
        }
        subpath.append(path[i].as_str());
        proof {
            reveal_strlit("/");
            let next = path_view(path@).take(i + 1);
            assert(next.last() == path[i as int]@);
            if i == 0 {
                assert(joined(next) == next[0]);
                assert(joined(next.drop_last()) == Seq::<char>::empty());
            } else {
                assert(joined(next) == joined(next.drop_last()) + seq!['/'] + next.last());
            }
            assert(subpath@ =~= joined(next));
        }
        i = i + 1;
    }
    assert(path_view(path@).take(path.len() as int) =~= path_view(path@));
    subpath
}

/// The document path of the data of `user` at `path`.
pub fn user_path(user: &String, path: &Vec<String>) -> (r: Vec<String>)
    ensures
        path_view(r@) == user_keys(user@, path_view(path@)),
{
    let mut keys: Vec<String> = Vec::new();
    keys.push(String::from_str("user"));
    keys.push(user.clone());
    let mut i: usize = 0;
    while i < path.len()
        invariant
            i <= path.len(),
            keys.len() == i + 2,
            keys[0]@ == "user"@,
            keys[1]@ == user@,
            forall|k: int| 0 <= k < i ==> (#[trigger] keys[k + 2])@ == path[k]@,
        decreases path.len() - i,
    {
        keys.push(path[i].clone());
        i = i + 1;
    }
    proof {
        let wanted = user_keys(user@, path_view(path@));
        assert(wanted.len() == keys.len());
        assert forall|k: int| 0 <= k < keys.len() implies path_view(keys@)[k] == wanted[k] by {
            if k >= 2 {
                assert(keys[(k - 2) + 2]@ == path[k - 2]@);
            }
        }
        assert(path_view(keys@) =~= wanted);
    }
    keys
}

} // verus!
