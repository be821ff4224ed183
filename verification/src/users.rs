//! The tokens that the configuration knows, each with its grants, and the
//! place in the document where further tokens may be kept.

use crate::access::{ascending, grants_map, pairs_view, Access, Grant};
use crate::cache::{after_read, get, Etags};
use crate::config::AccessPair;
use crate::document::{get_at, path_view, Database, DatabaseModel};
use crate::json::{Json, JsonValue};
use vstd::prelude::*;
use vstd::string::StringExecFns;

verus! {

/// The model of the known tokens: each with its grants, in the order of the
/// configuration.
pub type UsersModel = Seq<(Seq<char>, Seq<Grant>)>;

/// The grants of `token`: those of the last entry that has the token.
pub open spec fn grants_of(users: UsersModel, token: Seq<char>) -> Option<Seq<Grant>>
    decreases users.len(),
{
    if users.len() == 0 {
        None
    } else if users.last().0 == token {
        Some(users.last().1)
    } else {
        grants_of(users.drop_last(), token)
    }
}

/// The key under the root of the document at which tokens may be kept that
/// the configuration does not know.
pub open spec fn dynamic_users_path() -> Seq<Seq<char>> {
    seq!["fdap_user"@]
}

/// The tokens that the configuration knows, each with its grants.
#[derive(Debug)]
pub struct Users {
    entries: Vec<(String, Access)>,
}

impl View for Users {
    type V = UsersModel;

    closed spec fn view(&self) -> UsersModel {
        Seq::new(self.entries@.len(), |i: int| (self.entries@[i].0@, self.entries@[i].1@))
    }
}

impl Users {
    /// No tokens.
    pub fn new() -> (r: Users)
        ensures
            r@ == UsersModel::empty(),
    {
        let r = Users { entries: Vec::new() };
        assert(r@ =~= UsersModel::empty());
        r
    }

    /// The tokens of a configuration. Each token gets the grants of its
    /// pairs, in ascending order of their patterns; of two pairs with the
    /// same pattern the later one counts.
    pub fn from_config(users: &Vec<(String, Vec<AccessPair>)>) -> (r: Users)
        ensures
            r@.len() == users.len(),
            forall|i: int|
                0 <= i < users.len() ==> (#[trigger] r@[i]).0 == users[i].0@ && ascending(r@[i].1)
                    && grants_map(r@[i].1) == grants_map(pairs_view(users[i].1@)),
    {
        let mut known = Users { entries: Vec::new() };
        let mut i: usize = 0;
        while i < users.len()
            invariant
                i <= users.len(),
                known@.len() == i,
                forall|k: int|
                    0 <= k < i ==> (#[trigger] known@[k]).0 == users[k].0@ && ascending(
                        known@[k].1,
                    ) && grants_map(known@[k].1) == grants_map(pairs_view(users[k].1@)),
            decreases users.len() - i,
        {
            let ghost before = known@;
            let token = users[i].0.clone();
            let access = Access::from_pairs(&users[i].1);
            known.entries.push((token, access));
            proof {
                assert(known@ =~= before.push((token@, access@)));
            }
            i = i + 1;
        }
        known
    }

    /// The grants of `token`, where the configuration knows it.
    pub fn find(&self, token: &String) -> (r: Option<&Access>)
        ensures
            match grants_of(self@, token@) {
                Some(grants) => r is Some && r->Some_0@ == grants,
                None => r is None,
            },
    {
        let mut k: usize = self.entries.len();
        assert(self@.take(k as int) =~= self@);
        while k > 0
            invariant
                k <= self.entries.len(),
                grants_of(self@, token@) == grants_of(self@.take(k as int), token@),
            decreases k,
        {
            k = k - 1;
            proof {
                assert(self@.take(k + 1).drop_last() =~= self@.take(k as int));
                assert(self@.take(k + 1).last() == self@[k as int]);
            }
            if self.entries[k].0 == *token {
                return Some(&self.entries[k].1);
            }
        }
        None
    }
}

/// Where the grants of a token are to be had.
#[derive(Debug)]
pub enum Lookup<'u, 'd> {
    /// The configuration knows the token: these are its grants.
    Known(&'u Access),
    /// The configuration does not know the token, and the document holds
    /// this value at the place for further tokens: the grants are those
    /// that the value gives the token, if it gives any.
    Dynamic(&'d JsonValue),
    /// Neither knows the token.
    Unknown,
}

/// The model of a lookup.
pub enum LookupModel {
    Known(Seq<Grant>),
    Dynamic(Json),
    Unknown,
}

impl<'u, 'd> View for Lookup<'u, 'd> {
    type V = LookupModel;

    open spec fn view(&self) -> LookupModel {
        match self {
            Lookup::Known(access) => LookupModel::Known(access@),
            Lookup::Dynamic(value) => LookupModel::Dynamic(value@),
            Lookup::Unknown => LookupModel::Unknown,
        }
    }
}

/// Where the grants of `token` are to be had: in the configuration, else
/// in the document, else nowhere.
pub open spec fn lookup_model(users: UsersModel, db: DatabaseModel, token: Seq<char>) -> LookupModel {
    match grants_of(users, token) {
        Some(grants) => LookupModel::Known(grants),
        None => match get_at(db.data, dynamic_users_path()) {
            Some(found) => LookupModel::Dynamic(found),
            None => LookupModel::Unknown,
        },
    }
}

/// Looks a token up: first in the configuration; where that does not know
/// it, at the document's place for further tokens, which is read as any
/// value is, so that the cache is filled as by a read.
pub fn lookup<'u, 'd>(
    users: &'u Users,
    db: &'d Database,
    etags: &mut Etags,
    token: &String,
) -> (r: Lookup<'u, 'd>)
    ensures
        r@ == lookup_model(users@, db@, token@),
        final(etags)@ == (if lookup_model(users@, db@, token@) is Dynamic {
            after_read(old(etags)@, dynamic_users_path(), db@.version)
        } else {
            old(etags)@
        }),
{
    match users.find(token) {
        Some(access) => Lookup::Known(access),
        None => match dynamic_users(db, etags) {
            Some(value) => Lookup::Dynamic(value),
            None => Lookup::Unknown,
        },
    }
}

/// What the document holds at the place for tokens that the configuration
/// does not know, read as any value is: the cache is filled as by a read.
pub fn dynamic_users<'a>(db: &'a Database, etags: &mut Etags) -> (r: Option<&'a JsonValue>)
    ensures
        match get_at(db@.data, dynamic_users_path()) {
            Some(found) => r is Some && r->Some_0@ == found && final(etags)@ == after_read(
                old(etags)@,
                dynamic_users_path(),
                db@.version,
            ),
            None => r is None && final(etags)@ == old(etags)@,
        },
{
    let mut path: Vec<String> = Vec::new();
    path.push(String::from_str("fdap_user"));
    assert(path_view(path@) =~= dynamic_users_path());
    match get(db, etags, &path) {
        Some((value, _)) => Some(value),
        None => None,
    }
}

} // verus!
