//! The version cache: for some paths, the version at which what stands
//! there last changed. It is filled on reads and emptied around each write.

use crate::document::{db_get, get_at, path_prefix, path_view, Database};
use crate::json::JsonValue;
use vstd::prelude::*;

verus! {

/// The model of the cache: from path to version.
pub type Versions = Map<Seq<Seq<char>>, nat>;

/// The model of a list of entries: each inserted in order, so that a later
/// one replaces an earlier one with the same path.
pub open spec fn entries_map(entries: Seq<(Vec<String>, usize)>) -> Versions
    decreases entries.len(),
{
    if entries.len() == 0 {
        Map::empty()
    } else {
        entries_map(entries.drop_last()).insert(
            path_view(entries.last().0@),
            entries.last().1 as nat,
        )
    }
}

/// The version cached for the longest of the first `n + 1` prefixes of
/// `path` (those of length `n`, `n - 1`, down to the empty one) that has an
/// entry.
pub open spec fn cached_version(cache: Versions, path: Seq<Seq<char>>, n: int) -> Option<nat>
    decreases n + 1,
{
    if n < 0 {
        None
    } else if cache.contains_key(path.take(n)) {
        Some(cache[path.take(n)])
    } else {
        cached_version(cache, path, n - 1)
    }
}

/// The version that a read of `path` reports: that of the longest cached
/// prefix, or the document's own where no prefix is cached.
pub open spec fn version_for(cache: Versions, path: Seq<Seq<char>>, current: nat) -> nat {
    match cached_version(cache, path, path.len() as int) {
        Some(version) => version,
        None => current,
    }
}

/// The cache after a read of `path` that found a value: where no prefix was
/// cached, the path now is, with the document's version.
pub open spec fn after_read(cache: Versions, path: Seq<Seq<char>>, current: nat) -> Versions {
    if cached_version(cache, path, path.len() as int) is Some {
        cache
    } else {
        cache.insert(path, current)
    }
}

/// One path begins with the other: they are the same, or one lies above
/// the other.
pub open spec fn related(a: Seq<Seq<char>>, b: Seq<Seq<char>>) -> bool {
    a.is_prefix_of(b) || b.is_prefix_of(a)
}

/// The cache after a write at `path`: no entry is left for the path, for
/// any path above it or for any path below it; then, where the write put a
/// value there, the path gets the new version.
pub open spec fn wiped(cache: Versions, path: Seq<Seq<char>>, replace: Option<nat>) -> Versions {
    let kept = Map::new(|k: Seq<Seq<char>>| cache.contains_key(k) && !related(k, path), |k: Seq<Seq<char>>| cache[k]);
    match replace {
        Some(version) => kept.insert(path, version),
        None => kept,
    }
}

/// Every cached version for `path`, for a path above it or for a path below
/// it is at least `version`.
pub open spec fn no_older_than(cache: Versions, path: Seq<Seq<char>>, version: nat) -> bool {
    forall|k: Seq<Seq<char>>| #[trigger]
        cache.contains_key(k) && related(k, path) ==> cache[k] >= version
}

/// A write at `path` evicts: afterwards no path above or below `path` has
/// an entry, and `path` itself has one exactly if the write put a value
/// there, with the new version. Entries for other paths stay as they were.
pub proof fn lemma_wipe_evicts(
    cache: Versions,
    path: Seq<Seq<char>>,
    replace: Option<nat>,
    k: Seq<Seq<char>>,
)
    ensures
        related(k, path) && k != path ==> !wiped(cache, path, replace).contains_key(k),
        wiped(cache, path, replace).contains_key(path) <==> replace is Some,
        replace is Some ==> wiped(cache, path, replace)[path] == replace->Some_0,
        !related(k, path) ==> (wiped(cache, path, replace).contains_key(k) <==> cache.contains_key(
            k,
        )),
        !related(k, path) && cache.contains_key(k) ==> wiped(cache, path, replace)[k] == cache[k],
{
    assert(path.is_prefix_of(path));
}

/// Each prefix of a path that lies above or below `path`, or is `path`,
/// does so too.
pub proof fn lemma_prefix_stays_related(q: Seq<Seq<char>>, path: Seq<Seq<char>>, n: int)
    requires
        related(q, path),
        0 <= n <= q.len(),
    ensures
        related(q.take(n), path),
{
    let k = q.take(n);
    if q.is_prefix_of(path) {
        assert(k =~= path.subrange(0, n));
    } else if n <= path.len() {
        assert(k =~= path.subrange(0, n));
    } else {
        assert(path =~= k.subrange(0, path.len() as int));
    }
}

/// Where no cached version around `path` is older than `version`, a read of
/// `q`, which is `path` or lies above or below it, reports a version that is
/// no older either, as long as the document's version is not.
pub proof fn lemma_read_no_older(
    cache: Versions,
    path: Seq<Seq<char>>,
    version: nat,
    q: Seq<Seq<char>>,
    current: nat,
)
    requires
        no_older_than(cache, path, version),
        related(q, path),
        current >= version,
    ensures
        version_for(cache, q, current) >= version,
{
    lemma_cached_no_older(cache, path, version, q, q.len() as int);
}

proof fn lemma_cached_no_older(
    cache: Versions,
    path: Seq<Seq<char>>,
    version: nat,
    q: Seq<Seq<char>>,
    n: int,
)
    requires
        no_older_than(cache, path, version),
        related(q, path),
        n <= q.len(),
    ensures
        cached_version(cache, q, n) matches Some(found) ==> found >= version,
    decreases n + 1,
{
    if n >= 0 {
        lemma_prefix_stays_related(q, path, n);
        if !cache.contains_key(q.take(n)) {
            lemma_cached_no_older(cache, path, version, q, n - 1);
        }
    }
}

/// After a write at `path` with the new version `version`, no cached
/// version around `path` is older than `version`; after a deletion there is
/// none at all.
pub proof fn lemma_wipe_leaves_none_older(
    cache: Versions,
    path: Seq<Seq<char>>,
    replace: Option<nat>,
    version: nat,
)
    requires
        replace matches Some(entered) ==> entered >= version,
    ensures
        no_older_than(wiped(cache, path, replace), path, version),
{
}

/// That no cached version around `path` is older than `version` stays true
/// over a read, at any path, of a document whose version is no older.
pub proof fn lemma_read_keeps_none_older(
    cache: Versions,
    path: Seq<Seq<char>>,
    version: nat,
    q: Seq<Seq<char>>,
    current: nat,
)
    requires
        no_older_than(cache, path, version),
        current >= version,
    ensures
        no_older_than(after_read(cache, q, current), path, version),
{
}

/// That no cached version around `path` is older than `version` stays true
/// over a later write, at any path, with a version that is no older.
pub proof fn lemma_wipe_keeps_none_older(
    cache: Versions,
    path: Seq<Seq<char>>,
    version: nat,
    at: Seq<Seq<char>>,
    replace: Option<nat>,
)
    requires
        no_older_than(cache, path, version),
        replace matches Some(entered) ==> entered >= version,
    ensures
        no_older_than(wiped(cache, at, replace), path, version),
{
}

/// The cache errs towards "changed": right after a write at `path` with the
/// new version `version`, a read of `path`, of a path above it or of a path
/// below it reports a version that is at least `version`.
pub proof fn lemma_read_after_write(
    cache: Versions,
    path: Seq<Seq<char>>,
    replace: Option<nat>,
    version: nat,
    q: Seq<Seq<char>>,
    current: nat,
)
    requires
        replace matches Some(entered) ==> entered >= version,
        related(q, path),
        current >= version,
    ensures
        version_for(wiped(cache, path, replace), q, current) >= version,
{
    lemma_wipe_leaves_none_older(cache, path, replace, version);
    lemma_read_no_older(wiped(cache, path, replace), path, version, q, current);
}

/// The model of an optional version.
pub open spec fn version_model(version: Option<usize>) -> Option<nat> {
    match version {
        Some(v) => Some(v as nat),
        None => None,
    }
}

/// The version cache.
#[derive(Debug)]
pub struct Etags {
    entries: Vec<(Vec<String>, usize)>,
}

impl View for Etags {
    type V = Versions;

    closed spec fn view(&self) -> Versions {
        entries_map(self.entries@)
    }
}

proof fn lemma_entries_domain(entries: Seq<(Vec<String>, usize)>, path: Seq<Seq<char>>)
    ensures
        entries_map(entries).contains_key(path) <==> exists|i: int|
            0 <= i < entries.len() && path_view((#[trigger] entries[i]).0@) == path,
    decreases entries.len(),
{
    if entries.len() > 0 {
        let init = entries.drop_last();
        lemma_entries_domain(init, path);
        if entries_map(entries).contains_key(path) {
            if path_view(entries.last().0@) == path {
                assert(path_view(entries[entries.len() - 1].0@) == path);
            } else {
                let i = choose|i: int|
                    0 <= i < init.len() && path_view((#[trigger] init[i]).0@) == path;
                assert(path_view(entries[i].0@) == path);
            }
        }
        if exists|i: int| 0 <= i < entries.len() && path_view((#[trigger] entries[i]).0@) == path {
            let i = choose|i: int|
                0 <= i < entries.len() && path_view((#[trigger] entries[i]).0@) == path;
            if i < entries.len() - 1 {
                assert(path_view(init[i].0@) == path);
            }
        }
    }
}

proof fn lemma_entries_last_wins(entries: Seq<(Vec<String>, usize)>, path: Seq<Seq<char>>, i: int)
    requires
        0 <= i < entries.len(),
        path_view(entries[i].0@) == path,
        forall|j: int| i < j < entries.len() ==> path_view((#[trigger] entries[j]).0@) != path,
    ensures
        entries_map(entries).contains_key(path),
        entries_map(entries)[path] == entries[i].1 as nat,
    decreases entries.len(),
{
    if i < entries.len() - 1 {
        let init = entries.drop_last();
        assert(path_view(entries[entries.len() - 1].0@) != path);
        assert forall|j: int| i < j < init.len() implies path_view((#[trigger] init[j]).0@)
            != path by {
            assert(path_view(entries[j].0@) != path);
        }
        lemma_entries_last_wins(init, path, i);
    }
}

/// Whether `key` is the path made of the first `n` keys of `path`.
pub fn is_prefix_of_length(key: &Vec<String>, path: &Vec<String>, n: usize) -> (r: bool)
    requires
        n <= path.len(),
    ensures
        r == (path_view(key@) == path_view(path@).take(n as int)),
{
    if key.len() != n {
        assert(path_view(key@).len() != path_view(path@).take(n as int).len());
        return false;
    }
    let mut i: usize = 0;
    while i < n
        invariant
            i <= n,
            n == key.len(),
            n <= path.len(),
            forall|k: int| 0 <= k < i ==> (#[trigger] key[k])@ == path[k]@,
        decreases n - i,
    {
        if key[i] != path[i] {
            assert(path_view(key@)[i as int] != path_view(path@).take(n as int)[i as int]);
            return false;
        }
        i = i + 1;
    }
    assert(path_view(key@) =~= path_view(path@).take(n as int));
    true
}

/// Whether `path` begins with `prefix`.
pub fn starts_with(path: &Vec<String>, prefix: &Vec<String>) -> (r: bool)
    ensures
        r == path_view(prefix@).is_prefix_of(path_view(path@)),
{
    if prefix.len() > path.len() {
        return false;
    }
    let r = is_prefix_of_length(prefix, path, prefix.len());
    assert(path_view(path@).take(prefix.len() as int) =~= path_view(path@).subrange(
        0,
        prefix.len() as int,
    ));
    r
}

impl Etags {
    /// A cache without entries.
    pub fn new() -> (r: Etags)
        ensures
            r@ == Versions::empty(),
    {
        Etags { entries: Vec::new() }
    }

    /// The version cached for exactly the first `n` keys of `path`.
    pub fn lookup(&self, path: &Vec<String>, n: usize) -> (r: Option<usize>)
        requires
            n <= path.len(),
        ensures
            match r {
                Some(version) => self@.contains_key(path_view(path@).take(n as int))
                    && self@[path_view(path@).take(n as int)] == version as nat,
                None => !self@.contains_key(path_view(path@).take(n as int)),
            },
    {
        let ghost wanted = path_view(path@).take(n as int);
        let mut k: usize = self.entries.len();
        while k > 0
            invariant
                k <= self.entries.len(),
                n <= path.len(),
                wanted == path_view(path@).take(n as int),
                forall|j: int|
                    k <= j < self.entries.len() ==> path_view((#[trigger] self.entries[j]).0@)
                        != wanted,
            decreases k,
        {
            k = k - 1;
            if is_prefix_of_length(&self.entries[k].0, path, n) {
                proof {
                    lemma_entries_last_wins(self.entries@, wanted, k as int);
                }
                return Some(self.entries[k].1);
            }
        }
        proof {
            lemma_entries_domain(self.entries@, wanted);
        }
        None
    }

    /// The version cached for the longest prefix of `path` that has an
    /// entry, the path itself and the empty prefix included.
    pub fn version_of(&self, path: &Vec<String>) -> (r: Option<usize>)
        ensures
            match r {
                Some(version) => cached_version(self@, path_view(path@), path.len() as int)
                    == Some(version as nat),
                None => cached_version(self@, path_view(path@), path.len() as int) is None,
            },
    {
        let mut n: usize = path.len();
        loop
            invariant
                n <= path.len(),
                cached_version(self@, path_view(path@), path.len() as int) == cached_version(
                    self@,
                    path_view(path@),
                    n as int,
                ),
            decreases n,
        {
            match self.lookup(path, n) {
                Some(version) => {
                    return Some(version);
                },
                None => {},
            }
            if n == 0 {
                assert(cached_version(self@, path_view(path@), -1) is None);
                return None;
            }
            n = n - 1;
        }
    }

    /// Enters `version` for `path`, in place of what was entered for it.
    pub fn insert(&mut self, path: Vec<String>, version: usize)
        ensures
            final(self)@ == old(self)@.insert(path_view(path@), version as nat),
    {
        proof {
            assert(self.entries@.push((path, version)).drop_last() =~= self.entries@);
        }
        self.entries.push((path, version));
    }

    /// Whether nothing is cached.
    pub fn is_empty(&self) -> (r: bool)
        ensures
            r == (self@ == Versions::empty()),
    {
        proof {
            if self.entries.len() > 0 {
                assert(self@.contains_key(path_view(self.entries@.last().0@)));
            }
        }
        self.entries.len() == 0
    }
}

/// The value at `path` with the version to report for it. `None` where the
/// path holds nothing; the cache is then left as it is. Else the version is
/// that of the longest cached prefix of the path; where no prefix is
/// cached, it is the document's version, which is then entered for the
/// path.
pub fn get<'a>(db: &'a Database, etags: &mut Etags, path: &Vec<String>) -> (r: Option<
    (&'a JsonValue, usize),
>)
    ensures
        match get_at(db@.data, path_view(path@)) {
            Some(found) => r is Some && r->Some_0.0@ == found && r->Some_0.1 as nat
                == version_for(old(etags)@, path_view(path@), db@.version) && final(etags)@
                == after_read(old(etags)@, path_view(path@), db@.version),
            None => r is None && final(etags)@ == old(etags)@,
        },
{
    match db_get(&db.data, path) {
        None => None,
        Some(at) => match etags.version_of(path) {
            Some(version) => Some((at, version)),
            None => {
                let key = path_prefix(path, path.len());
                assert(path_view(path@).take(path.len() as int) =~= path_view(path@));
                etags.insert(key, db.version);
                Some((at, db.version))
            },
        },
    }
}

/// Empties the cache around a write at `at`: the entries for `at`, for the
/// paths above it and for the paths below it go. Where the write put a
/// value there (`replace` holds the new version), `at` is entered with it.
pub fn wipe_etags(etags: &mut Etags, at: &Vec<String>, replace: Option<usize>)
    ensures
        final(etags)@ == wiped(old(etags)@, path_view(at@), version_model(replace)),
{
    let ghost target = path_view(at@);
    let ghost before = etags.entries@;
    let mut kept: Vec<(Vec<String>, usize)> = Vec::new();
    let mut i: usize = 0;
    assert(entries_map(kept@) =~= wiped(entries_map(before.take(0)), target, None));
    while i < etags.entries.len()
        invariant
            i <= etags.entries.len(),
            etags.entries@ == before,
            target == path_view(at@),
            entries_map(kept@) == wiped(entries_map(before.take(i as int)), target, None),
        decreases etags.entries.len() - i,
    {
        proof {
            assert(before.take(i + 1).drop_last() =~= before.take(i as int));
        }
        let ghost seen = entries_map(before.take(i as int));
        let key = &etags.entries[i].0;
        let version = etags.entries[i].1;
        if starts_with(at, key) || starts_with(key, at) {
            assert(wiped(seen.insert(path_view(key@), version as nat), target, None) =~= wiped(
                seen,
                target,
                None,
            ));
        } else {
            let copy = path_prefix(key, key.len());
            proof {
                assert(path_view(key@).take(key.len() as int) =~= path_view(key@));
                assert(kept@.push((copy, version)).drop_last() =~= kept@);
                assert(wiped(seen.insert(path_view(key@), version as nat), target, None) =~= wiped(
                    seen,
                    target,
                    None,
                ).insert(path_view(key@), version as nat));
            }
            kept.push((copy, version));
        }
        i = i + 1;
    }
    assert(before.take(before.len() as int) =~= before);
    match replace {
        Some(version) => {
            let key = path_prefix(at, at.len());
            proof {
                assert(path_view(at@).take(at.len() as int) =~= path_view(at@));
                assert(kept@.push((key, version)).drop_last() =~= kept@);
            }
            kept.push((key, version));
        },
        None => {},
    }
    etags.entries = kept;
}

} // verus!
