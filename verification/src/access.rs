//! The grants of one token: an ordered set of patterns, each with what it
//! allows, and the rule that picks the grant for a request path.

use crate::config::{
    compare_paths, covers, lemma_path_lt_strict_total, literal_pattern, path_le, path_lt,
    pattern_view, seg_admits, seg_lt, seg_lt_fn, AccessAction, AccessPair, AccessPathSeg, Seg,
};
use crate::document::path_view;
use crate::order::{lex_lt_at, Order};
use vstd::prelude::*;

verus! {

/// A grant in the model: a pattern with what it allows.
pub type Grant = (Seq<Seg>, AccessAction);

/// The patterns of `grants` stand in strictly ascending order.
pub open spec fn ascending(grants: Seq<Grant>) -> bool {
    forall|i: int, j: int|
        0 <= i < j < grants.len() ==> path_lt((#[trigger] grants[i]).0, (#[trigger] grants[j]).0)
}

/// The grants as a map from pattern to what is allowed: each inserted in
/// order, so that a later one replaces an earlier one with the same pattern.
pub open spec fn grants_map(grants: Seq<Grant>) -> Map<Seq<Seg>, AccessAction>
    decreases grants.len(),
{
    if grants.len() == 0 {
        Map::empty()
    } else {
        grants_map(grants.drop_last()).insert(grants.last().0, grants.last().1)
    }
}

/// The model of a list of configured pairs.
pub open spec fn pairs_view(pairs: Seq<AccessPair>) -> Seq<Grant> {
    Seq::new(pairs.len(), |i: int| (pattern_view(pairs[i].path@), pairs[i].action))
}

/// A pattern is tried for a request path if it does not come after the path
/// in the order of patterns, and applies if it also covers the path.
pub open spec fn applies(pattern: Seq<Seg>, path: Seq<Seq<char>>) -> bool {
    path_le(pattern, literal_pattern(path)) && covers(pattern, path)
}

/// The grant for `path`: going down from the last of `grants`, the first
/// whose pattern applies.
pub open spec fn resolve_in(grants: Seq<Grant>, path: Seq<Seq<char>>) -> Option<AccessAction>
    decreases grants.len(),
{
    if grants.len() == 0 {
        None
    } else if applies(grants.last().0, path) {
        Some(grants.last().1)
    } else {
        resolve_in(grants.drop_last(), path)
    }
}

/// The grants of one token, kept in ascending order of their patterns, no
/// pattern twice.
#[derive(Debug)]
pub struct Access {
    grants: Vec<(Vec<AccessPathSeg>, AccessAction)>,
}

impl View for Access {
    type V = Seq<Grant>;

    closed spec fn view(&self) -> Seq<Grant> {
        Seq::new(self.grants@.len(), |i: int| (pattern_view(self.grants@[i].0@), self.grants@[i].1))
    }
}

/// A pattern is in the map of `grants` exactly if some grant has it.
pub proof fn lemma_grants_domain(grants: Seq<Grant>, pattern: Seq<Seg>)
    ensures
        grants_map(grants).contains_key(pattern) <==> exists|i: int|
            0 <= i < grants.len() && (#[trigger] grants[i]).0 == pattern,
    decreases grants.len(),
{
    if grants.len() > 0 {
        let init = grants.drop_last();
        lemma_grants_domain(init, pattern);
        if grants_map(grants).contains_key(pattern) {
            if grants.last().0 == pattern {
                assert(grants[grants.len() - 1].0 == pattern);
            } else {
                let i = choose|i: int| 0 <= i < init.len() && (#[trigger] init[i]).0 == pattern;
                assert(grants[i].0 == pattern);
            }
        }
        if exists|i: int| 0 <= i < grants.len() && (#[trigger] grants[i]).0 == pattern {
            let i = choose|i: int| 0 <= i < grants.len() && (#[trigger] grants[i]).0 == pattern;
            if i < grants.len() - 1 {
                assert(init[i].0 == pattern);
            }
        }
    }
}

/// In ascending grants each pattern stands once, and the map gives each
/// pattern what its grant allows.
pub proof fn lemma_grants_map_ascending(grants: Seq<Grant>, i: int)
    requires
        ascending(grants),
        0 <= i < grants.len(),
    ensures
        grants_map(grants).contains_key(grants[i].0),
        grants_map(grants)[grants[i].0] == grants[i].1,
    decreases grants.len(),
{
    let init = grants.drop_last();
    if i < grants.len() - 1 {
        assert forall|a: int, b: int| 0 <= a < b < init.len() implies path_lt(
            (#[trigger] init[a]).0,
            (#[trigger] init[b]).0,
        ) by {
            assert(path_lt(grants[a].0, grants[b].0));
        }
        lemma_grants_map_ascending(init, i);
        assert(init[i] == grants[i]);
        assert(path_lt(grants[i].0, grants[grants.len() - 1].0));
        lemma_path_lt_strict_total(grants[i].0, grants.last().0, grants[i].0);
    }
}

/// Putting a grant into ascending grants at its place, before the first
/// pattern that comes after its own, puts it into the map.
proof fn lemma_insert_in_place(grants: Seq<Grant>, k: int, grant: Grant)
    requires
        ascending(grants),
        0 <= k <= grants.len(),
        forall|i: int| 0 <= i < k ==> path_lt((#[trigger] grants[i]).0, grant.0),
        k < grants.len() ==> path_lt(grant.0, grants[k].0),
    ensures
        ascending(grants.insert(k, grant)),
        grants_map(grants.insert(k, grant)) == grants_map(grants).insert(grant.0, grant.1),
{
    let after = grants.insert(k, grant);
    assert forall|i: int, j: int| 0 <= i < j < after.len() implies path_lt(
        (#[trigger] after[i]).0,
        (#[trigger] after[j]).0,
    ) by {
        if j < k {
            assert(path_lt(grants[i].0, grants[j].0));
        } else if j == k {
            assert(path_lt(grants[i].0, grant.0));
        } else if i == k {
            if j - 1 > k {
                assert(path_lt(grants[k].0, grants[j - 1].0));
            }
            lemma_path_lt_strict_total(grant.0, grants[k].0, grants[j - 1].0);
        } else if i > k {
            assert(path_lt(grants[i - 1].0, grants[j - 1].0));
        } else {
            assert(path_lt(grants[i].0, grant.0));
            if j - 1 > k {
                assert(path_lt(grants[k].0, grants[j - 1].0));
            }
            lemma_path_lt_strict_total(grant.0, grants[k].0, grants[j - 1].0);
            lemma_path_lt_strict_total(grants[i].0, grant.0, grants[j - 1].0);
        }
    }
    assert forall|i: int| 0 <= i < after.len() && i != k implies grants.contains(
        #[trigger] after[i],
    ) by {
        if i < k {
            assert(grants[i] == after[i]);
        } else {
            assert(grants[i - 1] == after[i]);
        }
    }
    assert forall|j: int| 0 <= j < grants.len() && (#[trigger] grants[j]).0 != grant.0 implies after.contains(
        grants[j],
    ) by {
        if j < k {
            assert(after[j] == grants[j]);
        } else {
            assert(after[j + 1] == grants[j]);
        }
    }
    lemma_same_map(after, grants, grant, k);
}

/// Giving the grant at index `k` of ascending grants something else to allow
/// changes the map at its pattern alone.
proof fn lemma_update_in_place(grants: Seq<Grant>, k: int, action: AccessAction)
    requires
        ascending(grants),
        0 <= k < grants.len(),
    ensures
        ascending(grants.update(k, (grants[k].0, action))),
        grants_map(grants.update(k, (grants[k].0, action))) == grants_map(grants).insert(
            grants[k].0,
            action,
        ),
{
    let grant = (grants[k].0, action);
    let after = grants.update(k, grant);
    assert forall|i: int, j: int| 0 <= i < j < after.len() implies path_lt(
        (#[trigger] after[i]).0,
        (#[trigger] after[j]).0,
    ) by {
        assert(path_lt(grants[i].0, grants[j].0));
    }
    assert forall|i: int| 0 <= i < after.len() && i != k implies grants.contains(
        #[trigger] after[i],
    ) by {
        assert(grants[i] == after[i]);
    }
    assert forall|j: int| 0 <= j < grants.len() && (#[trigger] grants[j]).0 != grant.0 implies after.contains(
        grants[j],
    ) by {
        assert(after[j] == grants[j]);
    }
    lemma_same_map(after, grants, grant, k);
}

/// Two ascending lists of grants, of which the first has `grant` at `k` and
/// otherwise the grants of the second whose pattern is not that of `grant`,
/// differ as maps by `grant` alone.
proof fn lemma_same_map(after: Seq<Grant>, before: Seq<Grant>, grant: Grant, k: int)
    requires
        ascending(after),
        ascending(before),
        0 <= k < after.len(),
        after[k] == grant,
        forall|i: int| 0 <= i < after.len() && i != k ==> before.contains(#[trigger] after[i]),
        forall|j: int|
            0 <= j < before.len() && (#[trigger] before[j]).0 != grant.0 ==> after.contains(
                before[j],
            ),
    ensures
        grants_map(after) == grants_map(before).insert(grant.0, grant.1),
{
    let left = grants_map(after);
    let right = grants_map(before).insert(grant.0, grant.1);
    assert forall|p: Seq<Seg>| left.contains_key(p) <==> right.contains_key(p) by {
        lemma_grants_domain(after, p);
        lemma_grants_domain(before, p);
        if left.contains_key(p) && p != grant.0 {
            let i = choose|i: int| 0 <= i < after.len() && (#[trigger] after[i]).0 == p;
            assert(before.contains(after[i]));
            let j = choose|j: int| 0 <= j < before.len() && before[j] == after[i];
            assert(before[j].0 == p);
        }
        if right.contains_key(p) && p != grant.0 {
            let j = choose|j: int| 0 <= j < before.len() && (#[trigger] before[j]).0 == p;
            assert(after.contains(before[j]));
            let i = choose|i: int| 0 <= i < after.len() && after[i] == before[j];
            assert(after[i].0 == p);
        }
        if p == grant.0 {
            assert(after[k].0 == p);
        }
    }
    assert forall|p: Seq<Seg>| left.contains_key(p) implies left[p] == right[p] by {
        lemma_grants_domain(after, p);
        let i = choose|i: int| 0 <= i < after.len() && (#[trigger] after[i]).0 == p;
        lemma_grants_map_ascending(after, i);
        if p == grant.0 {
            lemma_grants_map_ascending(after, k);
        } else {
            assert(before.contains(after[i]));
            let j = choose|j: int| 0 <= j < before.len() && before[j] == after[i];
            lemma_grants_map_ascending(before, j);
        }
    }
    assert(left =~= right);
}

/// What `resolve_in` picks: the last grant whose pattern applies. It gives
/// `None` exactly if no pattern applies.
pub proof fn lemma_resolve_picks_last(grants: Seq<Grant>, path: Seq<Seq<char>>)
    ensures
        match resolve_in(grants, path) {
            Some(action) => exists|i: int|
                0 <= i < grants.len() && (#[trigger] grants[i]).1 == action && applies(
                    grants[i].0,
                    path,
                ) && forall|j: int| i < j < grants.len() ==> !applies((#[trigger] grants[j]).0, path),
            None => forall|j: int| 0 <= j < grants.len() ==> !applies((#[trigger] grants[j]).0, path),
        },
    decreases grants.len(),
{
    if grants.len() > 0 {
        let init = grants.drop_last();
        let n = grants.len() - 1;
        if applies(grants.last().0, path) {
            assert(grants[n].1 == grants.last().1);
        } else {
            lemma_resolve_picks_last(init, path);
            match resolve_in(init, path) {
                Some(action) => {
                    let i = choose|i: int|
                        0 <= i < init.len() && (#[trigger] init[i]).1 == action && applies(
                            init[i].0,
                            path,
                        ) && forall|j: int|
                            i < j < init.len() ==> !applies((#[trigger] init[j]).0, path);
                    assert(grants[i].1 == action);
                    assert forall|j: int| i < j < grants.len() implies !applies(
                        (#[trigger] grants[j]).0,
                        path,
                    ) by {
                        if j < n {
                            assert(!applies(init[j].0, path));
                        }
                    }
                },
                None => {
                    assert forall|j: int| 0 <= j < grants.len() implies !applies(
                        (#[trigger] grants[j]).0,
                        path,
                    ) by {
                        if j < n {
                            assert(!applies(init[j].0, path));
                        }
                    }
                },
            }
        }
    }
}

/// Among ascending grants, the grant that is picked has the greatest of
/// the patterns that apply.
pub proof fn lemma_resolve_picks_greatest(grants: Seq<Grant>, path: Seq<Seq<char>>)
    requires
        ascending(grants),
        resolve_in(grants, path) is Some,
    ensures
        exists|i: int|
            0 <= i < grants.len() && (#[trigger] grants[i]).1 == resolve_in(grants, path)->Some_0
                && applies(grants[i].0, path) && forall|j: int|
                0 <= j < grants.len() && applies((#[trigger] grants[j]).0, path) ==> path_le(
                    grants[j].0,
                    grants[i].0,
                ),
{
    lemma_resolve_picks_last(grants, path);
    let action = resolve_in(grants, path)->Some_0;
    let i = choose|i: int|
        0 <= i < grants.len() && (#[trigger] grants[i]).1 == action && applies(grants[i].0, path)
            && forall|j: int| i < j < grants.len() ==> !applies((#[trigger] grants[j]).0, path);
    assert forall|j: int| 0 <= j < grants.len() && applies((#[trigger] grants[j]).0, path) implies path_le(
        grants[j].0,
        grants[i].0,
    ) by {
        if j < i {
            assert(path_lt(grants[j].0, grants[i].0));
        }
    }
}

/// The grant for a path depends on the set of grants alone: two ascending
/// lists that are the same map from pattern to what is allowed give the
/// same grant for every path.
pub proof fn lemma_resolve_by_map(a: Seq<Grant>, b: Seq<Grant>, path: Seq<Seq<char>>)
    requires
        ascending(a),
        ascending(b),
        grants_map(a) == grants_map(b),
    ensures
        resolve_in(a, path) == resolve_in(b, path),
{
    lemma_resolve_picks_last(a, path);
    lemma_resolve_picks_last(b, path);
    if resolve_in(a, path) is Some {
        lemma_some_applies_in_both(a, b, path);
    }
    if resolve_in(b, path) is Some {
        lemma_some_applies_in_both(b, a, path);
    }
    if resolve_in(a, path) is Some {
        lemma_resolve_picks_greatest(a, path);
        lemma_resolve_picks_greatest(b, path);
        let x = resolve_in(a, path)->Some_0;
        let y = resolve_in(b, path)->Some_0;
        let i = choose|i: int|
            0 <= i < a.len() && (#[trigger] a[i]).1 == x && applies(a[i].0, path) && forall|j: int|
                0 <= j < a.len() && applies((#[trigger] a[j]).0, path) ==> path_le(a[j].0, a[i].0);
        let j = choose|j: int|
            0 <= j < b.len() && (#[trigger] b[j]).1 == y && applies(b[j].0, path) && forall|k: int|
                0 <= k < b.len() && applies((#[trigger] b[k]).0, path) ==> path_le(b[k].0, b[j].0);
        lemma_grants_map_ascending(a, i);
        lemma_grants_map_ascending(b, j);
        lemma_grants_domain(b, a[i].0);
        lemma_grants_domain(a, b[j].0);
        let j2 = choose|k: int| 0 <= k < b.len() && (#[trigger] b[k]).0 == a[i].0;
        let i2 = choose|k: int| 0 <= k < a.len() && (#[trigger] a[k]).0 == b[j].0;
        assert(path_le(b[j2].0, b[j].0));
        assert(path_le(a[i2].0, a[i].0));
        lemma_path_lt_strict_total(a[i].0, b[j].0, a[i].0);
    }
}

proof fn lemma_some_applies_in_both(a: Seq<Grant>, b: Seq<Grant>, path: Seq<Seq<char>>)
    requires
        grants_map(a) == grants_map(b),
        resolve_in(a, path) is Some,
    ensures
        resolve_in(b, path) is Some,
{
    lemma_resolve_picks_last(a, path);
    lemma_resolve_picks_last(b, path);
    let x = resolve_in(a, path)->Some_0;
    let i = choose|i: int|
        0 <= i < a.len() && (#[trigger] a[i]).1 == x && applies(a[i].0, path) && forall|j: int|
            i < j < a.len() ==> !applies((#[trigger] a[j]).0, path);
    lemma_grants_domain(a, a[i].0);
    lemma_grants_domain(b, a[i].0);
    let k = choose|k: int| 0 <= k < b.len() && (#[trigger] b[k]).0 == a[i].0;
    assert(applies(b[k].0, path));
}

/// A pattern that is no longer than a path and covers it does not come
/// after it in the order of patterns, so it applies to it.
pub proof fn lemma_covering_prefix_applies(pattern: Seq<Seg>, path: Seq<Seq<char>>)
    requires
        pattern.len() <= path.len(),
        covers(pattern, path),
    ensures
        applies(pattern, path),
{
    lemma_covering_prefix_from(pattern, path, 0);
}

proof fn lemma_covering_prefix_from(pattern: Seq<Seg>, path: Seq<Seq<char>>, i: int)
    requires
        pattern.len() <= path.len(),
        covers(pattern, path),
        0 <= i <= pattern.len(),
        forall|k: int| 0 <= k < i ==> pattern[k] == literal_pattern(path)[k],
    ensures
        path_le(pattern, literal_pattern(path)),
    decreases pattern.len() - i,
{
    let wanted = literal_pattern(path);
    if i == pattern.len() {
        if pattern.len() == path.len() {
            assert(pattern =~= wanted);
        } else {
            assert(lex_lt_at(pattern, wanted, seg_lt_fn(), i));
        }
    } else if pattern[i] == wanted[i] {
        lemma_covering_prefix_from(pattern, path, i + 1);
    } else {
        assert(seg_admits(pattern[i], path[i]));
        assert(seg_lt(pattern[i], wanted[i]));
        assert(seg_lt_fn()(pattern[i], wanted[i]));
        assert(lex_lt_at(pattern, wanted, seg_lt_fn(), i));
    }
}

/// A grant reaches down: a pattern that is no longer than a path and covers
/// it covers every path below that one too, and applies to it.
pub proof fn lemma_grant_reaches_below(
    pattern: Seq<Seg>,
    path: Seq<Seq<char>>,
    below: Seq<Seq<char>>,
)
    requires
        pattern.len() <= path.len(),
        covers(pattern, path),
        path.is_prefix_of(below),
    ensures
        applies(pattern, below),
{
    assert forall|i: int| 0 <= i < pattern.len() && i < below.len() implies seg_admits(
        #[trigger] pattern[i],
        below[i],
    ) by {
        assert(below.subrange(0, path.len() as int)[i] == below[i]);
    }
    lemma_covering_prefix_applies(pattern, below);
}

/// Where some grant has a pattern that is no longer than the path and
/// covers it, a grant is found. Where that grant is the only one, it is
/// the one found.
pub proof fn lemma_covered_path_resolves(grants: Seq<Grant>, i: int, path: Seq<Seq<char>>)
    requires
        0 <= i < grants.len(),
        grants[i].0.len() <= path.len(),
        covers(grants[i].0, path),
    ensures
        resolve_in(grants, path) is Some,
        grants.len() == 1 ==> resolve_in(grants, path) == Some(grants[0].1),
{
    lemma_covering_prefix_applies(grants[i].0, path);
    lemma_resolve_picks_last(grants, path);
    if grants.len() == 1 {
        assert(grants.last() == grants[0]);
    }
}

/// A copy of a pattern.
pub fn copy_pattern(pattern: &Vec<AccessPathSeg>) -> (r: Vec<AccessPathSeg>)
    ensures
        pattern_view(r@) == pattern_view(pattern@),
{
    let mut copy: Vec<AccessPathSeg> = Vec::new();
    let mut i: usize = 0;
    while i < pattern.len()
        invariant
            i <= pattern.len(),
            copy.len() == i,
            forall|k: int| 0 <= k < i ==> (#[trigger] copy[k])@ == pattern[k]@,
        decreases pattern.len() - i,
    {
        copy.push(pattern[i].clone());
        i = i + 1;
    }
    assert(pattern_view(copy@) =~= pattern_view(pattern@));
    copy
}

/// The pattern that names exactly `path`.
pub fn literal_path(path: &Vec<String>) -> (r: Vec<AccessPathSeg>)
    ensures
        pattern_view(r@) == literal_pattern(path_view(path@)),
{
    let mut pattern: Vec<AccessPathSeg> = Vec::new();
    let mut i: usize = 0;
    while i < path.len()
        invariant
            i <= path.len(),
            pattern.len() == i,
            forall|k: int| 0 <= k < i ==> (#[trigger] pattern[k])@ == Seg::String(path[k]@),
        decreases path.len() - i,
    {
        pattern.push(AccessPathSeg::String(path[i].clone()));
        i = i + 1;
    }
    assert(pattern_view(pattern@) =~= literal_pattern(path_view(path@)));
    pattern
}

/// Whether `pattern` covers `path`: step by step, as far as both reach, a
/// wildcard or the very key.
pub fn pattern_covers(pattern: &Vec<AccessPathSeg>, path: &Vec<String>) -> (r: bool)
    ensures
        r == covers(pattern_view(pattern@), path_view(path@)),
{
    let mut i: usize = 0;
    while i < pattern.len() && i < path.len()
        invariant
            i <= pattern.len(),
            i <= path.len(),
            forall|k: int|
                0 <= k < i ==> seg_admits(
                    #[trigger] pattern_view(pattern@)[k],
                    path_view(path@)[k],
                ),
        decreases pattern.len() - i,
    {
        let admitted = match &pattern[i] {
            AccessPathSeg::Wildcard => true,
            AccessPathSeg::String(want) => *want == path[i],
        };
        if !admitted {
            assert(!seg_admits(pattern_view(pattern@)[i as int], path_view(path@)[i as int]));
            return false;
        }
        i = i + 1;
    }
    true
}

impl Access {
    /// The grants stand in ascending order of their patterns, so that no
    /// pattern stands twice.
    pub open spec fn wf(&self) -> bool {
        ascending(self@)
    }

    /// No grants at all.
    pub fn new() -> (r: Access)
        ensures
            r@ == Seq::<Grant>::empty(),
            r.wf(),
    {
        let r = Access { grants: Vec::new() };
        assert(r@ =~= Seq::<Grant>::empty());
        r
    }

    /// How many grants there are.
    pub fn len(&self) -> (r: usize)
        ensures
            r == self@.len(),
    {
        self.grants.len()
    }

    /// Where a pattern stands or would stand among the grants: the index of
    /// the first grant whose pattern does not come before it, and whether
    /// that grant has the very pattern.
    fn place_of(&self, path: &Vec<AccessPathSeg>) -> (r: (usize, bool))
        ensures
            r.0 <= self@.len(),
            forall|i: int| 0 <= i < r.0 ==> path_lt((#[trigger] self@[i]).0, pattern_view(path@)),
            r.1 ==> r.0 < self@.len() && self@[r.0 as int].0 == pattern_view(path@),
            !r.1 && r.0 < self@.len() ==> path_lt(pattern_view(path@), self@[r.0 as int].0),
    {
        let mut k: usize = 0;
        while k < self.grants.len()
            invariant
                k <= self.grants.len(),
                forall|i: int|
                    0 <= i < k ==> path_lt((#[trigger] self@[i]).0, pattern_view(path@)),
            decreases self.grants.len() - k,
        {
            match compare_paths(&self.grants[k].0, path) {
                Order::Less => {
                    assert(path_lt(self@[k as int].0, pattern_view(path@)));
                },
                Order::Equal => {
                    return (k, true);
                },
                Order::Greater => {
                    proof {
                        lemma_path_lt_strict_total(
                            self@[k as int].0,
                            pattern_view(path@),
                            pattern_view(path@),
                        );
                    }
                    return (k, false);
                },
            }
            k = k + 1;
        }
        (k, false)
    }

    /// Puts in a grant; one with the same pattern gives way to it.
    pub fn insert(&mut self, path: Vec<AccessPathSeg>, action: AccessAction)
        requires
            old(self).wf(),
        ensures
            final(self).wf(),
            grants_map(final(self)@) == grants_map(old(self)@).insert(pattern_view(path@), action),
    {
        let ghost before = self@;
        let ghost pattern = pattern_view(path@);
        let (k, exact) = self.place_of(&path);
        if exact {
            proof {
                lemma_update_in_place(before, k as int, action);
            }
            self.grants.set(k, (path, action));
            assert(self@ =~= before.update(k as int, (before[k as int].0, action)));
        } else {
            proof {
                lemma_insert_in_place(before, k as int, (pattern, action));
            }
            self.grants.insert(k, (path, action));
            assert(self@ =~= before.insert(k as int, (pattern, action)));
        }
    }

    /// The grants of a list of configured pairs; of two pairs with the same
    /// pattern the later one counts.
    pub fn from_pairs(pairs: &Vec<AccessPair>) -> (r: Access)
        ensures
            r.wf(),
            grants_map(r@) == grants_map(pairs_view(pairs@)),
    {
        let mut access = Access::new();
        let mut i: usize = 0;
        assert(pairs_view(pairs@).take(0) =~= Seq::<Grant>::empty());
        while i < pairs.len()
            invariant
                i <= pairs.len(),
                access.wf(),
                grants_map(access@) == grants_map(pairs_view(pairs@).take(i as int)),
            decreases pairs.len() - i,
        {
            let path = copy_pattern(&pairs[i].path);
            proof {
                let next = pairs_view(pairs@).take(i + 1);
                assert(next.drop_last() =~= pairs_view(pairs@).take(i as int));
                assert(next.last() == (pattern_view(pairs[i as int].path@), pairs[i as int].action));
            }
            access.insert(path, pairs[i].action);
            i = i + 1;
        }
        assert(pairs_view(pairs@).take(pairs.len() as int) =~= pairs_view(pairs@));
        access
    }

    /// The grant for a request path. The patterns are tried from the last in
    /// their order down; one that comes after the path in that order is
    /// passed over; the first that covers the path, as far as both reach,
    /// gives the grant. `None` where none does.
    pub fn resolve(&self, path: &Vec<String>) -> (r: Option<AccessAction>)
        ensures
            r == resolve_in(self@, path_view(path@)),
    {
        let wanted = literal_path(path);
        let mut i: usize = self.grants.len();
        assert(self@.take(i as int) =~= self@);
        while i > 0
            invariant
                i <= self.grants.len(),
                pattern_view(wanted@) == literal_pattern(path_view(path@)),
                resolve_in(self@, path_view(path@)) == resolve_in(
                    self@.take(i as int),
                    path_view(path@),
                ),
            decreases i,
        {
            i = i - 1;
            proof {
                assert(self@.take(i + 1).drop_last() =~= self@.take(i as int));
                assert(self@.take(i + 1).last() == self@[i as int]);
            }
            let tried = match compare_paths(&self.grants[i].0, &wanted) {
                Order::Greater => false,
                _ => true,
            };
            if tried && pattern_covers(&self.grants[i].0, path) {
                return Some(self.grants[i].1);
            }
        }
        None
    }
}

} // verus!
