//! Configuration: who may do what where. Grant patterns, their total order,
//! and the test of a pattern against a request path.

use crate::order::{
    asymmetric, compare_strings, connected, lemma_lex_asymmetric, lemma_lex_connected,
    lemma_lex_transitive, lemma_str_lt_strict_total, lex_lt, lex_lt_at, str_lt, transitive, Order,
};
use vstd::prelude::*;

verus! {

/// What a grant allows.
#[derive(Clone, Copy, Debug, PartialEq, Eq, Structural)]
pub struct AccessAction {
    pub read: bool,
    pub write: bool,
}

/// One step of a grant pattern: any key, or one key.
#[derive(Debug, PartialEq, Eq, PartialOrd, Ord, Hash)]
pub enum AccessPathSeg {
    Wildcard,
    String(String),
}

/// The model of a pattern step.
pub enum Seg {
    Wildcard,
    String(Seq<char>),
}

impl View for AccessPathSeg {
    type V = Seg;

    open spec fn view(&self) -> Seg {
        match self {
            AccessPathSeg::Wildcard => Seg::Wildcard,
            AccessPathSeg::String(s) => Seg::String(s@),
        }
    }
}

impl Clone for AccessPathSeg {
    fn clone(&self) -> (r: Self)
        ensures
            r@ == self@,
    {
        match self {
            AccessPathSeg::Wildcard => AccessPathSeg::Wildcard,
            AccessPathSeg::String(s) => AccessPathSeg::String(s.clone()),
        }
    }
}

/// A grant pattern with what it allows.
#[derive(Debug)]
pub struct AccessPair {
    pub path: Vec<AccessPathSeg>,
    pub action: AccessAction,
}

/// `std::path::PathBuf`, carried through unopened: where the files are is
/// not this library's business.
#[verifier::external_type_specification]
#[verifier::external_body]
pub struct ExPathBuf(std::path::PathBuf);

/// The settings of a store: where it listens, where it keeps its file, and
/// the grants of each token.
#[derive(Debug)]
pub struct Config {
    /// Address to serve on, like `0.0.0.0:64116`
    pub bind_addr: String,
    /// Directory in which to store the database
    pub data_dir: std::path::PathBuf,
    /// The grants of each token
    pub users: Vec<(String, Vec<AccessPair>)>,
}

/// The model of a pattern: the model of each step.
pub open spec fn pattern_view(pattern: Seq<AccessPathSeg>) -> Seq<Seg> {
    Seq::new(pattern.len(), |i: int| pattern[i]@)
}

/// The wildcard comes before every key; keys come in the order of strings.
pub open spec fn seg_lt(a: Seg, b: Seg) -> bool {
    match (a, b) {
        (Seg::Wildcard, Seg::String(_)) => true,
        (Seg::String(x), Seg::String(y)) => str_lt(x, y),
        _ => false,
    }
}

/// The order of steps, as a relation to order patterns by.
pub open spec fn seg_lt_fn() -> spec_fn(Seg, Seg) -> bool {
    |a: Seg, b: Seg| seg_lt(a, b)
}

/// How step `a` stands to step `b`.
pub open spec fn seg_order(a: Seg, b: Seg) -> Order {
    if a == b {
        Order::Equal
    } else if seg_lt(a, b) {
        Order::Less
    } else {
        Order::Greater
    }
}

/// Pattern `a` comes before pattern `b`: lexicographically, step by step.
pub open spec fn path_lt(a: Seq<Seg>, b: Seq<Seg>) -> bool {
    lex_lt(a, b, seg_lt_fn())
}

/// Pattern `a` is pattern `b` or comes before it.
pub open spec fn path_le(a: Seq<Seg>, b: Seq<Seg>) -> bool {
    a == b || path_lt(a, b)
}

/// How pattern `a` stands to pattern `b`.
pub open spec fn path_order(a: Seq<Seg>, b: Seq<Seg>) -> Order {
    if a == b {
        Order::Equal
    } else if path_lt(a, b) {
        Order::Less
    } else {
        Order::Greater
    }
}

/// The order of steps is a strict total order.
pub proof fn lemma_seg_lt_strict_total()
    ensures
        asymmetric(seg_lt_fn()),
        transitive(seg_lt_fn()),
        connected(seg_lt_fn()),
{
    lemma_str_lt_strict_total();
    assert forall|x: Seg, y: Seg| !(#[trigger] seg_lt_fn()(x, y) && seg_lt_fn()(y, x)) by {
        if let (Seg::String(a), Seg::String(b)) = (x, y) {
            assert(!(str_lt(a, b) && str_lt(b, a)));
        }
    }
    assert forall|x: Seg, y: Seg, z: Seg| #[trigger]
        seg_lt_fn()(x, y) && #[trigger] seg_lt_fn()(y, z) implies seg_lt_fn()(x, z) by {
        if let (Seg::String(a), Seg::String(b), Seg::String(c)) = (x, y, z) {
            assert(str_lt(a, b) && str_lt(b, c) ==> str_lt(a, c));
        }
    }
    assert forall|x: Seg, y: Seg| x == y || #[trigger] seg_lt_fn()(x, y) || seg_lt_fn()(y, x) by {
        if let (Seg::String(a), Seg::String(b)) = (x, y) {
            assert(a == b || str_lt(a, b) || str_lt(b, a));
        }
    }
}

/// The order of patterns is a strict total order: of two patterns exactly
/// one of "before", "equal" and "after" holds, and "before" is transitive.
pub proof fn lemma_path_lt_strict_total(a: Seq<Seg>, b: Seq<Seg>, c: Seq<Seg>)
    ensures
        !(path_lt(a, b) && path_lt(b, a)),
        path_lt(a, b) ==> a != b,
        path_lt(a, b) && path_lt(b, c) ==> path_lt(a, c),
        a == b || path_lt(a, b) || path_lt(b, a),
{
    lemma_seg_lt_strict_total();
    lemma_lex_asymmetric(a, b, seg_lt_fn());
    if path_lt(a, b) && path_lt(b, c) {
        lemma_lex_transitive(a, b, c, seg_lt_fn());
    }
    lemma_lex_connected(a, b, seg_lt_fn());
}

impl AccessPathSeg {
    /// How this step stands to `other`: the wildcard before every key, keys
    /// in the order of strings.
    pub fn compare(&self, other: &AccessPathSeg) -> (r: Order)
        ensures
            r == seg_order(self@, other@),
    {
        proof {
            lemma_str_lt_strict_total();
        }
        match (self, other) {
            (AccessPathSeg::Wildcard, AccessPathSeg::Wildcard) => Order::Equal,
            (AccessPathSeg::Wildcard, AccessPathSeg::String(_)) => Order::Less,
            (AccessPathSeg::String(_), AccessPathSeg::Wildcard) => Order::Greater,
            (AccessPathSeg::String(a), AccessPathSeg::String(b)) => compare_strings(a, b),
        }
    }
}

/// How pattern `a` stands to pattern `b`.
pub fn compare_paths(a: &Vec<AccessPathSeg>, b: &Vec<AccessPathSeg>) -> (r: Order)
    ensures
        r == path_order(pattern_view(a@), pattern_view(b@)),
{
    let ghost x = pattern_view(a@);
    let ghost y = pattern_view(b@);
    proof {
        lemma_path_lt_strict_total(x, y, x);
        lemma_path_lt_strict_total(y, x, y);
    }
    let mut i: usize = 0;
    while i < a.len() && i < b.len()
        invariant
            i <= a.len(),
            i <= b.len(),
            x == pattern_view(a@),
            y == pattern_view(b@),
            forall|k: int| 0 <= k < i ==> x[k] == y[k],
            !(path_lt(x, y) && path_lt(y, x)),
            path_lt(x, y) ==> x != y,
            path_lt(y, x) ==> x != y,
        decreases a.len() - i,
    {
        match a[i].compare(&b[i]) {
            Order::Less => {
                assert(seg_lt_fn()(x[i as int], y[i as int]));
                assert(lex_lt_at(x, y, seg_lt_fn(), i as int));
                return Order::Less;
            },
            Order::Greater => {
                proof {
                    lemma_seg_lt_strict_total();
                    assert(x[i as int] == y[i as int] || seg_lt_fn()(x[i as int], y[i as int])
                        || seg_lt_fn()(y[i as int], x[i as int]));
                }
                assert(lex_lt_at(y, x, seg_lt_fn(), i as int));
                return Order::Greater;
            },
            Order::Equal => {},
        }
        i = i + 1;
    }
    if i < b.len() {
        assert(lex_lt_at(x, y, seg_lt_fn(), i as int));
        Order::Less
    } else if i < a.len() {
        assert(lex_lt_at(y, x, seg_lt_fn(), i as int));
        Order::Greater
    } else {
        assert(x =~= y);
        Order::Equal
    }
}

/// A pattern step admits a key: the wildcard admits any, a key only itself.
pub open spec fn seg_admits(want: Seg, have: Seq<char>) -> bool {
    match want {
        Seg::Wildcard => true,
        Seg::String(s) => s == have,
    }
}

/// `pattern` covers `path`: step by step, as far as both reach, each pattern
/// step admits the key at its position.
pub open spec fn covers(pattern: Seq<Seg>, path: Seq<Seq<char>>) -> bool {
    forall|i: int|
        0 <= i < pattern.len() && i < path.len() ==> seg_admits(#[trigger] pattern[i], path[i])
}

/// The pattern that names exactly `path`: each key as a step.
pub open spec fn literal_pattern(path: Seq<Seq<char>>) -> Seq<Seg> {
    Seq::new(path.len(), |i: int| Seg::String(path[i]))
}

} // verus!
