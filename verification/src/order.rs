//! Lexicographic order on sequences, and the order of strings by their UTF-8
//! bytes, with executable comparisons.

use vstd::prelude::*;
use vstd::utf8::{encode_utf8, encode_utf8_decode_utf8};

verus! {

/// How a first value stands to a second one.
#[derive(Clone, Copy, Debug, PartialEq, Eq, Structural)]
pub enum Order {
    Less,
    Equal,
    Greater,
}

/// `a` and `b` agree before index `k`, and at `k` either `a` ends while `b`
/// goes on, or `a` holds the smaller element.
pub open spec fn lex_lt_at<T>(a: Seq<T>, b: Seq<T>, lt: spec_fn(T, T) -> bool, k: int) -> bool {
    &&& 0 <= k <= a.len()
    &&& k <= b.len()
    &&& forall|i: int| 0 <= i < k ==> a[i] == b[i]
    &&& (k == a.len() && k < b.len()) || (k < a.len() && k < b.len() && lt(a[k], b[k]))
}

/// `a` comes before `b` in the lexicographic order that `lt` induces.
pub open spec fn lex_lt<T>(a: Seq<T>, b: Seq<T>, lt: spec_fn(T, T) -> bool) -> bool {
    exists|k: int| #[trigger] lex_lt_at(a, b, lt, k)
}

/// `lt` never holds both ways round.
pub open spec fn asymmetric<T>(lt: spec_fn(T, T) -> bool) -> bool {
    forall|x: T, y: T| !(#[trigger] lt(x, y) && lt(y, x))
}

/// What stands in `lt` to a second value that stands in `lt` to a third
/// stands in `lt` to the third.
pub open spec fn transitive<T>(lt: spec_fn(T, T) -> bool) -> bool {
    forall|x: T, y: T, z: T| #[trigger] lt(x, y) && #[trigger] lt(y, z) ==> lt(x, z)
}

/// Any two values are equal or stand in `lt` one way round.
pub open spec fn connected<T>(lt: spec_fn(T, T) -> bool) -> bool {
    forall|x: T, y: T| x == y || #[trigger] lt(x, y) || lt(y, x)
}

/// Over an asymmetric order the lexicographic order is asymmetric too, and
/// never relates a sequence to itself.
pub proof fn lemma_lex_asymmetric<T>(a: Seq<T>, b: Seq<T>, lt: spec_fn(T, T) -> bool)
    requires
        asymmetric(lt),
    ensures
        !(lex_lt(a, b, lt) && lex_lt(b, a, lt)),
        lex_lt(a, b, lt) ==> a != b,
{
    if lex_lt(a, b, lt) {
        let k = choose|k: int| #[trigger] lex_lt_at(a, b, lt, k);
        if k < a.len() {
            assert(!(lt(a[k], b[k]) && lt(b[k], a[k])));
        }
        if lex_lt(b, a, lt) {
            let j = choose|j: int| #[trigger] lex_lt_at(b, a, lt, j);
            if j < k {
                assert(a[j] == b[j]);
                assert(!(lt(b[j], a[j]) && lt(a[j], b[j])));
            } else if k < j {
                assert(b[k] == a[k]);
            }
        }
    }
}

/// Over a transitive order the lexicographic order is transitive.
pub proof fn lemma_lex_transitive<T>(a: Seq<T>, b: Seq<T>, c: Seq<T>, lt: spec_fn(T, T) -> bool)
    requires
        transitive(lt),
        lex_lt(a, b, lt),
        lex_lt(b, c, lt),
    ensures
        lex_lt(a, c, lt),
{
    let k = choose|k: int| #[trigger] lex_lt_at(a, b, lt, k);
    let j = choose|j: int| #[trigger] lex_lt_at(b, c, lt, j);
    if k < j {
        assert(b[k] == c[k]);
        assert(lex_lt_at(a, c, lt, k));
    } else if j < k {
        assert(a[j] == b[j]);
        assert(lex_lt_at(a, c, lt, j));
    } else {
        if k < a.len() {
            assert(lt(a[k], b[k]) && lt(b[k], c[k]) ==> lt(a[k], c[k]));
        }
        assert(lex_lt_at(a, c, lt, k));
    }
}

/// Over a connected order any two sequences are equal or stand in the
/// lexicographic order one way round.
pub proof fn lemma_lex_connected<T>(a: Seq<T>, b: Seq<T>, lt: spec_fn(T, T) -> bool)
    requires
        connected(lt),
    ensures
        a == b || lex_lt(a, b, lt) || lex_lt(b, a, lt),
{
    lemma_lex_connected_from(a, b, lt, 0);
}

proof fn lemma_lex_connected_from<T>(a: Seq<T>, b: Seq<T>, lt: spec_fn(T, T) -> bool, i: int)
    requires
        connected(lt),
        0 <= i <= a.len(),
        i <= b.len(),
        forall|k: int| 0 <= k < i ==> a[k] == b[k],
    ensures
        a == b || lex_lt(a, b, lt) || lex_lt(b, a, lt),
    decreases a.len() - i,
{
    if i == a.len() {
        if i == b.len() {
            assert(a =~= b);
        } else {
            assert(lex_lt_at(a, b, lt, i));
        }
    } else if i == b.len() {
        assert(lex_lt_at(b, a, lt, i));
    } else if a[i] == b[i] {
        lemma_lex_connected_from(a, b, lt, i + 1);
    } else {
        assert(lt(a[i], b[i]) || lt(b[i], a[i]));
        if lt(a[i], b[i]) {
            assert(lex_lt_at(a, b, lt, i));
        } else {
            assert(lex_lt_at(b, a, lt, i));
        }
    }
}

/// The order of bytes by their value.
pub open spec fn byte_lt() -> spec_fn(u8, u8) -> bool {
    |x: u8, y: u8| x < y
}

/// `a` comes before `b` as a string of bytes.
pub open spec fn bytes_lt(a: Seq<u8>, b: Seq<u8>) -> bool {
    lex_lt(a, b, byte_lt())
}

/// `a` comes before `b` in the order of strings: that of their UTF-8 bytes.
pub open spec fn str_lt(a: Seq<char>, b: Seq<char>) -> bool {
    bytes_lt(encode_utf8(a), encode_utf8(b))
}

/// How `a` stands to `b` in the order of strings.
pub open spec fn str_order(a: Seq<char>, b: Seq<char>) -> Order {
    if a == b {
        Order::Equal
    } else if str_lt(a, b) {
        Order::Less
    } else {
        Order::Greater
    }
}

/// Strings with the same UTF-8 bytes are the same string.
pub proof fn lemma_encoding_injective(a: Seq<char>, b: Seq<char>)
    requires
        encode_utf8(a) == encode_utf8(b),
    ensures
        a == b,
{
    encode_utf8_decode_utf8(a);
    encode_utf8_decode_utf8(b);
}

/// The order of strings is a strict total order.
pub proof fn lemma_str_lt_strict_total()
    ensures
        forall|x: Seq<char>, y: Seq<char>| !(#[trigger] str_lt(x, y) && str_lt(y, x)),
        forall|x: Seq<char>, y: Seq<char>, z: Seq<char>| #[trigger]
            str_lt(x, y) && #[trigger] str_lt(y, z) ==> str_lt(x, z),
        forall|x: Seq<char>, y: Seq<char>| x == y || #[trigger] str_lt(x, y) || str_lt(y, x),
{
    assert(asymmetric(byte_lt()));
    assert(transitive(byte_lt()));
    assert(connected(byte_lt()));
    assert forall|x: Seq<char>, y: Seq<char>| !(#[trigger] str_lt(x, y) && str_lt(y, x)) by {
        lemma_lex_asymmetric(encode_utf8(x), encode_utf8(y), byte_lt());
    }
    assert forall|x: Seq<char>, y: Seq<char>, z: Seq<char>| #[trigger]
        str_lt(x, y) && #[trigger] str_lt(y, z) implies str_lt(x, z) by {
        lemma_lex_transitive(encode_utf8(x), encode_utf8(y), encode_utf8(z), byte_lt());
    }
    assert forall|x: Seq<char>, y: Seq<char>| x == y || #[trigger] str_lt(x, y) || str_lt(y, x) by {
        lemma_lex_connected(encode_utf8(x), encode_utf8(y), byte_lt());
        if encode_utf8(x) == encode_utf8(y) {
            lemma_encoding_injective(x, y);
        }
    }
}

/// How `a` stands to `b` in the order of strings.
pub fn compare_strings(a: &String, b: &String) -> (r: Order)
    ensures
        r == str_order(a@, b@),
{
    let x = a.as_str().as_bytes();
    let y = b.as_str().as_bytes();
    let mut i: usize = 0;
    proof {
        assert(asymmetric(byte_lt()));
        lemma_lex_asymmetric(x@, y@, byte_lt());
        lemma_lex_asymmetric(y@, x@, byte_lt());
    }
    while i < x.len() && i < y.len()
        invariant
            i <= x.len(),
            i <= y.len(),
            forall|k: int| 0 <= k < i ==> x@[k] == y@[k],
            x@ == encode_utf8(a@),
            y@ == encode_utf8(b@),
            !(bytes_lt(x@, y@) && bytes_lt(y@, x@)),
            bytes_lt(x@, y@) ==> x@ != y@,
            bytes_lt(y@, x@) ==> x@ != y@,
        decreases x.len() - i,
    {
        if x[i] < y[i] {
            assert(lex_lt_at(x@, y@, byte_lt(), i as int));
            return Order::Less;
        }
        if x[i] > y[i] {
            assert(lex_lt_at(y@, x@, byte_lt(), i as int));
            return Order::Greater;
        }
        i = i + 1;
    }
    if i < y.len() {
        assert(lex_lt_at(x@, y@, byte_lt(), i as int));
        Order::Less
    } else if i < x.len() {
        assert(lex_lt_at(y@, x@, byte_lt(), i as int));
        Order::Greater
    } else {
        proof {
            assert(x@ =~= y@);
            lemma_encoding_injective(a@, b@);
        }
        Order::Equal
    }
}

} // verus!
