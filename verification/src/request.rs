//! From the path of a URL to the keys of a document path: the slashes at
//! both ends go, the rest is cut at each slash, and each piece is
//! percent-decoded.

use crate::document::path_view;
use vstd::prelude::*;
use vstd::string::{StrSliceExecFns, StringExecFns};

verus! {

/// What `urlencoding::decode` makes of a piece of a URL path: the text with
/// each `%` and two hex digits replaced by the byte that they name, or
/// `None` where the bytes are then no UTF-8. This name stands for the
/// crate's result; nothing more is said of it here.
pub uninterp spec fn percent_decoded(piece: Seq<char>) -> Option<Seq<char>>;

/// Calls `urlencoding::decode`. Trusted: the outcome depends on the text
/// alone, and it is the text that `percent_decoded` names. `None` stands
/// for the crate's error, which it gives where the decoded bytes are not
/// UTF-8.
#[verifier::external_body]
fn decode_piece(piece: &str) -> (r: Option<String>)
    ensures
        match percent_decoded(piece@) {
            Some(text) => r is Some && r->Some_0@ == text,
            None => r is None,
        },
{
    match urlencoding::decode(piece) {
        Ok(text) => Some(text.into_owned()),
        Err(_) => None,
    }
}

/// The index of the first character at or after `i` that is no slash; the
/// length of `s` where there is none.
pub open spec fn skip_slashes(s: Seq<char>, i: int) -> int
    decreases s.len() - i,
{
    if 0 <= i < s.len() && s[i] == '/' {
        skip_slashes(s, i + 1)
    } else {
        i
    }
}

/// The index after the last character before `j` and not before `start`
/// that is no slash; `start` where there is none.
pub open spec fn drop_slashes(s: Seq<char>, start: int, j: int) -> int
    decreases j,
{
    if 0 <= start < j <= s.len() && s[j - 1] == '/' {
        drop_slashes(s, start, j - 1)
    } else {
        j
    }
}

/// `s` without the slashes at its start and at its end.
pub open spec fn trimmed(s: Seq<char>) -> Seq<char> {
    let start = skip_slashes(s, 0);
    s.subrange(start, drop_slashes(s, start, s.len() as int))
}

/// The pieces of `s` from `from` on that lie between slashes, where no
/// slash stands in `from..i`.
pub open spec fn pieces_from(s: Seq<char>, from: int, i: int) -> Seq<Seq<char>>
    decreases s.len() - i,
{
    if i >= s.len() {
        seq![s.subrange(from, s.len() as int)]
    } else if s[i] == '/' {
        seq![s.subrange(from, i)] + pieces_from(s, i + 1, i + 1)
    } else {
        pieces_from(s, from, i + 1)
    }
}

/// The pieces of the path of a URL: none where only slashes are given, else
/// what lies between the slashes of the trimmed text, empty pieces too.
pub open spec fn raw_pieces(subpath: Seq<char>) -> Seq<Seq<char>> {
    let text = trimmed(subpath);
    if text.len() == 0 {
        Seq::empty()
    } else {
        pieces_from(text, 0, 0)
    }
}

/// The keys that a URL path names: each piece decoded. `None` where a piece
/// cannot be decoded.
pub open spec fn parsed_path(subpath: Seq<char>) -> Option<Seq<Seq<char>>> {
    let pieces = raw_pieces(subpath);
    if forall|i: int| 0 <= i < pieces.len() ==> percent_decoded(#[trigger] pieces[i]) is Some {
        Some(Seq::new(pieces.len(), |i: int| percent_decoded(pieces[i])->Some_0))
    } else {
        None
    }
}

/// The characters of a text.
fn chars_of(text: &str) -> (r: Vec<char>)
    ensures
        r@ == text@,
{
    let mut chars: Vec<char> = Vec::new();
    for c in it: text.chars()
        invariant
            it.seq() == text@,
            chars@ == it.seq().take(it.index() as int),
    {
        chars.push(c);
    }
    assert(chars@ =~= text@);
    chars
}

/// The pieces of the path of a URL, not yet decoded. The slashes at both
/// ends go; nothing left means no pieces. Else the text is cut at each
/// slash; a piece may be empty.
pub fn split_subpath(subpath: &str) -> (r: Vec<String>)
    ensures
        path_view(r@) == raw_pieces(subpath@),
{
    let chars = chars_of(subpath);
    let n = chars.len();
    let mut start: usize = 0;
    while start < n && chars[start] == '/'
        invariant
            start <= n,
            n == chars.len(),
            skip_slashes(chars@, 0) == skip_slashes(chars@, start as int),
        decreases n - start,
    {
        start = start + 1;
    }
    let mut end: usize = n;
    while end > start && chars[end - 1] == '/'
        invariant
            start <= end <= n,
            n == chars.len(),
            drop_slashes(chars@, start as int, n as int) == drop_slashes(
                chars@,
                start as int,
                end as int,
            ),
        decreases end,
    {
        end = end - 1;
    }
    let ghost text = chars@.subrange(start as int, end as int);
    assert(text == trimmed(subpath@));
    let mut pieces: Vec<String> = Vec::new();
    if start == end {
        assert(path_view(pieces@) =~= Seq::<Seq<char>>::empty());
        return pieces;
    }
    let mut from: usize = start;
    let mut i: usize = start;
    while i < end
        invariant
            start <= from <= i <= end <= n,
            n == chars.len(),
            chars@ == subpath@,
            text == chars@.subrange(start as int, end as int),
            pieces_from(text, 0, 0) == path_view(pieces@) + pieces_from(
                text,
                from - start,
                i - start,
            ),
        decreases end - i,
    {
        if chars[i] == '/' {
            let piece = subpath.substring_char(from, i);
            let ghost seen = path_view(pieces@);
            proof {
                assert(piece@ =~= text.subrange(from - start, i - start));
                let rest = pieces_from(text, i + 1 - start, i + 1 - start);
                assert(seen + (seq![piece@] + rest) =~= seen.push(piece@) + rest);
            }
            pieces.push(String::from_str(piece));
            assert(path_view(pieces@) =~= seen.push(piece@));
            from = i + 1;
        }
        i = i + 1;
    }
    let piece = subpath.substring_char(from, end);
    let ghost seen = path_view(pieces@);
    assert(piece@ =~= text.subrange(from - start, text.len() as int));
    pieces.push(String::from_str(piece));
    assert(path_view(pieces@) =~= seen.push(piece@));
    pieces
}

/// The keys that a URL path names: the pieces of `split_subpath`, each
/// percent-decoded. `None` where a piece cannot be decoded.
pub fn parse_subpath(subpath: &str) -> (r: Option<Vec<String>>)
    ensures
        match parsed_path(subpath@) {
            Some(keys) => r is Some && path_view(r->Some_0@) == keys,
            None => r is None,
        },
{
    let pieces = split_subpath(subpath);
    let ghost raw = raw_pieces(subpath@);
    let mut path: Vec<String> = Vec::new();
    let mut i: usize = 0;
    while i < pieces.len()
        invariant
            i <= pieces.len(),
            path.len() == i,
            raw == raw_pieces(subpath@),
            path_view(pieces@) == raw,
            forall|k: int| 0 <= k < i ==> percent_decoded(#[trigger] raw[k]) == Some(path[k]@),
        decreases pieces.len() - i,
    {
        assert(raw[i as int] == pieces[i as int]@);
        match decode_piece(pieces[i].as_str()) {
            Some(key) => {
                path.push(key);
            },
            None => {
                return None;
            },
        }
        i = i + 1;
    }
    assert(path_view(path@) =~= parsed_path(subpath@)->Some_0);
    Some(path)
}

} // verus!
