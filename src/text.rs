use vstd::prelude::*;

verus! {

/// `p` occurs in `s` starting at index `i`.
pub open spec fn occurs_at(s: Seq<char>, p: Seq<char>, i: int) -> bool {
    0 <= i && i + p.len() <= s.len() && s.subrange(i, i + p.len()) == p
}

/// The first index at or after `i` at which `p` occurs in `s`.
pub open spec fn find_from(s: Seq<char>, p: Seq<char>, i: int) -> Option<int>
    decreases s.len() + 1 - i,
{
    if i < 0 || i + p.len() > s.len() {
        None
    } else if occurs_at(s, p, i) {
        Some(i)
    } else {
        find_from(s, p, i + 1)
    }
}

/// The first index at which `p` occurs in `s`.
pub open spec fn find(s: Seq<char>, p: Seq<char>) -> Option<int> {
    find_from(s, p, 0)
}

/// `s` cut around the first occurrence of `p`: what stands before it and what
/// stands after it.
pub open spec fn split_first(s: Seq<char>, p: Seq<char>) -> Option<(Seq<char>, Seq<char>)> {
    match find(s, p) {
        Some(i) => Some((s.take(i), s.skip(i + p.len()))),
        None => None,
    }
}

/// What `find_from` returns is an occurrence at or after `i`, with none
/// between `i` and it; `None` means that none occurs at or after `i`.
pub proof fn lemma_find_from(s: Seq<char>, p: Seq<char>, i: int)
    requires
        0 <= i,
    ensures
        match find_from(s, p, i) {
            Some(k) => i <= k && occurs_at(s, p, k) && forall|j: int|
                i <= j < k ==> !#[trigger] occurs_at(s, p, j),
            None => forall|j: int| i <= j ==> !#[trigger] occurs_at(s, p, j),
        },
    decreases s.len() + 1 - i,
{
    if i + p.len() > s.len() {
    } else if occurs_at(s, p, i) {
    } else {
        lemma_find_from(s, p, i + 1);
    }
}

/// A split around the first occurrence of `p` puts `s` back together, and
/// `p` occurs nowhere in `s` before the split point.
pub proof fn lemma_split_first(s: Seq<char>, p: Seq<char>)
    ensures
        match split_first(s, p) {
            Some((a, b)) => s == a + p + b && find(s, p) == Some(a.len() as int) && occurs_at(s, p, a.len() as int)
                && forall|j: int| 0 <= j < a.len() ==> !#[trigger] occurs_at(s, p, j),
            None => forall|j: int| 0 <= j ==> !#[trigger] occurs_at(s, p, j),
        },
{
    lemma_find_from(s, p, 0);
    if let Some(i) = find(s, p) {
        assert(s.subrange(i, i + p.len()) == p);
        assert(s =~= s.take(i) + p + s.skip(i + p.len()));
    }
}

/// Unicode's `White_Space` property.
pub open spec fn is_white_space(c: char) -> bool {
    ('\u{9}' <= c && c <= '\u{d}') || c == ' ' || c == '\u{85}' || c == '\u{a0}'
        || c == '\u{1680}' || ('\u{2000}' <= c && c <= '\u{200a}') || c == '\u{2028}'
        || c == '\u{2029}' || c == '\u{202f}' || c == '\u{205f}' || c == '\u{3000}'
}

/// `s` without its leading white space.
pub open spec fn trimmed_start(s: Seq<char>) -> Seq<char>
    decreases s.len(),
{
    if s.len() > 0 && is_white_space(s[0]) {
        trimmed_start(s.drop_first())
    } else {
        s
    }
}

/// `s` without its trailing white space.
pub open spec fn trimmed_end(s: Seq<char>) -> Seq<char>
    decreases s.len(),
{
    if s.len() > 0 && is_white_space(s.last()) {
        trimmed_end(s.drop_last())
    } else {
        s
    }
}

/// `s` without leading or trailing white space.
pub open spec fn trimmed(s: Seq<char>) -> Seq<char> {
    trimmed_end(trimmed_start(s))
}

/// Relies on `str::split_once`: it splits `s` on the first occurrence of
/// `pat`, or returns `None` where `pat` does not occur.
#[verifier::external_body]
pub(crate) fn split_once<'s>(s: &'s str, pat: &str) -> (r: Option<(&'s str, &'s str)>)
    ensures
        match r {
            Some(parts) => split_first(s@, pat@) == Some((parts.0@, parts.1@)),
            None => split_first(s@, pat@) is None,
        },
{
    s.split_once(pat)
}

/// Relies on `str::trim`: it removes leading and trailing characters with the
/// `White_Space` property.
#[verifier::external_body]
pub(crate) fn trim<'s>(s: &'s str) -> (r: &'s str)
    ensures
        r@ == trimmed(s@),
{
    s.trim()
}

} // verus!
