use vstd::prelude::*;
use crate::engine::{close_marker, expand, lemma_scan, lookups, names, open_marker, scan, Scan};
use crate::error::Failure;
use crate::text::{find, lemma_split_first, occurs_at, split_first, trimmed};

verus! {

/// A template with no opening marker comes back unchanged, whatever the
/// resolver, and nothing is looked up.
pub proof fn lemma_plain_template(t: Seq<char>, answers: Seq<Option<Seq<char>>>)
    requires
        find(t, open_marker()) is None,
    ensures
        expand(t, answers) == Ok::<Seq<char>, Failure>(t),
        lookups(t, answers) == 0,
        names(t).len() == 0,
{
}

/// The empty template gives the empty text, whatever the resolver.
pub proof fn lemma_empty_template(answers: Seq<Option<Seq<char>>>)
    ensures
        expand(Seq::<char>::empty(), answers) == Ok::<Seq<char>, Failure>(Seq::<char>::empty()),
        lookups(Seq::<char>::empty(), answers) == 0,
{
    lemma_split_first(Seq::<char>::empty(), open_marker());
    assert(!occurs_at(Seq::<char>::empty(), open_marker(), 0));
}

/// Where the first placeholder's name has no value, the substitution fails
/// with exactly that name: the text between its markers, trimmed.
pub proof fn lemma_first_unresolved(t: Seq<char>, answers: Seq<Option<Seq<char>>>)
    requires
        scan(t) is Placeholder,
        answers.len() > 0,
        answers[0] is None,
    ensures
        expand(t, answers) == Err::<Seq<char>, Failure>(
            Failure::Unresolved(trimmed(scan(t)->Placeholder_inner)),
        ),
        names(t)[0] == trimmed(scan(t)->Placeholder_inner),
        lookups(t, answers) == 1,
{
    lemma_scan(t);
}

/// An occurrence in a suffix of `t` is an occurrence in `t`, shifted.
proof fn lemma_occurs_in_suffix(t: Seq<char>, d: int, m: Seq<char>, j: int)
    requires
        0 <= d <= t.len(),
        0 <= j,
    ensures
        occurs_at(t.skip(d), m, j) <==> occurs_at(t, m, j + d),
{
    if j + m.len() <= t.len() - d {
        assert(t.skip(d).subrange(j, j + m.len()) =~= t.subrange(j + d, j + d + m.len()));
    }
}

/// A marker of two equal characters at `i` and one of two other equal
/// characters at `q` do not overlap.
proof fn lemma_markers_apart(t: Seq<char>, i: int, q: int)
    requires
        occurs_at(t, open_marker(), i),
        occurs_at(t, close_marker(), q),
    ensures
        q + 2 <= i || i + 2 <= q,
{
    assert(t.subrange(i, i + 2)[0] == t[i]);
    assert(t.subrange(i, i + 2)[1] == t[i + 1]);
    assert(t.subrange(q, q + 2)[0] == t[q]);
    assert(t.subrange(q, q + 2)[1] == t[q + 1]);
}

/// Where an opening marker has no closing marker anywhere after it, and every
/// lookup before it succeeds, the substitution fails with a syntax error.
pub proof fn lemma_unterminated(t: Seq<char>, i: int, answers: Seq<Option<Seq<char>>>)
    requires
        occurs_at(t, open_marker(), i),
        forall|j: int| i + 2 <= j ==> !#[trigger] occurs_at(t, close_marker(), j),
        forall|k: int| 0 <= k < answers.len() ==> #[trigger] answers[k] is Some,
        answers.len() >= names(t).len(),
    ensures
        expand(t, answers) == Err::<Seq<char>, Failure>(Failure::Syntax),
    decreases t.len(),
{
    lemma_scan(t);
    lemma_split_first(t, open_marker());
    let (before, rest) = split_first(t, open_marker())->0;
    let p = before.len() as int;
    assert(rest =~= t.skip(p + 2));
    lemma_split_first(rest, close_marker());
    if let Some((inner, after)) = split_first(rest, close_marker()) {
        let c = inner.len() as int;
        let q = p + 2 + c;
        lemma_occurs_in_suffix(t, p + 2, close_marker(), c);
        lemma_markers_apart(t, i, q);
        let d = q + 2;
        assert(after =~= t.skip(d));
        lemma_occurs_in_suffix(t, d, open_marker(), i - d);
        assert forall|j: int| i - d + 2 <= j implies !#[trigger] occurs_at(
            after,
            close_marker(),
            j,
        ) by {
            lemma_occurs_in_suffix(t, d, close_marker(), j);
        }
        let later = answers.drop_first();
        assert(names(t) == seq![trimmed(inner)] + names(after));
        assert(answers[0] is Some);
        assert forall|k: int| 0 <= k < later.len() implies #[trigger] later[k] is Some by {
            assert(later[k] == answers[k + 1]);
        }
        lemma_unterminated(after, i - d, later);
        assert(expand(after, later) == Err::<Seq<char>, Failure>(Failure::Syntax));
    }
}

/// `literals` recurses on a shorter text.
#[via_fn]
proof fn literals_decreases(t: Seq<char>) {
    lemma_scan(t);
}

/// `placeholders` recurses on a shorter text.
#[via_fn]
proof fn placeholders_decreases(t: Seq<char>) {
    lemma_scan(t);
}

/// `closed` recurses on a shorter text.
#[via_fn]
proof fn closed_decreases(t: Seq<char>) {
    lemma_scan(t);
}

/// The literal texts of `t` around its placeholders, in order: the text
/// before each placeholder, then the text after the last one.
pub open spec fn literals(t: Seq<char>) -> Seq<Seq<char>>
    decreases t.len() via literals_decreases
{
    match scan(t) {
        Scan::Placeholder { before, inner, after } => seq![before] + literals(after),
        _ => seq![t],
    }
}

/// The placeholders of `t` as written, markers included, in order.
pub open spec fn placeholders(t: Seq<char>) -> Seq<Seq<char>>
    decreases t.len() via placeholders_decreases
{
    match scan(t) {
        Scan::Placeholder { before, inner, after } => {
            seq![open_marker() + inner + close_marker()] + placeholders(after)
        },
        _ => seq![],
    }
}

/// Every opening marker of `t` is closed.
pub open spec fn closed(t: Seq<char>) -> bool
    decreases t.len() via closed_decreases
{
    match scan(t) {
        Scan::Plain => true,
        Scan::Unterminated => false,
        Scan::Placeholder { before, inner, after } => closed(after),
    }
}

/// `parts[0] + fill[0] + parts[1] + fill[1] + ... + parts[n]`.
pub open spec fn interleave(parts: Seq<Seq<char>>, fill: Seq<Seq<char>>) -> Seq<char>
    decreases parts.len(),
{
    if parts.len() == 0 {
        Seq::empty()
    } else if parts.len() == 1 {
        parts[0]
    } else {
        parts[0] + fill[0] + interleave(parts.drop_first(), fill.drop_first())
    }
}

/// Where every name has a value, the result keeps the template's literal
/// texts, which hold no opening marker, and puts the values in place of the
/// placeholders, in the order in which these stand; the template itself is
/// those literal texts with the placeholders between them.
pub proof fn lemma_all_resolved(t: Seq<char>, answers: Seq<Option<Seq<char>>>)
    requires
        closed(t),
        answers.len() >= names(t).len(),
        forall|k: int| 0 <= k < answers.len() ==> #[trigger] answers[k] is Some,
    ensures
        literals(t).len() == names(t).len() + 1,
        placeholders(t).len() == names(t).len(),
        t == interleave(literals(t), placeholders(t)),
        expand(t, answers) == Ok::<Seq<char>, Failure>(
            interleave(literals(t), answers.map_values(|a: Option<Seq<char>>| a->0)),
        ),
        forall|k: int, j: int|
            0 <= k < literals(t).len() ==> !#[trigger] occurs_at(literals(t)[k], open_marker(), j),
        lookups(t, answers) == names(t).len(),
    decreases t.len(),
{
    lemma_scan(t);
    lemma_split_first(t, open_marker());
    let values = answers.map_values(|a: Option<Seq<char>>| a->0);
    if let Scan::Placeholder { before, inner, after } = scan(t) {
        let later = answers.drop_first();
        assert forall|k: int| 0 <= k < later.len() implies #[trigger] later[k] is Some by {
            assert(later[k] == answers[k + 1]);
        }
        lemma_all_resolved(after, later);
        assert(literals(t).drop_first() == literals(after));
        assert(placeholders(t).drop_first() == placeholders(after));
        assert(values.drop_first() =~= later.map_values(|a: Option<Seq<char>>| a->0));
        assert(t == interleave(literals(t), placeholders(t)));
        assert forall|k: int, j: int|
            0 <= k < literals(t).len() implies !#[trigger] occurs_at(
            literals(t)[k],
            open_marker(),
            j,
        ) by {
            if k == 0 {
                if occurs_at(before, open_marker(), j) {
                    assert(t.subrange(j, j + 2) =~= before.subrange(j, j + 2));
                    assert(occurs_at(t, open_marker(), j));
                }
            } else {
                assert(literals(t)[k] == literals(after)[k - 1]);
            }
        }
    }
}

} // verus!
