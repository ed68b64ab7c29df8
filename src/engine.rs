use vstd::prelude::*;
use vstd::string::to_string_from_display_ensures;
use crate::error::{Error, Failure};
use crate::text::{find, lemma_split_first, split_first, split_once, trim, trimmed};

verus! {

/// The marker that opens a placeholder.
pub open spec fn open_marker() -> Seq<char> {
    seq!['{', '{']
}

/// The marker that closes a placeholder.
pub open spec fn close_marker() -> Seq<char> {
    seq!['}', '}']
}

/// How a template begins: with no placeholder at all, with an opening marker
/// that is never closed, or with a placeholder between `before` and `after`.
pub ghost enum Scan {
    Plain,
    Unterminated,
    Placeholder { before: Seq<char>, inner: Seq<char>, after: Seq<char> },
}

/// The first placeholder of `t`: its first opening marker, and the first
/// closing marker after that.
pub open spec fn scan(t: Seq<char>) -> Scan {
    match split_first(t, open_marker()) {
        None => Scan::Plain,
        Some((before, rest)) => match split_first(rest, close_marker()) {
            None => Scan::Unterminated,
            Some((inner, after)) => Scan::Placeholder { before, inner, after },
        },
    }
}

/// A template is the text before its first placeholder, the placeholder
/// with its markers, and the text after it.
pub proof fn lemma_scan(t: Seq<char>)
    ensures
        scan(t) matches Scan::Placeholder { before, inner, after } ==> t == before + open_marker()
            + inner + close_marker() + after,
{
    lemma_split_first(t, open_marker());
    if let Some((before, rest)) = split_first(t, open_marker()) {
        lemma_split_first(rest, close_marker());
        if let Some((inner, after)) = split_first(rest, close_marker()) {
            assert(t == before + open_marker() + inner + close_marker() + after);
        }
    }
}

/// `names` recurses on a shorter text.
#[via_fn]
proof fn names_decreases(t: Seq<char>) {
    lemma_scan(t);
}

/// `lookups` recurses on a shorter text.
#[via_fn]
proof fn lookups_decreases(t: Seq<char>, answers: Seq<Option<Seq<char>>>) {
    lemma_scan(t);
}

/// `expand` recurses on a shorter text.
#[via_fn]
proof fn expand_decreases(t: Seq<char>, answers: Seq<Option<Seq<char>>>) {
    lemma_scan(t);
}

/// The names that a scan from left to right meets, one per complete placeholder.
pub open spec fn names(t: Seq<char>) -> Seq<Seq<char>>
    decreases t.len() via names_decreases
{
    match scan(t) {
        Scan::Placeholder { before, inner, after } => seq![trimmed(inner)] + names(after),
        _ => seq![],
    }
}

/// How many lookups a substitution makes when the resolver gives `answers`
/// in turn: one per placeholder, up to the first one that is not resolved.
pub open spec fn lookups(t: Seq<char>, answers: Seq<Option<Seq<char>>>) -> nat
    decreases t.len() via lookups_decreases
{
    match scan(t) {
        Scan::Placeholder { before, inner, after } => {
            if answers.len() > 0 && answers[0] is Some {
                1 + lookups(after, answers.drop_first())
            } else {
                1
            }
        },
        _ => 0,
    }
}

/// `r` with `p` written before its text.
pub open spec fn prepend(p: Seq<char>, r: Result<Seq<char>, Failure>) -> Result<
    Seq<char>,
    Failure,
> {
    match r {
        Ok(s) => Ok(p + s),
        Err(e) => Err(e),
    }
}

/// The outcome of substituting into `t` when the resolver gives `answers` in
/// turn, one per placeholder met, as text (`None` where it has no value).
pub open spec fn expand(t: Seq<char>, answers: Seq<Option<Seq<char>>>) -> Result<
    Seq<char>,
    Failure,
>
    decreases t.len() via expand_decreases
{
    match scan(t) {
        Scan::Plain => Ok(t),
        Scan::Unterminated => Err(Failure::Syntax),
        Scan::Placeholder { before, inner, after } => {
            if answers.len() == 0 || answers[0] is None {
                Err(Failure::Unresolved(trimmed(inner)))
            } else {
                prepend(before + answers[0]->0, expand(after, answers.drop_first()))
            }
        },
    }
}

/// The view of a substitution's result.
pub open spec fn outcome(r: Result<String, Error>) -> Result<Seq<char>, Failure> {
    match r {
        Ok(s) => Ok(s@),
        Err(e) => Err(e@),
    }
}

/// `s` is a text that `Display` may write for `v`.
pub open spec fn shown<S: std::fmt::Display>(v: &S, s: Seq<char>) -> bool {
    exists|x: String| x@ == s && #[trigger] to_string_from_display_ensures::<S>(v, x)
}

/// `a` is the text of the resolver's result `o`.
pub open spec fn gives<S: std::fmt::Display>(o: Option<S>, a: Option<Seq<char>>) -> bool {
    match o {
        None => a is None,
        Some(v) => a matches Some(s) && shown(&v, s),
    }
}

/// The resolver `f` may answer `a` when asked for `name`.
pub open spec fn answered_by<'a, F: Fn(&'a str) -> Option<S>, S: std::fmt::Display>(
    f: F,
    name: Seq<char>,
    a: Option<Seq<char>>,
) -> bool {
    exists|x: &'a str, o: Option<S>| #[trigger] f.ensures((x,), o) && x@ == name && gives(o, a)
}

/// `answers` are what `f` gave, in turn, for the lookups that a substitution
/// into `t` makes.
pub open spec fn consulted<'a, F: Fn(&'a str) -> Option<S>, S: std::fmt::Display>(
    f: F,
    t: Seq<char>,
    answers: Seq<Option<Seq<char>>>,
) -> bool {
    &&& answers.len() == lookups(t, answers)
    &&& forall|i: int|
        0 <= i < answers.len() ==> answered_by(f, names(t)[i], #[trigger] answers[i])
}

/// The text after the first `n` placeholders of `t`.
spec fn after_placeholders(t: Seq<char>, n: nat) -> Seq<char>
    decreases n,
{
    if n == 0 {
        t
    } else {
        scan(after_placeholders(t, (n - 1) as nat))->Placeholder_after
    }
}

/// What a substitution into `t` has written once the resolver gave `done` for
/// its first placeholders.
spec fn written(t: Seq<char>, done: Seq<Option<Seq<char>>>) -> Seq<char>
    decreases done.len(),
{
    if done.len() == 0 {
        Seq::empty()
    } else {
        written(t, done.drop_last()) + scan(
            after_placeholders(t, (done.len() - 1) as nat),
        )->Placeholder_before + done.last()->0
    }
}

/// Once the first placeholders of `t` are resolved with `done`, the rest of
/// the substitution is one into the text after them.
proof fn lemma_resolved_prefix(
    t: Seq<char>,
    done: Seq<Option<Seq<char>>>,
    tail: Seq<Option<Seq<char>>>,
)
    requires
        forall|k: int| 0 <= k < done.len() ==> #[trigger] done[k] is Some,
        forall|k: nat| k < done.len() ==> scan(#[trigger] after_placeholders(t, k)) is Placeholder,
    ensures
        expand(t, done + tail) == prepend(
            written(t, done),
            expand(after_placeholders(t, done.len()), tail),
        ),
        lookups(t, done + tail) == done.len() + lookups(after_placeholders(t, done.len()), tail),
        names(t).len() >= done.len(),
        names(t).skip(done.len() as int) == names(after_placeholders(t, done.len())),
    decreases done.len(),
{
    if done.len() == 0 {
        assert(done + tail == tail);
    } else {
        let n = done.len();
        let before = done.drop_last();
        let v = done.last();
        let at = after_placeholders(t, (n - 1) as nat);
        assert(scan(at) is Placeholder);
        let step = seq![v] + tail;
        assert(done + tail == before + step);
        lemma_resolved_prefix(t, before, step);
        lemma_scan(at);
        assert(step.drop_first() == tail);
        assert(step[0] == v);
        let b = scan(at)->Placeholder_before;
        let r = expand(after_placeholders(t, n), tail);
        assert(expand(at, step) == prepend(b + v->0, r));
        if let Ok(s) = r {
            assert(written(t, before) + (b + v->0 + s) == written(t, done) + s);
        }
        assert(names(at) == seq![trimmed(scan(at)->Placeholder_inner)] + names(
            after_placeholders(t, n),
        ));
        assert(names(t).skip(n as int) =~= names(t).skip(n - 1).drop_first());
    }
}

/// Substitutes into `template` the values that `variables_fn` gives for the
/// trimmed names of its `{{ name }}` placeholders, from left to right.
/// Fails with the first name that has no value, or where an opening marker is
/// never closed; inserted values are not scanned again.
pub fn minitmpl_fn<'a, F, S>(template: &'a str, variables_fn: F) -> (r: Result<String, Error>)
    where
        F: Fn(&'a str) -> Option<S>,
        S: std::fmt::Display,
    requires
        forall|x: &'a str| #[trigger] variables_fn.requires((x,)),
    ensures
        exists|answers: Seq<Option<Seq<char>>>|
            consulted(variables_fn, template@, answers) && outcome(r) == expand(
                template@,
                answers,
            ),
        find(template@, open_marker()) is None ==> outcome(r) == Ok::<Seq<char>, Failure>(
            template@,
        ),
{
    proof {
        reveal_strlit("{{");
        reveal_strlit("}}");
        assert("{{"@ =~= open_marker());
        assert("}}"@ =~= close_marker());
    }
    let ghost t = template@;
    let ghost mut done: Seq<Option<Seq<char>>> = seq![];
    let mut out = String::new();
    let mut rest: &'a str = template;
    loop
        invariant
            forall|x: &'a str| #[trigger] variables_fn.requires((x,)),
            rest@ == after_placeholders(t, done.len()),
            out@ == written(t, done),
            forall|k: int| 0 <= k < done.len() ==> #[trigger] done[k] is Some,
            forall|k: nat|
                k < done.len() ==> scan(#[trigger] after_placeholders(t, k)) is Placeholder,
            names(t).len() >= done.len(),
            forall|k: int|
                0 <= k < done.len() ==> answered_by(variables_fn, names(t)[k], #[trigger] done[k]),
            t == template@,
            "{{"@ == open_marker(),
            "}}"@ == close_marker(),
        decreases rest@.len(),
    {
        proof {
            lemma_scan(rest@);
            lemma_resolved_prefix(t, done, seq![]);
            assert(done + seq![] == done);
        }
        match split_once(rest, "{{") {
            None => {
                out.append(rest);
                let r = Ok(out);
                assert(consulted(variables_fn, t, done));
                assert(outcome(r) == expand(t, done));
                return r;
            },
            Some((left, after_open)) => match split_once(after_open, "}}") {
                None => {
                    let r = Err(Error::SyntaxError);
                    assert(consulted(variables_fn, t, done));
                    assert(outcome(r) == expand(t, done));
                    return r;
                },
                Some((center, right)) => {
                    let name = trim(center);
                    let ghost k = done.len() as int;
                    assert(names(rest@) == seq![name@] + names(right@));
                    assert(names(t).skip(k)[0] == names(t)[k]);
                    let found = variables_fn(name);
                    match found {
                        None => {
                            let r = Err(Error::UnresolvedVariable(name.to_owned()));
                            let ghost answers = done.push(None);
                            proof {
                                lemma_resolved_prefix(t, done, seq![None]);
                                assert(done + seq![None] == answers);
                                assert(answered_by(variables_fn, names(t)[k], answers[k]));
                                assert forall|i: int| 0 <= i < answers.len() implies answered_by(
                                    variables_fn,
                                    names(t)[i],
                                    #[trigger] answers[i],
                                ) by {
                                    if i < k {
                                        assert(answers[i] == done[i]);
                                    }
                                }
                            }
                            assert(consulted(variables_fn, t, answers));
                            assert(outcome(r) == expand(t, answers));
                            return r;
                        },
                        Some(value) => {
                            let text = value.to_string();
                            let ghost first = Some(text@);
                            assert(gives(found, first));
                            assert(answered_by(variables_fn, names(t)[k], first));
                            out.append(left);
                            out.append(text.as_str());
                            rest = right;
                            proof {
                                let old_done = done;
                                done = done.push(first);
                                assert(done.drop_last() == old_done);
                                assert forall|i: int| 0 <= i < done.len() implies answered_by(
                                    variables_fn,
                                    names(t)[i],
                                    #[trigger] done[i],
                                ) by {
                                    if i < k {
                                        assert(done[i] == old_done[i]);
                                    }
                                }
                                assert forall|i: nat| i < done.len() implies scan(
                                    #[trigger] after_placeholders(t, i),
                                ) is Placeholder by {
                                    if i < k {
                                        assert(old_done.len() == k);
                                    }
                                }
                            }
                        },
                    }
                },
            },
        }
    }
}

} // verus!
