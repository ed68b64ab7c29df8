use vstd::prelude::*;
use std::collections::HashMap;
use crate::engine::{
    answered_by, consulted, expand, gives, lookups, minitmpl_fn, names, open_marker, outcome, shown,
};
use crate::error::{Error, Failure};
use crate::text::find;

verus! {

/// `m` holds a key whose text is `name`.
pub open spec fn has_name<S>(m: Map<String, S>, name: Seq<char>) -> bool {
    exists|k: String| #[trigger] m.contains_key(k) && k@ == name
}

/// `a` is what a lookup of `name` in `m` gives: `None` where no key has that
/// text, else the text that `Display` writes for its value.
pub open spec fn found_in<S: std::fmt::Display>(
    m: Map<String, S>,
    name: Seq<char>,
    a: Option<Seq<char>>,
) -> bool {
    match a {
        None => !has_name(m, name),
        Some(s) => exists|k: String|
            #[trigger] m.contains_key(k) && k@ == name && shown::<&S>(&&m[k], s),
    }
}

/// `answers` are what `m` gave, in turn, for the lookups that a substitution
/// into `t` makes.
pub open spec fn looked_up<S: std::fmt::Display>(
    m: Map<String, S>,
    t: Seq<char>,
    answers: Seq<Option<Seq<char>>>,
) -> bool {
    &&& answers.len() == lookups(t, answers)
    &&& forall|i: int| 0 <= i < answers.len() ==> found_in(m, names(t)[i], #[trigger] answers[i])
}

/// Relies on `HashMap::get`: it returns the value of the key equal to `k`, or
/// `None` where there is none; a `String` key equals a `str` when their
/// characters are equal. (vstd specifies `get` only for key types with a
/// proven hashing model, which `String` lacks.)
#[verifier::external_body]
fn entry<'m, S>(m: &'m HashMap<String, S>, k: &str) -> (r: Option<&'m S>)
    ensures
        r is None <==> !has_name(m@, k@),
        r matches Some(v) ==> exists|key: String|
            #[trigger] m@.contains_key(key) && key@ == k@ && m@[key] == *v,
{
    m.get(k)
}

/// Substitutes into `template` the values of `variables` for the trimmed
/// names of its placeholders, as [`minitmpl_fn`] does with a lookup in it.
pub fn minitmpl<'a, S>(template: &'a str, variables: HashMap<String, S>) -> (r: Result<
    String,
    Error,
>)
    where
        S: std::fmt::Display,
    ensures
        exists|answers: Seq<Option<Seq<char>>>|
            looked_up(variables@, template@, answers) && outcome(r) == expand(
                template@,
                answers,
            ),
        find(template@, open_marker()) is None ==> outcome(r) == Ok::<Seq<char>, Failure>(
            template@,
        ),
{
    let lookup = |key: &'a str| -> (o: Option<&S>)
        ensures
            o is None <==> !has_name(variables@, key@),
            o matches Some(v) ==> exists|k: String|
                #[trigger] variables@.contains_key(k) && k@ == key@ && variables@[k] == *v,
        { entry(&variables, key) };
    let r = minitmpl_fn(template, lookup);
    proof {
        let answers = choose|answers: Seq<Option<Seq<char>>>|
            consulted(lookup, template@, answers) && outcome(r) == expand(template@, answers);
        assert forall|i: int| 0 <= i < answers.len() implies found_in(
            variables@,
            names(template@)[i],
            #[trigger] answers[i],
        ) by {
            assert(answered_by(lookup, names(template@)[i], answers[i]));
            let (x, o) = choose|x: &'a str, o: Option<&S>|
                #[trigger] lookup.ensures((x,), o) && x@ == names(template@)[i] && gives(o, answers[i]);
            if let Some(v) = o {
                let k = choose|k: String|
                    #[trigger] variables@.contains_key(k) && k@ == x@ && variables@[k] == *v;
                assert(shown::<&S>(&&variables@[k], answers[i]->0));
            }
        }
        assert(looked_up(variables@, template@, answers));
    }
    r
}

} // verus!
