//! Transducer lookups that the speech commands depend on, answered one at a
//! time. A command's decisions are computed over the answers known so far:
//! either they suffice and the outcome is known, or the first lookup still
//! missing is asked for. The caller makes that lookup, adds its answer and
//! asks again.
use vstd::prelude::*;
use crate::text::{str_eq, strings_view};

verus! {

/// A transducer a speech command consults: the one kept for the `k`-th tag
/// (a normaliser, or a tag model), the main model, the generator or the
/// analyser.
#[derive(Debug, PartialEq, Eq, Structural, Clone, Copy)]
pub enum Transducer {
    Tagged(usize),
    Main,
    Generator,
    Analyzer,
}

/// A lookup of `input` in a transducer.
#[derive(Debug)]
pub struct Query {
    pub transducer: Transducer,
    pub input: String,
}

/// The strings a lookup gave.
#[derive(Debug)]
pub struct Answer {
    pub query: Query,
    pub results: Vec<String>,
}

pub struct AnswerV {
    pub transducer: Transducer,
    pub input: Seq<char>,
    pub results: Seq<Seq<char>>,
}

pub open spec fn answer_view(a: Answer) -> AnswerV {
    AnswerV {
        transducer: a.query.transducer,
        input: a.query.input@,
        results: strings_view(a.results@),
    }
}

pub open spec fn answers_view(v: Seq<Answer>) -> Seq<AnswerV> {
    v.map_values(|a: Answer| answer_view(a))
}

/// What the answers say transducer `t` gives for `input`: the results of the
/// first answer to that lookup.
pub open spec fn answered(tbl: Seq<AnswerV>, t: Transducer, input: Seq<char>) -> Option<
    Seq<Seq<char>>,
>
    decreases tbl.len(),
{
    if tbl.len() == 0 {
        None
    } else if tbl[0].transducer == t && tbl[0].input == input {
        Some(tbl[0].results)
    } else {
        answered(tbl.drop_first(), t, input)
    }
}

/// A lookup still to be made, or the outcome.
pub enum StepV<T> {
    Need(Transducer, Seq<char>),
    Done(T),
}

/// A lookup still to be made, or the outcome.
#[derive(Debug)]
pub enum Step<T> {
    Need(Query),
    Done(T),
}

/// `s` asks for the lookup that `v` asks for.
pub open spec fn needs<T, U>(s: Step<T>, v: StepV<U>) -> bool {
    match v {
        StepV::Need(t, i) => s matches Step::Need(q) && q.transducer == t && q.input@ == i,
        StepV::Done(_) => false,
    }
}

/// The lookup of `input` in `t`.
pub fn query(t: Transducer, input: &str) -> (q: Query)
    ensures
        q.transducer == t,
        q.input@ == input@,
{
    Query { transducer: t, input: input.to_string() }
}

/// The results of the first answer to looking `input` up in `t`, if any.
pub fn lookup<'a>(answers: &'a Vec<Answer>, t: Transducer, input: &str) -> (r: Option<
    &'a Vec<String>,
>)
    ensures
        match answered(answers_view(answers@), t, input@) {
            Some(rs) => r matches Some(v) && strings_view(v@) == rs,
            None => r is None,
        },
{
    let ghost tv = answers_view(answers@);
    let mut i: usize = 0;
    assert(tv.skip(0) =~= tv);
    while i < answers.len()
        invariant
            i <= answers@.len(),
            tv == answers_view(answers@),
            answered(tv, t, input@) == answered(tv.skip(i as int), t, input@),
        decreases answers@.len() - i,
    {
        let a = &answers[i];
        assert(tv.skip(i as int)[0] == answer_view(answers@[i as int]));
        if a.query.transducer == t && str_eq(a.query.input.as_str(), input) {
            return Some(&a.results);
        }
        assert(tv.skip(i as int).drop_first() =~= tv.skip(i + 1));
        i = i + 1;
    }
    None
}

} // verus!
