//! Sentence boundaries in a CG-3 stream.
use vstd::prelude::*;
use crate::cg3::{clb, has_tag_clb, readings_view, Cohort, CohortV};
use crate::text::{push_char, str_eq, strings_view};

verus! {

/// The word forms that may end a sentence: `.`, `!` and `?`.
pub open spec fn default_breakers() -> Seq<Seq<char>> {
    seq![seq!['.'], seq!['!'], seq!['?']]
}

pub fn default_sentence_breakers() -> (v: Vec<String>)
    ensures
        strings_view(v@) == default_breakers(),
{
    let mut a = String::new();
    push_char(&mut a, '.');
    let mut b = String::new();
    push_char(&mut b, '!');
    let mut c = String::new();
    push_char(&mut c, '?');
    let v = vec![a, b, c];
    assert(strings_view(v@) =~= default_breakers());
    v
}

/// Some reading of the cohort carries the tag `CLB`.
pub open spec fn any_clb(c: CohortV) -> bool {
    exists|i: int| 0 <= i < c.readings.len() && (#[trigger] c.readings[i]).tags.contains(clb())
}

/// A cohort ends a sentence when its word form is one of `breakers` and one
/// of its readings is tagged `CLB`.
pub open spec fn sentence_boundary(c: CohortV, breakers: Seq<Seq<char>>) -> bool {
    breakers.contains(c.word_form) && any_clb(c)
}

pub fn contains_string(v: &Vec<String>, s: &String) -> (r: bool)
    ensures
        r == strings_view(v@).contains(s@),
{
    let mut k: usize = 0;
    while k < v.len()
        invariant
            k <= v@.len(),
            forall|j: int| 0 <= j < k ==> strings_view(v@)[j] != s@,
        decreases v@.len() - k,
    {
        if str_eq(v[k].as_str(), s.as_str()) {
            assert(strings_view(v@)[k as int] == s@);
            return true;
        }
        k = k + 1;
    }
    false
}

pub fn is_sentence_boundary(cohort: &Cohort, breakers: &Vec<String>) -> (b: bool)
    ensures
        b == sentence_boundary(cohort@, strings_view(breakers@)),
{
    if !contains_string(breakers, &cohort.word_form) {
        return false;
    }
    let mut k: usize = 0;
    while k < cohort.readings.len()
        invariant
            k <= cohort.readings@.len(),
            strings_view(breakers@).contains(cohort@.word_form),
            forall|j: int|
                0 <= j < k ==> !(#[trigger] readings_view(cohort.readings@)[j]).tags.contains(clb()),
        decreases cohort.readings@.len() - k,
    {
        if has_tag_clb(&cohort.readings[k].tags) {
            assert(readings_view(cohort.readings@)[k as int].tags.contains(clb()));
            assert(cohort@.readings[k as int].tags.contains(clb()));
            assert(any_clb(cohort@));
            return true;
        }
        k = k + 1;
    }
    assert(!any_clb(cohort@)) by {
        assert forall|i: int| 0 <= i < cohort@.readings.len() implies !(
        #[trigger] cohort@.readings[i]).tags.contains(clb()) by {
            assert(cohort@.readings[i] == readings_view(cohort.readings@)[i]);
        }
    }
    false
}

} // verus!
