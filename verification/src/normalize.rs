//! Text normalisation for speech: which normaliser a reading asks for, the
//! surface form it is normalised from, the tags it is regenerated with, and
//! how the readings of a cohort nest (a compound's parts under its head).
use vstd::prelude::*;
use vstd::string::StrSliceExecFns;
use crate::cg3::{
    blocks, cohort_stream_text, items_view, lines_fit, stream_panics, Block, BlockV, Cohort as CgCohort,
    CohortV as CgCohortV, ItemV, Output, Reading as CgReading, ReadingV as CgReadingV,
};
use crate::speech::{NormalizedCohort, NormalizedReading};
use crate::suggest::{ends, ends_str, starts, starts_str};
use crate::lookup::{answered, answers_view, lookup, needs, query, Answer, Step, StepV, Transducer};
use crate::speech::first_of;
use crate::text::{
    chars_of, contains_seq, contains_str, push_char, push_str, replace_all, replaced, split_words,
    str_eq, string_of, strings_view, words,
};

verus! {

broadcast use vstd::string::group_string_axioms;

/// The first normaliser (by its tag, in order) whose tag the reading has.
pub open spec fn first_normalizer(tags: Seq<Seq<char>>, names: Seq<Seq<char>>) -> Option<int>
    decreases names.len(),
{
    if names.len() == 0 {
        None
    } else {
        match first_normalizer(tags, names.drop_last()) {
            Some(i) => Some(i),
            None => if tags.contains(names.last()) {
                Some(names.len() - 1)
            } else {
                None
            },
        }
    }
}

/// The normaliser a reading needs, by its index among `normalizer_tags`:
/// the first whose tag the reading has.
pub fn needs_expansion(reading: &CgReading, normalizer_tags: &Vec<String>) -> (r: Option<usize>)
    ensures
        match first_normalizer(reading@.tags, strings_view(normalizer_tags@)) {
            Some(i) => r == Some(i as usize),
            None => r is None,
        },
{
    let ghost nv = strings_view(normalizer_tags@);
    let mut k: usize = 0;
    assert(nv.take(0) =~= Seq::<Seq<char>>::empty());
    while k < normalizer_tags.len()
        invariant
            k <= normalizer_tags@.len(),
            nv == strings_view(normalizer_tags@),
            first_normalizer(reading@.tags, nv.take(k as int)) is None,
        decreases normalizer_tags@.len() - k,
    {
        assert(nv.take(k + 1).drop_last() =~= nv.take(k as int));
        assert(nv.take(k + 1).last() == normalizer_tags@[k as int]@);
        if crate::suggest::contains_string(&reading.tags, normalizer_tags[k].as_str()) {
            proof {
                lemma_first_normalizer_prefix(reading@.tags, nv, k + 1);
            }
            return Some(k);
        }
        k = k + 1;
    }
    assert(nv.take(normalizer_tags@.len() as int) =~= nv);
    None
}

/// A normaliser found in a prefix of the list is the one found in it all.
proof fn lemma_first_normalizer_prefix(tags: Seq<Seq<char>>, names: Seq<Seq<char>>, n: int)
    requires
        0 <= n <= names.len(),
        first_normalizer(tags, names.take(n)) is Some,
    ensures
        first_normalizer(tags, names) == first_normalizer(tags, names.take(n)),
    decreases names.len() - n,
{
    if n < names.len() {
        assert(names.take(n + 1).drop_last() =~= names.take(n));
        lemma_first_normalizer_prefix(tags, names, n + 1);
    } else {
        assert(names.take(n) =~= names);
    }
}

/// A `"…"phon` tag (`phon`), or a `"<…>"` form tag.
pub open spec fn tag_hit(t: Seq<char>, phon: bool) -> bool {
    if phon {
        is_phon_tag(t)
    } else {
        is_form_tag(t)
    }
}

/// The first `"…"phon` tag (`phon`), or `"<…>"` form tag.
pub open spec fn first_tag(tags: Seq<Seq<char>>, phon: bool) -> Option<Seq<char>>
    decreases tags.len(),
{
    if tags.len() == 0 {
        None
    } else if tag_hit(tags[0], phon) {
        Some(tags[0])
    } else {
        first_tag(tags.drop_first(), phon)
    }
}

proof fn lemma_first_tag(tags: Seq<Seq<char>>, phon: bool)
    ensures
        first_tag(tags, phon) matches Some(t) ==> tag_hit(t, phon),
    decreases tags.len(),
{
    if tags.len() > 0 && !tag_hit(tags[0], phon) {
        lemma_first_tag(tags.drop_first(), phon);
    }
}

pub open spec fn is_phon_tag(t: Seq<char>) -> bool {
    ends(t, "\"phon"@)
}

pub open spec fn is_form_tag(t: Seq<char>) -> bool {
    starts(t, "\"<"@) && ends(t, ">\""@)
}

/// `s` without the `"` at its ends (`str::trim_matches('"')`).
pub open spec fn unquoted(s: Seq<char>) -> Seq<char> {
    let a = lead_quotes(s);
    let t = s.skip(a as int);
    t.take(t.len() - trail_quotes(t))
}

pub open spec fn lead_quotes(s: Seq<char>) -> nat
    decreases s.len(),
{
    if s.len() > 0 && s[0] == '"' {
        1 + lead_quotes(s.drop_first())
    } else {
        0
    }
}

pub open spec fn trail_quotes(s: Seq<char>) -> nat
    decreases s.len(),
{
    if s.len() > 0 && s.last() == '"' {
        1 + trail_quotes(s.drop_last())
    } else {
        0
    }
}

/// The form a reading is normalised from: its `"…"phon` tag, else its
/// re-analysed `"<…>"` form, else (for a subreading) its base form without
/// quotes, else its lemma inside quotes, else the cohort's form.
pub open spec fn surface_form(c: CgCohortV, r: CgReadingV) -> Seq<char> {
    match first_tag(r.tags, true) {
        Some(t) => t.subrange(1, t.len() - 5),
        None => match first_tag(r.tags, false) {
            Some(t) => t.subrange(2, t.len() - 2),
            None => if r.depth > 1 {
                unquoted(r.base_form)
            } else if starts(r.base_form, "\""@) && ends(r.base_form, "\""@) {
                r.base_form.subrange(1, r.base_form.len() - 1)
            } else {
                c.word_form
            },
        },
    }
}

/// The surface form can be cut out without a panic: a `"…"phon` tag is more
/// than `"phon` and starts with a one-byte character; a quoted lemma is more
/// than one quote.
pub open spec fn surface_ok(c: CgCohortV, r: CgReadingV) -> bool {
    match first_tag(r.tags, true) {
        Some(t) => t.len() >= 6 && (t[0] as u32) < 0x80,
        None => match first_tag(r.tags, false) {
            Some(t) => true,
            None => r.depth > 1 || !(starts(r.base_form, "\""@) && ends(r.base_form, "\""@))
                || r.base_form.len() >= 2,
        },
    }
}

/// The first `"…"phon` tag (`phon`), or `"<…>"` form tag.
pub(crate) fn find_tag(tags: &Vec<String>, phon: bool) -> (r: Option<usize>)
    ensures
        match first_tag(strings_view(tags@), phon) {
            Some(t) => r matches Some(i) && i < tags@.len() && tags@[i as int]@ == t,
            None => r is None,
        },
{
    let ghost tv = strings_view(tags@);
    let mut i: usize = 0;
    assert(tv.skip(0) =~= tv);
    while i < tags.len()
        invariant
            i <= tags@.len(),
            tv == strings_view(tags@),
            first_tag(tv, phon) == first_tag(tv.skip(i as int), phon),
        decreases tags@.len() - i,
    {
        let tc = chars_of(tags[i].as_str());
        let hit = if phon {
            ends_str(&tc, "\"phon")
        } else {
            starts_str(&tc, "\"<") && ends_str(&tc, ">\"")
        };
        assert(tv.skip(i as int)[0] == tags@[i as int]@);
        if hit {
            return Some(i);
        }
        assert(tv.skip(i as int).drop_first() =~= tv.skip(i + 1));
        i = i + 1;
    }
    None
}

/// A `"<…>"` form tag has at least four characters.
pub proof fn lemma_form_tag_len(tags: Seq<Seq<char>>)
    ensures
        first_tag(tags, false) matches Some(t) ==> t.len() >= 4,
{
    lemma_first_tag(tags, false);
    if let Some(t) = first_tag(tags, false) {
        reveal_strlit("\"<");
        reveal_strlit(">\"");
        assert(is_form_tag(t));
        assert("\"<"@ =~= seq!['"', '<']);
        assert(">\""@ =~= seq!['>', '"']);
        assert(t.take(2)[0] == '"' && t.take(2)[1] == '<');
        assert(t.skip(t.len() - 2)[0] == '>');
        assert(t[t.len() - 2] == '>');
        assert(t[1] == '<');
    }
}

/// `s` without the `"` at its ends.
pub fn trim_quotes(s: &str) -> (r: String)
    ensures
        r@ == unquoted(s@),
{
    let v = chars_of(s);
    let mut a: usize = 0;
    assert(s@.skip(0) =~= s@);
    while a < v.len() && v[a] == '"'
        invariant
            a <= v@.len(),
            v@ == s@,
            lead_quotes(s@) == a + lead_quotes(s@.skip(a as int)),
        decreases v@.len() - a,
    {
        assert(s@.skip(a as int).drop_first() =~= s@.skip(a + 1));
        a = a + 1;
    }
    let ghost t = s@.skip(a as int);
    let mut b = v.len();
    assert(t.take((b - a) as int) =~= t);
    while b > a && v[b - 1] == '"'
        invariant
            a <= b <= v@.len(),
            v@ == s@,
            t == s@.skip(a as int),
            trail_quotes(t) == (v@.len() - b) + trail_quotes(t.take(b - a)),
        decreases b - a,
    {
        assert(t.take(b - a).drop_last() =~= t.take(b - a - 1));
        b = b - 1;
    }
    let r = string_of(&v, a, b);
    assert(r@ =~= t.take(t.len() - trail_quotes(t)));
    r
}

/// The form a reading is normalised from.
pub fn extract_surface_form(cohort: &CgCohort, reading: &CgReading) -> (s: String)
    requires
        surface_ok(cohort@, reading@),
    ensures
        s@ == surface_form(cohort@, reading@),
{
    match find_tag(&reading.tags, true) {
        Some(i) => {
            let tc = chars_of(reading.tags[i].as_str());
            proof {
                reveal_strlit("\"phon");
            }
            return string_of(&tc, 1, tc.len() - 5);
        },
        None => {},
    }
    match find_tag(&reading.tags, false) {
        Some(i) => {
            let tc = chars_of(reading.tags[i].as_str());
            proof {
                reveal_strlit("\"<");
                reveal_strlit(">\"");
            }
            proof {
                let t = tc@;
                lemma_first_tag(reading@.tags, false);
                assert(is_form_tag(t));
                assert("\"<"@ =~= seq!['"', '<']);
                assert(">\""@ =~= seq!['>', '"']);
                assert(t.take(2)[0] == '"' && t.take(2)[1] == '<');
                assert(t.skip(t.len() - 2)[0] == '>');
                assert(t[t.len() - 2] == '>');
                assert(t[1] == '<');
                assert(t.len() >= 4);
            }
            return string_of(&tc, 2, tc.len() - 2);
        },
        None => {},
    }
    if reading.depth > 1 {
        return trim_quotes(reading.base_form.as_str());
    }
    let bv = chars_of(reading.base_form.as_str());
    if starts_str(&bv, "\"") && ends_str(&bv, "\"") {
        proof {
            reveal_strlit("\"");
        }
        string_of(&bv, 1, bv.len() - 1)
    } else {
        cohort.word_form.clone()
    }
}

/// The first index of `p` in `s`.
pub open spec fn first_match(s: Seq<char>, p: Seq<char>) -> Option<int>
    decreases s.len(),
{
    if s.len() < p.len() {
        None
    } else if s.take(p.len() as int) == p {
        Some(0)
    } else if s.len() == 0 {
        None
    } else {
        match first_match(s.drop_first(), p) {
            Some(i) => Some(i + 1),
            None => None,
        }
    }
}

pub proof fn lemma_first_match(s: Seq<char>, p: Seq<char>)
    ensures
        first_match(s, p) matches Some(i) ==> 0 <= i && i + p.len() <= s.len() && s.subrange(i, i + p.len()) == p,
    decreases s.len(),
{
    if s.len() >= p.len() && s.take(p.len() as int) != p && s.len() > 0 {
        lemma_first_match(s.drop_first(), p);
        if let Some(i) = first_match(s.drop_first(), p) {
            assert(s.drop_first().subrange(i, i + p.len()) =~= s.subrange(i + 1, i + 1 + p.len()));
        }
    }
}

/// `s` with its first `p` replaced by `r`, as long as it has one: each
/// replacement shortens it.
pub open spec fn replace_each_first(s: Seq<char>, p: Seq<char>, r: Seq<char>) -> Seq<char>
    decreases s.len(),
{
    if r.len() < p.len() {
        match first_match(s, p) {
            Some(i) => {
                proof {
                    lemma_first_match(s, p);
                }
                replace_each_first(s.take(i) + r + s.skip(i + p.len()), p, r)
            },
            None => s,
        }
    } else {
        s
    }
}

/// The tags a reading is regenerated with, joined by `+`, so far, and
/// whether a stop tag was met.
pub open spec fn regen_fold(tags: Seq<Seq<char>>) -> (Seq<char>, bool)
    decreases tags.len(),
{
    if tags.len() == 0 {
        (Seq::empty(), false)
    } else {
        let p = regen_fold(tags.drop_last());
        let t = tags.last();
        if p.1 {
            p
        } else if starts(t, "#"@) {
            (p.0, true)
        } else if starts(t, "\""@) || contains_seq(t, "@"@) || contains_seq(t, "<"@) || contains_seq(
            t,
            "/"@,
        ) {
            p
        } else if contains_seq(t, "SELECT:"@) || contains_seq(t, "MAP:"@) || contains_seq(
            t,
            "SETPARENT:"@,
        ) || contains_seq(t, "Cmp"@) {
            (p.0, true)
        } else {
            (
                if p.0.len() > 0 {
                    p.0 + "+"@ + t
                } else {
                    t
                },
                false,
            )
        }
    }
}

/// `s` with each `+tag` of the normalisers removed, in turn.
pub open spec fn without_tags(s: Seq<char>, names: Seq<Seq<char>>) -> Seq<char>
    decreases names.len(),
{
    if names.len() == 0 {
        s
    } else {
        replace_each_first(without_tags(s, names.drop_last()), "+"@ + names.last(), Seq::empty())
    }
}

/// The morphological tags of a reading, joined by `+`, up to a dependency
/// marker or a rule tag, skipping quoted, bracketed, `@` and `/` tags;
/// doubled `+` squashed, a final `+` dropped, and `+ABBR`, `+Cmpnd`,
/// `+Err/Orth` and the normalisers' own tags removed.
pub open spec fn regentags(tags: Seq<Seq<char>>, names: Seq<Seq<char>>) -> Seq<char> {
    let s1 = replace_each_first(regen_fold(tags).0, "++"@, "+"@);
    let s2 = if ends(s1, "+"@) {
        s1.drop_last()
    } else {
        s1
    };
    let s3 = replace_each_first(s2, "+ABBR"@, Seq::empty());
    let s4 = replace_each_first(s3, "+Cmpnd"@, Seq::empty());
    let s5 = replace_each_first(s4, "+Err/Orth"@, Seq::empty());
    without_tags(s5, names)
}

/// The first index of `p` in `s`.
fn find_str(s: &Vec<char>, p: &Vec<char>) -> (r: Option<usize>)
    ensures
        match first_match(s@, p@) {
            Some(i) => r == Some(i as usize),
            None => r is None,
        },
{
    let mut i: usize = 0;
    assert(s@.skip(0) =~= s@);
    while i <= s.len()
        invariant
            i <= s@.len() + 1,
            i <= s@.len() ==> first_match(s@, p@) == match first_match(s@.skip(i as int), p@) {
                Some(j) => Some(j + i),
                None => None::<int>,
            },
            i > s@.len() ==> first_match(s@, p@) is None,
        decreases s@.len() + 1 - i,
    {
        let ghost t = s@.skip(i as int);
        if crate::text::starts_with_at(s, i, p) {
            assert(t.take(p@.len() as int) =~= s@.subrange(i as int, i + p@.len()));
            return Some(i);
        }
        if i == s.len() {
            proof {
                if p@.len() == 0 {
                    assert(s@.subrange(i as int, i as int) =~= p@);
                }
            }
            return None;
        }
        assert(t.drop_first() =~= s@.skip(i + 1));
        proof {
            if t.len() >= p@.len() {
                assert(t.take(p@.len() as int) =~= s@.subrange(i as int, i + p@.len()));
            }
        }
        i = i + 1;
    }
    None
}

/// Replaces the first `p` in `s` by `r` as long as there is one.
fn replace_firsts(s: String, p: &str, r: &str) -> (out: String)
    requires
        r@.len() < p@.len(),
    ensures
        out@ == replace_each_first(s@, p@, r@),
    decreases s@.len(),
{
    let v = chars_of(s.as_str());
    let pv = chars_of(p);
    match find_str(&v, &pv) {
        Some(i) => {
            proof {
                lemma_first_match(s@, p@);
            }
            assert(i + pv@.len() <= v@.len());
            let n = v.len();
            assert(i + pv.len() <= n);
            let mut t = string_of(&v, 0, i);
            push_str(&mut t, r);
            let rest = string_of(&v, i + pv.len(), n);
            push_str(&mut t, rest.as_str());
            assert(t@ =~= s@.take(i as int) + r@ + s@.skip(i + p@.len()));
            replace_firsts(t, p, r)
        },
        None => s,
    }
}

/// The tags a reading is regenerated with, joined by `+`.
pub fn extract_regentags(reading: &CgReading, normalizer_tags: &Vec<String>) -> (s: String)
    ensures
        s@ == regentags(reading@.tags, strings_view(normalizer_tags@)),
{
    let ghost tv = reading@.tags;
    let mut acc = String::new();
    let mut stopped = false;
    let mut k: usize = 0;
    assert(tv.take(0) =~= Seq::<Seq<char>>::empty());
    while k < reading.tags.len() && !stopped
        invariant
            k <= reading.tags@.len(),
            tv == reading@.tags,
            regen_fold(tv.take(k as int)) == (acc@, stopped),
        decreases reading.tags@.len() - k,
    {
        let t = reading.tags[k].as_str();
        assert(tv[k as int] == t@);
        assert(tv.take(k + 1).drop_last() =~= tv.take(k as int));
        let tc = chars_of(t);
        if starts_str(&tc, "#") {
            stopped = true;
        } else if starts_str(&tc, "\"") || contains_str(t, "@") || contains_str(t, "<") || contains_str(t, "/") {
        } else if contains_str(t, "SELECT:") || contains_str(t, "MAP:") || contains_str(t, "SETPARENT:")
            || contains_str(t, "Cmp") {
            stopped = true;
        } else {
            if acc.as_str().unicode_len() > 0 {
                push_str(&mut acc, "+");
            }
            push_str(&mut acc, t);
        }
        k = k + 1;
    }
    proof {
        if stopped {
            lemma_regen_stop(tv, k as int);
        } else {
            assert(tv.take(k as int) =~= tv);
        }
    }
    let ghost f = regen_fold(tv).0;
    assert(acc@ == f);
    proof {
        reveal_strlit("++");
        reveal_strlit("+");
    }
    let s1 = replace_firsts(acc, "++", "+");
    let v1 = chars_of(s1.as_str());
    let s2 = if ends_str(&v1, "+") {
        string_of(&v1, 0, v1.len() - 1)
    } else {
        s1
    };
    assert(ends(s1@, "+"@) ==> s2@ =~= s1@.drop_last());
    proof {
        reveal_strlit("");
        reveal_strlit("+ABBR");
        reveal_strlit("+Cmpnd");
        reveal_strlit("+Err/Orth");
    }
    assert(""@ =~= Seq::<char>::empty());
    let s3 = replace_firsts(s2, "+ABBR", "");
    let s4 = replace_firsts(s3, "+Cmpnd", "");
    let s5 = replace_firsts(s4, "+Err/Orth", "");
    let ghost nv = strings_view(normalizer_tags@);
    let ghost base = s5@;
    let mut out = s5;
    let mut j: usize = 0;
    assert(nv.take(0) =~= Seq::<Seq<char>>::empty());
    while j < normalizer_tags.len()
        invariant
            j <= normalizer_tags@.len(),
            nv == strings_view(normalizer_tags@),
            out@ == without_tags(base, nv.take(j as int)),
        decreases normalizer_tags@.len() - j,
    {
        let mut pat = String::new();
        push_str(&mut pat, "+");
        push_str(&mut pat, normalizer_tags[j].as_str());
        assert(nv[j as int] == normalizer_tags@[j as int]@);
        assert(pat@ =~= "+"@ + nv[j as int]);
        proof {
            reveal_strlit("");
            reveal_strlit("+");
        }
        assert(nv.take(j + 1).drop_last() =~= nv.take(j as int));
        assert(nv.take(j + 1).last() == nv[j as int]);
        assert(""@ =~= Seq::<char>::empty());
        out = replace_firsts(out, pat.as_str(), "");
        j = j + 1;
    }
    assert(nv.take(normalizer_tags@.len() as int) =~= nv);
    out
}

/// A stop tag ends the fold for good.
proof fn lemma_regen_stop(tags: Seq<Seq<char>>, n: int)
    requires
        0 <= n <= tags.len(),
        regen_fold(tags.take(n)).1,
    ensures
        regen_fold(tags) == regen_fold(tags.take(n)),
    decreases tags.len() - n,
{
    if n < tags.len() {
        assert(tags.take(n + 1).drop_last() =~= tags.take(n));
        lemma_regen_stop(tags, n + 1);
    } else {
        assert(tags.take(n) =~= tags);
    }
}

/// A reading in the nesting of a cohort's readings: its index, its depth
/// and the indices of the readings directly under it.
#[derive(Debug)]
pub struct ReadingNode {
    pub reading_index: usize,
    pub depth: usize,
    pub subreadings: Vec<usize>,
}

/// The reading that reading `i` is directly under: the last one before it
/// that is less deep.
pub open spec fn parent_at(depths: Seq<nat>, i: int, j: int) -> Option<int>
    decreases j,
{
    if j <= 0 {
        None
    } else if depths[j - 1] < depths[i] {
        Some(j - 1)
    } else {
        parent_at(depths, i, j - 1)
    }
}

pub open spec fn parent(depths: Seq<nat>, i: int) -> Option<int> {
    parent_at(depths, i, i)
}

/// The readings directly under reading `p`, among the first `m`, in order.
pub open spec fn children(depths: Seq<nat>, p: int, m: int) -> Seq<usize>
    decreases m,
{
    if m <= 0 {
        Seq::empty()
    } else {
        children(depths, p, m - 1) + if parent(depths, m - 1) == Some(p) {
            seq![(m - 1) as usize]
        } else {
            Seq::empty()
        }
    }
}

pub open spec fn depths_of(rs: Seq<CgReadingV>) -> Seq<nat> {
    rs.map_values(|r: CgReadingV| r.depth)
}

proof fn lemma_parent_at(depths: Seq<nat>, i: int, j: int)
    requires
        0 <= j <= i < depths.len(),
    ensures
        parent_at(depths, i, j) matches Some(p) ==> 0 <= p < j,
    decreases j,
{
    if j > 0 && !(depths[j - 1] < depths[i]) {
        lemma_parent_at(depths, i, j - 1);
    }
}

/// The nesting of a cohort's readings: each reading is directly under the
/// last reading before it that is less deep.
pub fn build_reading_hierarchy(readings: &Vec<CgReading>) -> (h: Vec<ReadingNode>)
    ensures
        h@.len() == readings@.len(),
        forall|i: int|
            0 <= i < h@.len() ==> (#[trigger] h@[i]).reading_index == i && h@[i].depth
                == readings@[i].depth && h@[i].subreadings@ == children(
                depths_of(crate::cg3::readings_view(readings@)),
                i,
                readings@.len() as int,
            ),
{
    let ghost d = depths_of(crate::cg3::readings_view(readings@));
    let n = readings.len();
    let mut h: Vec<ReadingNode> = Vec::new();
    let mut i: usize = 0;
    while i < n
        invariant
            i <= n == readings@.len(),
            h@.len() == i,
            forall|q: int| 0 <= q < i ==> (#[trigger] h@[q]).reading_index == q && h@[q].depth == readings@[q].depth
                && h@[q].subreadings@.len() == 0,
        decreases n - i,
    {
        h.push(ReadingNode { reading_index: i, depth: readings[i].depth, subreadings: Vec::new() });
        i = i + 1;
    }
    let mut c: usize = 0;
    while c < n
        invariant
            c <= n == readings@.len(),
            h@.len() == n,
            d == depths_of(crate::cg3::readings_view(readings@)),
            forall|q: int| 0 <= q < n ==> (#[trigger] h@[q]).reading_index == q && h@[q].depth == readings@[q].depth
                && h@[q].subreadings@ == children(d, q, c as int),
        decreases n - c,
    {
        assert(d[c as int] == readings@[c as int].depth);
        let mut j = c;
        while j > 0 && readings[j - 1].depth >= readings[c].depth
            invariant
                j <= c < n == readings@.len(),
                d == depths_of(crate::cg3::readings_view(readings@)),
                parent(d, c as int) == parent_at(d, c as int, j as int),
            decreases j,
        {
            assert(d[j - 1] == readings@[j - 1].depth);
            j = j - 1;
        }
        proof {
            if j > 0 {
                assert(d[j - 1] == readings@[j - 1].depth);
            }
            lemma_parent_at(d, c as int, c as int);
        }
        if j > 0 {
            let p = j - 1;
            let node = &mut h[p];
            node.subreadings.push(c);
        }
        proof {
            assert forall|q: int| 0 <= q < n implies (#[trigger] h@[q]).reading_index == q && h@[q].depth
                == readings@[q].depth && h@[q].subreadings@ == children(d, q, c + 1) by {
                if j > 0 && q == j - 1 {
                    assert(h@[q].subreadings@ =~= children(d, q, c as int).push(c));
                } else {
                    assert(children(d, q, c + 1) =~= children(d, q, c as int));
                }
            }
        }
        c = c + 1;
    }
    h
}

/// A reading's phonological form with the prefix of its parts before it.
pub fn combine_prefix_with_main(prefix: &str, reading: NormalizedReading) -> (r: NormalizedReading)
    ensures
        r.phonological_form@ == prefix@ + reading.phonological_form@,
        r.base_form@ == reading.base_form@,
        strings_view(r.tags@) == strings_view(reading.tags@),
        r.old_lemma@ == reading.old_lemma@,
        r.depth == reading.depth,
{
    let mut combined = prefix.to_string();
    push_str(&mut combined, reading.phonological_form.as_str());
    NormalizedReading { phonological_form: combined, ..reading }
}


// ---------------------------------------------------------------------------
// Regenerating and reanalysing a normalised form.

/// A normalised reading, as values.
pub struct NormalizedV {
    pub base_form: Seq<char>,
    pub tags: Seq<Seq<char>>,
    pub phon: Seq<char>,
    pub old_lemma: Seq<char>,
    pub depth: nat,
}

pub open spec fn nview(r: NormalizedReading) -> NormalizedV {
    NormalizedV {
        base_form: r.base_form@,
        tags: strings_view(r.tags@),
        phon: r.phonological_form@,
        old_lemma: r.old_lemma@,
        depth: r.depth as nat,
    }
}

/// `s` with each `+` a space.
pub open spec fn spaced(s: Seq<char>) -> Seq<char> {
    replaced(s, "+"@, " "@)
}

/// The reading for normalised form `nf` with the `+`-joined tags `rt`,
/// pronounced `phon`, of reading `r`.
pub open spec fn normalized_of(nf: Seq<char>, rt: Seq<char>, phon: Seq<char>, r: CgReadingV) -> NormalizedV {
    NormalizedV {
        base_form: nf,
        tags: words(spaced(rt)),
        phon,
        old_lemma: unquoted(r.base_form),
        depth: r.depth,
    }
}

/// The tags of an analysis: from its first `+` on.
pub open spec fn analysis_tags(a: Seq<char>) -> Seq<char> {
    match first_of(a, '+') {
        Some(p) => a.skip(p),
        None => Seq::empty(),
    }
}

/// An analysis bears out the tags `rt`: it is no compound (`+Cmp`), and its
/// tags with spaces for `+` contain those of `rt`.
pub open spec fn confirms(a: Seq<char>, rt: Seq<char>) -> bool {
    !contains_seq(a, "+Cmp"@) && contains_seq(spaced(analysis_tags(a)), spaced(rt))
}

pub open spec fn any_confirms(analyses: Seq<Seq<char>>, rt: Seq<char>) -> bool {
    exists|i: int| 0 <= i < analyses.len() && confirms(#[trigger] analyses[i], rt)
}

/// The index of the first `c` in `v`.
fn find_char(v: &Vec<char>, c: char) -> (r: Option<usize>)
    ensures
        match first_of(v@, c) {
            Some(i) => r == Some(i as usize),
            None => r is None,
        },
{
    let mut i: usize = 0;
    assert(v@.skip(0) =~= v@);
    while i < v.len()
        invariant
            i <= v@.len(),
            first_of(v@, c) == match first_of(v@.skip(i as int), c) {
                Some(j) => Some(j + i),
                None => None::<int>,
            },
        decreases v@.len() - i,
    {
        if v[i] == c {
            return Some(i);
        }
        assert(v@.skip(i as int).drop_first() =~= v@.skip(i + 1));
        i = i + 1;
    }
    None
}

fn spaced_string(s: &str) -> (r: String)
    ensures
        r@ == spaced(s@),
{
    proof {
        reveal_strlit("+");
    }
    replace_all(s, "+", " ")
}

/// Whether the analysis `a` bears out the tags `rt`.
fn analysis_confirms(a: &str, rt: &str) -> (b: bool)
    ensures
        b == confirms(a@, rt@),
{
    if contains_str(a, "+Cmp") {
        return false;
    }
    let v = chars_of(a);
    proof {
        speech_lemma_first_of(a@);
    }
    let tags = match find_char(&v, '+') {
        Some(p) => string_of(&v, p, v.len()),
        None => String::new(),
    };
    assert(tags@ == analysis_tags(a@));
    let x = spaced_string(tags.as_str());
    let y = spaced_string(rt);
    contains_str(x.as_str(), y.as_str())
}

proof fn speech_lemma_first_of(s: Seq<char>)
    ensures
        first_of(s, '+') matches Some(i) ==> 0 <= i < s.len(),
{
    crate::speech::lemma_first_of_bound(s, '+');
}

/// Whether one of `analyses` bears out the tags `rt`.
fn any_analysis_confirms(analyses: &Vec<String>, rt: &str) -> (b: bool)
    ensures
        b == any_confirms(strings_view(analyses@), rt@),
{
    let ghost av = strings_view(analyses@);
    let mut i: usize = 0;
    while i < analyses.len()
        invariant
            i <= analyses@.len(),
            av == strings_view(analyses@),
            forall|j: int| 0 <= j < i ==> !confirms(#[trigger] av[j], rt@),
        decreases analyses@.len() - i,
    {
        assert(av[i as int] == analyses@[i as int]@);
        if analysis_confirms(analyses[i].as_str(), rt) {
            return true;
        }
        i = i + 1;
    }
    false
}

/// The reading for normalised form `nf` with tags `rt`, pronounced `phon`.
fn make_normalized(nf: &str, rt: &str, phon: &str, reading: &CgReading) -> (n: NormalizedReading)
    ensures
        nview(n) == normalized_of(nf@, rt@, phon@, reading@),
{
    let sp = spaced_string(rt);
    NormalizedReading {
        base_form: nf.to_string(),
        tags: split_words(sp.as_str()),
        phonological_form: phon.to_string(),
        old_lemma: trim_quotes(reading.base_form.as_str()),
        depth: reading.depth,
    }
}

/// Reanalyses each regenerated form `phons` in turn; the first whose
/// analyses bear out the tags `rt` gives the reading.
pub open spec fn reanalyse_each(
    tbl: Seq<crate::lookup::AnswerV>,
    phons: Seq<Seq<char>>,
    nf: Seq<char>,
    rt: Seq<char>,
    r: CgReadingV,
) -> StepV<Option<NormalizedV>>
    decreases phons.len(),
{
    if phons.len() == 0 {
        StepV::Done(None)
    } else {
        match answered(tbl, Transducer::Analyzer, phons[0]) {
            None => StepV::Need(Transducer::Analyzer, phons[0]),
            Some(analyses) => if any_confirms(analyses, rt) {
                StepV::Done(Some(normalized_of(nf, rt, phons[0], r)))
            } else {
                reanalyse_each(tbl, phons.drop_first(), nf, rt, r)
            },
        }
    }
}

/// The reading that the normalised form `nf` with tags `rt` gives: the
/// generator is asked for `nf+rt` and for the reading's own lemma `+rt`; the
/// first of those forms whose analysis bears out `rt` is the pronunciation.
/// When the generator gives nothing, `nf` itself is analysed: it is the
/// pronunciation if an analysis bears out `rt`, or if there is none at all.
pub open spec fn regenerated(
    tbl: Seq<crate::lookup::AnswerV>,
    nf: Seq<char>,
    rt: Seq<char>,
    r: CgReadingV,
) -> StepV<Option<NormalizedV>> {
    let q1 = nf + "+"@ + rt;
    let q2 = unquoted(r.base_form) + "+"@ + rt;
    match answered(tbl, Transducer::Generator, q1) {
        None => StepV::Need(Transducer::Generator, q1),
        Some(g1) => match answered(tbl, Transducer::Generator, q2) {
            None => StepV::Need(Transducer::Generator, q2),
            Some(g2) => if g1.len() + g2.len() > 0 {
                reanalyse_each(tbl, g1 + g2, nf, rt, r)
            } else {
                match answered(tbl, Transducer::Analyzer, nf) {
                    None => StepV::Need(Transducer::Analyzer, nf),
                    Some(analyses) => if analyses.len() == 0 || any_confirms(analyses, rt) {
                        StepV::Done(Some(normalized_of(nf, rt, nf, r)))
                    } else {
                        StepV::Done(None)
                    },
                }
            },
        },
    }
}

/// Reanalysing `a + b` is reanalysing `a`, then `b` if `a` gave nothing.
proof fn lemma_reanalyse_concat(
    tbl: Seq<crate::lookup::AnswerV>,
    a: Seq<Seq<char>>,
    b: Seq<Seq<char>>,
    nf: Seq<char>,
    rt: Seq<char>,
    r: CgReadingV,
)
    ensures
        reanalyse_each(tbl, a + b, nf, rt, r) == match reanalyse_each(tbl, a, nf, rt, r) {
            StepV::Done(None) => reanalyse_each(tbl, b, nf, rt, r),
            other => other,
        },
    decreases a.len(),
{
    if a.len() == 0 {
        assert(a + b =~= b);
    } else {
        assert((a + b).drop_first() =~= a.drop_first() + b);
        assert((a + b)[0] == a[0]);
        lemma_reanalyse_concat(tbl, a.drop_first(), b, nf, rt, r);
    }
}

/// `s` is the outcome `v` of normalising a reading.
pub open spec fn reading_step(s: Step<Option<NormalizedReading>>, v: StepV<Option<NormalizedV>>) -> bool {
    match v {
        StepV::Need(_, _) => needs(s, v),
        StepV::Done(None) => s matches Step::Done(None),
        StepV::Done(Some(n)) => s matches Step::Done(Some(x)) && nview(x) == n,
    }
}

/// Reanalyses each of `phons` in turn.
fn reanalyse_list(
    answers: &Vec<Answer>,
    phons: &Vec<String>,
    nf: &str,
    rt: &str,
    reading: &CgReading,
) -> (s: Step<Option<NormalizedReading>>)
    ensures
        reading_step(s, reanalyse_each(answers_view(answers@), strings_view(phons@), nf@, rt@, reading@)),
{
    let ghost tbl = answers_view(answers@);
    let ghost pv = strings_view(phons@);
    let mut k: usize = 0;
    assert(pv.skip(0) =~= pv);
    while k < phons.len()
        invariant
            k <= phons@.len(),
            pv == strings_view(phons@),
            tbl == answers_view(answers@),
            reanalyse_each(tbl, pv, nf@, rt@, reading@) == reanalyse_each(tbl, pv.skip(k as int), nf@, rt@, reading@),
        decreases phons@.len() - k,
    {
        let phon = &phons[k];
        assert(pv.skip(k as int)[0] == phon@);
        match lookup(answers, Transducer::Analyzer, phon.as_str()) {
            None => return Step::Need(query(Transducer::Analyzer, phon.as_str())),
            Some(analyses) => {
                if any_analysis_confirms(analyses, rt) {
                    return Step::Done(Some(make_normalized(nf, rt, phon.as_str(), reading)));
                }
            },
        }
        assert(pv.skip(k as int).drop_first() =~= pv.skip(k + 1));
        k = k + 1;
    }
    assert(pv.skip(k as int) =~= Seq::<Seq<char>>::empty());
    Step::Done(None)
}

/// Regenerates the normalised form `normalized_form` with the tags
/// `regentags` of `reading`, and reanalyses what comes out.
pub fn try_regenerate_and_reanalyze(
    answers: &Vec<Answer>,
    normalized_form: &str,
    regentags: &str,
    reading: &CgReading,
) -> (s: Step<Option<NormalizedReading>>)
    ensures
        reading_step(s, regenerated(answers_view(answers@), normalized_form@, regentags@, reading@)),
{
    let ghost tbl = answers_view(answers@);
    let mut q1 = normalized_form.to_string();
    push_str(&mut q1, "+");
    push_str(&mut q1, regentags);
    let lemma = trim_quotes(reading.base_form.as_str());
    let mut q2 = lemma.clone();
    push_str(&mut q2, "+");
    push_str(&mut q2, regentags);
    proof {
        reveal_strlit("+");
    }
    let g1 = match lookup(answers, Transducer::Generator, q1.as_str()) {
        None => return Step::Need(query(Transducer::Generator, q1.as_str())),
        Some(g) => g,
    };
    let g2 = match lookup(answers, Transducer::Generator, q2.as_str()) {
        None => return Step::Need(query(Transducer::Generator, q2.as_str())),
        Some(g) => g,
    };
    if g1.len() > 0 || g2.len() > 0 {
        proof {
            lemma_reanalyse_concat(tbl, strings_view(g1@), strings_view(g2@), normalized_form@, regentags@, reading@);
        }
        let first = reanalyse_list(answers, g1, normalized_form, regentags, reading);
        return match first {
            Step::Done(None) => reanalyse_list(answers, g2, normalized_form, regentags, reading),
            other => other,
        };
    }
    match lookup(answers, Transducer::Analyzer, normalized_form) {
        None => Step::Need(query(Transducer::Analyzer, normalized_form)),
        Some(analyses) => {
            if analyses.len() == 0 || any_analysis_confirms(analyses, regentags) {
                Step::Done(Some(make_normalized(normalized_form, regentags, normalized_form, reading)))
            } else {
                Step::Done(None)
            }
        },
    }
}

/// Each normalised form in turn: the first that regenerates gives the
/// reading; when none does, the last form of all, `last`, is taken as it is.
pub open spec fn expand_each(
    tbl: Seq<crate::lookup::AnswerV>,
    forms: Seq<Seq<char>>,
    last: Seq<char>,
    rt: Seq<char>,
    r: CgReadingV,
) -> StepV<Option<NormalizedV>>
    decreases forms.len(),
{
    if forms.len() == 0 {
        StepV::Done(Some(normalized_of(last, rt, last, r)))
    } else {
        match regenerated(tbl, forms[0], rt, r) {
            StepV::Done(None) => expand_each(tbl, forms.drop_first(), last, rt, r),
            other => other,
        }
    }
}

/// The reading that normaliser `k` makes of `r`, read as `surface`: the
/// normaliser is asked for `surface`, or, when that gives nothing, for
/// `surface.`; each form it gives is regenerated with the reading's tags.
pub open spec fn expansion(
    tbl: Seq<crate::lookup::AnswerV>,
    k: usize,
    surface: Seq<char>,
    r: CgReadingV,
    names: Seq<Seq<char>>,
) -> StepV<Option<NormalizedV>> {
    let rt = regentags(r.tags, names);
    match answered(tbl, Transducer::Tagged(k), surface) {
        None => StepV::Need(Transducer::Tagged(k), surface),
        Some(forms) => if forms.len() > 0 {
            expand_each(tbl, forms, forms.last(), rt, r)
        } else {
            let dotted = surface + "."@;
            match answered(tbl, Transducer::Tagged(k), dotted) {
                None => StepV::Need(Transducer::Tagged(k), dotted),
                Some(forms2) => if forms2.len() > 0 {
                    expand_each(tbl, forms2, forms2.last(), rt, r)
                } else {
                    StepV::Done(None)
                },
            }
        },
    }
}

/// Regenerates each of the normalised `forms` in turn.
fn expand_list(answers: &Vec<Answer>, forms: &Vec<String>, rt: &str, reading: &CgReading) -> (s: Step<
    Option<NormalizedReading>,
>)
    requires
        forms@.len() > 0,
    ensures
        reading_step(
            s,
            expand_each(answers_view(answers@), strings_view(forms@), strings_view(forms@).last(), rt@, reading@),
        ),
{
    let ghost tbl = answers_view(answers@);
    let ghost fv = strings_view(forms@);
    let mut k: usize = 0;
    assert(fv.skip(0) =~= fv);
    while k < forms.len()
        invariant
            k <= forms@.len(),
            forms@.len() > 0,
            fv == strings_view(forms@),
            tbl == answers_view(answers@),
            expand_each(tbl, fv, fv.last(), rt@, reading@) == expand_each(tbl, fv.skip(k as int), fv.last(), rt@, reading@),
        decreases forms@.len() - k,
    {
        assert(fv.skip(k as int)[0] == forms@[k as int]@);
        let r = try_regenerate_and_reanalyze(answers, forms[k].as_str(), rt, reading);
        match r {
            Step::Done(None) => {},
            other => return other,
        }
        assert(fv.skip(k as int).drop_first() =~= fv.skip(k + 1));
        k = k + 1;
    }
    assert(fv.skip(k as int) =~= Seq::<Seq<char>>::empty());
    let last = forms.len() - 1;
    assert(fv.last() == forms@[last as int]@);
    Step::Done(Some(make_normalized(forms[last].as_str(), rt, forms[last].as_str(), reading)))
}

/// Normalises `reading`, read as `surface_form`, with the normaliser of the
/// `k`-th tag.
pub fn process_expansion(
    answers: &Vec<Answer>,
    k: usize,
    surface_form: &str,
    reading: &CgReading,
    normalizer_tags: &Vec<String>,
) -> (s: Step<Option<NormalizedReading>>)
    ensures
        reading_step(
            s,
            expansion(answers_view(answers@), k, surface_form@, reading@, strings_view(normalizer_tags@)),
        ),
{
    let forms = match lookup(answers, Transducer::Tagged(k), surface_form) {
        None => return Step::Need(query(Transducer::Tagged(k), surface_form)),
        Some(f) => f,
    };
    let rt = extract_regentags(reading, normalizer_tags);
    if forms.len() > 0 {
        return expand_list(answers, forms, rt.as_str(), reading);
    }
    let mut dotted = surface_form.to_string();
    push_str(&mut dotted, ".");
    proof {
        reveal_strlit(".");
    }
    let forms2 = match lookup(answers, Transducer::Tagged(k), dotted.as_str()) {
        None => return Step::Need(query(Transducer::Tagged(k), dotted.as_str())),
        Some(f) => f,
    };
    if forms2.len() > 0 {
        expand_list(answers, forms2, rt.as_str(), reading)
    } else {
        Step::Done(None)
    }
}

// ---------------------------------------------------------------------------
// A cohort: each head reading with the prefix its parts make.

/// `s` is the text outcome `v`.
pub open spec fn string_step(s: Step<String>, v: StepV<Seq<char>>) -> bool {
    match v {
        StepV::Need(_, _) => needs(s, v),
        StepV::Done(x) => s matches Step::Done(y) && y@ == x,
    }
}

/// The form a reading contributes to the prefix of the reading it is part
/// of: what its normaliser makes of it, else its surface form.
pub open spec fn own_form(tbl: Seq<crate::lookup::AnswerV>, c: CgCohortV, names: Seq<Seq<char>>, i: int) -> StepV<
    Seq<char>,
> {
    let r = c.readings[i];
    let surf = surface_form(c, r);
    match first_normalizer(r.tags, names) {
        Some(k) => match expansion(tbl, k as usize, surf, r, names) {
            StepV::Need(t, q) => StepV::Need(t, q),
            StepV::Done(Some(x)) => StepV::Done(x.phon),
            StepV::Done(None) => StepV::Done(surf),
        },
        None => StepV::Done(surf),
    }
}

/// The prefix a part reading `i` makes: those of its own parts, in order,
/// then its own form.
pub open spec fn sub_prefix(tbl: Seq<crate::lookup::AnswerV>, c: CgCohortV, names: Seq<Seq<char>>, i: int) -> StepV<
    Seq<char>,
>
    decreases c.readings.len() - i, 1int, 0int,
{
    match kids_prefix(tbl, c, names, i, children(depths_of(c.readings), i, c.readings.len() as int)) {
        StepV::Need(t, q) => StepV::Need(t, q),
        StepV::Done(pre) => match own_form(tbl, c, names, i) {
            StepV::Need(t, q) => StepV::Need(t, q),
            StepV::Done(f) => StepV::Done(pre + f),
        },
    }
}

/// The prefixes of the parts `kids` of reading `p`, one after the other.
pub open spec fn kids_prefix(
    tbl: Seq<crate::lookup::AnswerV>,
    c: CgCohortV,
    names: Seq<Seq<char>>,
    p: int,
    kids: Seq<usize>,
) -> StepV<Seq<char>>
    decreases c.readings.len() - p, 0int, kids.len(),
{
    if kids.len() == 0 {
        StepV::Done(Seq::empty())
    } else if p < kids[0] < c.readings.len() {
        match sub_prefix(tbl, c, names, kids[0] as int) {
            StepV::Need(t, q) => StepV::Need(t, q),
            StepV::Done(a) => match kids_prefix(tbl, c, names, p, kids.drop_first()) {
                StepV::Need(t, q) => StepV::Need(t, q),
                StepV::Done(b) => StepV::Done(a + b),
            },
        }
    } else {
        StepV::Done(Seq::empty())
    }
}

/// `h` is the nesting of the readings `rs`.
pub open spec fn hierarchy_of(h: Seq<ReadingNode>, rs: Seq<CgReadingV>) -> bool {
    &&& h.len() == rs.len()
    &&& forall|i: int|
        0 <= i < h.len() ==> (#[trigger] h[i]).reading_index == i && h[i].depth == rs[i].depth
            && h[i].subreadings@ == children(depths_of(rs), i, rs.len() as int)
}

/// The surface form of each reading that may be normalised can be cut out:
/// each part of another reading, and each reading with a normaliser's tag.
pub open spec fn cohort_ok(c: CgCohortV, names: Seq<Seq<char>>) -> bool {
    forall|i: int|
        0 <= i < c.readings.len() && (parent(depths_of(c.readings), i) is Some || first_normalizer(
            c.readings[i].tags,
            names,
        ) is Some) ==> surface_ok(c, #[trigger] c.readings[i])
}

/// The parts of a reading come after it.
proof fn lemma_children_range(d: Seq<nat>, p: int, m: int)
    requires
        0 <= m <= d.len(),
        d.len() <= usize::MAX,
    ensures
        forall|j: int| 0 <= j < children(d, p, m).len() ==> p < #[trigger] children(d, p, m)[j] < m,
        forall|j: int|
            0 <= j < children(d, p, m).len() ==> parent(d, #[trigger] children(d, p, m)[j] as int)
                == Some(p),
    decreases m,
{
    if m > 0 {
        lemma_children_range(d, p, m - 1);
        lemma_parent_at(d, m - 1, m - 1);
        let a = children(d, p, m - 1);
        if parent(d, m - 1) == Some(p) {
            assert(children(d, p, m) =~= a.push((m - 1) as usize));
        } else {
            assert(children(d, p, m) =~= a);
        }
    }
}

fn string_need(s: Step<Option<NormalizedReading>>) -> (r: Step<String>)
    requires
        s is Need,
    ensures
        s matches Step::Need(q) && r matches Step::Need(q2) && q2.transducer == q.transducer && q2.input@
            == q.input@,
{
    match s {
        Step::Need(q) => Step::Need(q),
        Step::Done(_) => Step::Done(String::new()),
    }
}

/// The form part reading `idx` contributes to the prefix of its head.
fn own_form_of(
    answers: &Vec<Answer>,
    cohort: &CgCohort,
    idx: usize,
    normalizer_tags: &Vec<String>,
) -> (s: Step<String>)
    requires
        idx < cohort.readings@.len(),
        surface_ok(cohort@, cohort@.readings[idx as int]),
    ensures
        string_step(s, own_form(answers_view(answers@), cohort@, strings_view(normalizer_tags@), idx as int)),
{
    let reading = &cohort.readings[idx];
    assert(cohort@.readings[idx as int] == reading@);
    let surf = extract_surface_form(cohort, reading);
    match needs_expansion(reading, normalizer_tags) {
        Some(k) => {
            let r = process_expansion(answers, k, surf.as_str(), reading, normalizer_tags);
            match r {
                Step::Done(Some(x)) => Step::Done(x.phonological_form),
                Step::Done(None) => Step::Done(surf),
                other => string_need(other),
            }
        },
        None => Step::Done(surf),
    }
}

/// The prefix the part reading `idx` makes: those of its own parts, then
/// its own form.
pub fn process_subreading_for_prefix(
    answers: &Vec<Answer>,
    cohort: &CgCohort,
    hierarchy: &Vec<ReadingNode>,
    idx: usize,
    normalizer_tags: &Vec<String>,
) -> (s: Step<String>)
    requires
        idx < cohort.readings@.len(),
        parent(depths_of(cohort@.readings), idx as int) is Some,
        hierarchy_of(hierarchy@, cohort@.readings),
        cohort_ok(cohort@, strings_view(normalizer_tags@)),
    ensures
        string_step(s, sub_prefix(answers_view(answers@), cohort@, strings_view(normalizer_tags@), idx as int)),
    decreases cohort.readings@.len() - idx, 1int,
{
    let pre = prefix_of_parts(answers, cohort, hierarchy, idx, normalizer_tags);
    match pre {
        Step::Need(q) => Step::Need(q),
        Step::Done(mut prefix) => {
            assert(surface_ok(cohort@, cohort@.readings[idx as int]));
            match own_form_of(answers, cohort, idx, normalizer_tags) {
                Step::Need(q) => Step::Need(q),
                Step::Done(f) => {
                    push_str(&mut prefix, f.as_str());
                    Step::Done(prefix)
                },
            }
        },
    }
}

/// The prefixes of the parts of reading `idx`, one after the other.
fn prefix_of_parts(
    answers: &Vec<Answer>,
    cohort: &CgCohort,
    hierarchy: &Vec<ReadingNode>,
    idx: usize,
    normalizer_tags: &Vec<String>,
) -> (s: Step<String>)
    requires
        idx < cohort.readings@.len(),
        hierarchy_of(hierarchy@, cohort@.readings),
        cohort_ok(cohort@, strings_view(normalizer_tags@)),
    ensures
        string_step(
            s,
            kids_prefix(
                answers_view(answers@),
                cohort@,
                strings_view(normalizer_tags@),
                idx as int,
                children(depths_of(cohort@.readings), idx as int, cohort@.readings.len() as int),
            ),
        ),
    decreases cohort.readings@.len() - idx, 0int,
{
    let ghost tbl = answers_view(answers@);
    let ghost names = strings_view(normalizer_tags@);
    let ghost d = depths_of(cohort@.readings);
    let ghost n = cohort@.readings.len() as int;
    let kids = &hierarchy[idx].subreadings;
    let ghost ks = children(d, idx as int, n);
    assert(kids@ == ks);
    let nr = cohort.readings.len();
    assert(d.len() == nr);
    proof {
        lemma_children_range(d, idx as int, n);
    }
    let mut prefix = String::new();
    let mut j: usize = 0;
    assert(ks.skip(0) =~= ks);
    while j < kids.len()
        invariant
            j <= kids@.len(),
            kids@ == ks,
            ks == children(d, idx as int, n),
            idx < n == cohort@.readings.len(),
            hierarchy_of(hierarchy@, cohort@.readings),
            cohort_ok(cohort@, names),
            tbl == answers_view(answers@),
            names == strings_view(normalizer_tags@),
            d == depths_of(cohort@.readings),
            forall|t: int| 0 <= t < ks.len() ==> idx < #[trigger] ks[t] < n,
            forall|t: int| 0 <= t < ks.len() ==> parent(d, #[trigger] ks[t] as int) == Some(idx as int),
            kids_prefix(tbl, cohort@, names, idx as int, ks) == match kids_prefix(
                tbl,
                cohort@,
                names,
                idx as int,
                ks.skip(j as int),
            ) {
                StepV::Need(t, q) => StepV::Need(t, q),
                StepV::Done(b) => StepV::Done(prefix@ + b),
            },
        decreases kids@.len() - j,
    {
        let kid = kids[j];
        assert(ks.skip(j as int)[0] == kid);
        assert(idx < ks[j as int] < n);
        assert(parent(d, ks[j as int] as int) == Some(idx as int));
        assert(ks.skip(j as int).drop_first() =~= ks.skip(j + 1));
        let sub = process_subreading_for_prefix(answers, cohort, hierarchy, kid, normalizer_tags);
        let ghost rest = ks.skip(j as int);
        assert(rest.len() > 0 && idx < rest[0] < n);
        assert(kids_prefix(tbl, cohort@, names, idx as int, rest) == match sub_prefix(tbl, cohort@, names, kid as int) {
            StepV::Need(t, q) => StepV::Need(t, q),
            StepV::Done(a) => match kids_prefix(tbl, cohort@, names, idx as int, rest.drop_first()) {
                StepV::Need(t, q) => StepV::Need(t, q),
                StepV::Done(b) => StepV::Done(a + b),
            },
        });
        let ghost v = sub_prefix(tbl, cohort@, names, kid as int);
        match sub {
            Step::Need(q) => {
                assert(v matches StepV::Need(t, i) && q.transducer == t && q.input@ == i);
                assert(kids_prefix(tbl, cohort@, names, idx as int, ks) == v);
                return Step::Need(q);
            },
            Step::Done(a) => {
                let ghost p0 = prefix@;
                push_str(&mut prefix, a.as_str());
                proof {
                    match kids_prefix(tbl, cohort@, names, idx as int, ks.skip(j + 1)) {
                        StepV::Need(t, q) => {},
                        StepV::Done(b) => {
                            assert(p0 + (a@ + b) =~= prefix@ + b);
                        },
                    }
                }
            },
        }
        j = j + 1;
    }
    assert(ks.skip(j as int) =~= Seq::<usize>::empty());
    assert(prefix@ + Seq::<char>::empty() =~= prefix@);
    Step::Done(prefix)
}

/// A part reading as it is listed under its head: its lemma without quotes
/// for base form, pronunciation and old lemma, and its regeneration tags.
pub open spec fn sub_normalized(sr: CgReadingV, names: Seq<Seq<char>>) -> NormalizedV {
    let b = unquoted(sr.base_form);
    NormalizedV {
        base_form: b,
        tags: words(spaced(regentags(sr.tags, names))),
        phon: b,
        old_lemma: b,
        depth: sr.depth,
    }
}

pub open spec fn with_phon(v: NormalizedV, phon: Seq<char>) -> NormalizedV {
    NormalizedV { phon, ..v }
}

/// The head reading `m` first, then its parts `subs`; with a prefix from
/// the parts, the head is pronounced prefix first, and so are the parts.
pub open spec fn head_with_parts(pre: Seq<char>, m: NormalizedV, subs: Seq<NormalizedV>) -> Seq<NormalizedV> {
    if pre.len() > 0 {
        let p = pre + m.phon;
        seq![with_phon(m, p)] + subs.map_values(|v: NormalizedV| with_phon(v, p))
    } else {
        seq![m] + subs
    }
}

/// What head reading `i` normalises to: through its normaliser if it has a
/// normaliser's tag, else, when it has parts, by regenerating its lemma.
pub open spec fn head_outcome(tbl: Seq<crate::lookup::AnswerV>, c: CgCohortV, names: Seq<Seq<char>>, i: int) -> StepV<
    Option<NormalizedV>,
> {
    let r = c.readings[i];
    match first_normalizer(r.tags, names) {
        Some(k) => expansion(tbl, k as usize, surface_form(c, r), r, names),
        None => if children(depths_of(c.readings), i, c.readings.len() as int).len() > 0 {
            regenerated(tbl, unquoted(r.base_form), regentags(r.tags, names), r)
        } else {
            StepV::Done(None)
        },
    }
}

/// The readings that head reading `i` and its parts normalise to.
pub open spec fn node_result(tbl: Seq<crate::lookup::AnswerV>, c: CgCohortV, names: Seq<Seq<char>>, i: int) -> StepV<
    Option<Seq<NormalizedV>>,
> {
    let kids = children(depths_of(c.readings), i, c.readings.len() as int);
    match kids_prefix(tbl, c, names, i, kids) {
        StepV::Need(t, q) => StepV::Need(t, q),
        StepV::Done(pre) => match head_outcome(tbl, c, names, i) {
            StepV::Need(t, q) => StepV::Need(t, q),
            StepV::Done(None) => StepV::Done(None),
            StepV::Done(Some(m)) => StepV::Done(
                Some(
                    head_with_parts(
                        pre,
                        m,
                        kids.map_values(|k: usize| sub_normalized(c.readings[k as int], names)),
                    ),
                ),
            ),
        },
    }
}

/// `s` is the outcome `v` of normalising a head reading and its parts.
pub open spec fn cohort_step(s: Step<Option<NormalizedCohort>>, v: StepV<Option<Seq<NormalizedV>>>) -> bool {
    match v {
        StepV::Need(_, _) => needs(s, v),
        StepV::Done(None) => s matches Step::Done(None),
        StepV::Done(Some(x)) => s matches Step::Done(Some(nc)) && nc.readings@.map_values(
            |r: NormalizedReading| nview(r),
        ) == x,
    }
}

fn sub_normalized_of(reading: &CgReading, normalizer_tags: &Vec<String>) -> (n: NormalizedReading)
    ensures
        nview(n) == sub_normalized(reading@, strings_view(normalizer_tags@)),
{
    let b = trim_quotes(reading.base_form.as_str());
    let rt = extract_regentags(reading, normalizer_tags);
    let sp = spaced_string(rt.as_str());
    NormalizedReading {
        base_form: b.clone(),
        tags: split_words(sp.as_str()),
        phonological_form: b.clone(),
        old_lemma: b,
        depth: reading.depth,
    }
}

fn cohort_need(s: Step<Option<NormalizedReading>>) -> (r: Step<Option<NormalizedCohort>>)
    requires
        s is Need,
    ensures
        s matches Step::Need(q) && r matches Step::Need(q2) && q2.transducer == q.transducer && q2.input@
            == q.input@,
{
    match s {
        Step::Need(q) => Step::Need(q),
        Step::Done(_) => Step::Done(None),
    }
}

/// Normalises head reading `idx` of the cohort together with its parts.
pub fn process_reading_node(
    answers: &Vec<Answer>,
    cohort: &CgCohort,
    hierarchy: &Vec<ReadingNode>,
    idx: usize,
    normalizer_tags: &Vec<String>,
) -> (s: Step<Option<NormalizedCohort>>)
    requires
        idx < cohort.readings@.len(),
        hierarchy_of(hierarchy@, cohort@.readings),
        cohort_ok(cohort@, strings_view(normalizer_tags@)),
    ensures
        cohort_step(s, node_result(answers_view(answers@), cohort@, strings_view(normalizer_tags@), idx as int)),
{
    let ghost tbl = answers_view(answers@);
    let ghost names = strings_view(normalizer_tags@);
    let ghost d = depths_of(cohort@.readings);
    let ghost n = cohort@.readings.len() as int;
    let nr = cohort.readings.len();
    assert(d.len() == nr);
    proof {
        lemma_children_range(d, idx as int, n);
    }
    let prefix = match prefix_of_parts(answers, cohort, hierarchy, idx, normalizer_tags) {
        Step::Need(q) => return Step::Need(q),
        Step::Done(p) => p,
    };
    let kids = &hierarchy[idx].subreadings;
    let ghost ks = children(d, idx as int, n);
    assert(kids@ == ks);
    let ghost sv = ks.map_values(|k: usize| sub_normalized(cohort@.readings[k as int], names));
    let mut subs: Vec<NormalizedReading> = Vec::new();
    let mut j: usize = 0;
    while j < kids.len()
        invariant
            j <= kids@.len(),
            kids@ == ks,
            n == cohort@.readings.len(),
            names == strings_view(normalizer_tags@),
            sv == ks.map_values(|k: usize| sub_normalized(cohort@.readings[k as int], names)),
            forall|t: int| 0 <= t < ks.len() ==> idx < #[trigger] ks[t] < n,
            subs@.map_values(|r: NormalizedReading| nview(r)) == sv.take(j as int),
        decreases kids@.len() - j,
    {
        let kid = kids[j];
        assert(idx < ks[j as int] < n);
        assert(cohort@.readings[kid as int] == cohort.readings@[kid as int]@);
        let x = sub_normalized_of(&cohort.readings[kid], normalizer_tags);
        let ghost s0 = subs@;
        subs.push(x);
        assert(subs@.map_values(|r: NormalizedReading| nview(r)) =~= s0.map_values(
            |r: NormalizedReading| nview(r),
        ).push(sv[j as int]));
        assert(sv.take(j + 1) =~= sv.take(j as int).push(sv[j as int]));
        j = j + 1;
    }
    assert(sv.take(j as int) =~= sv);
    let reading = &cohort.readings[idx];
    assert(cohort@.readings[idx as int] == reading@);
    let res = match needs_expansion(reading, normalizer_tags) {
        Some(k) => {
            let surf = extract_surface_form(cohort, reading);
            process_expansion(answers, k, surf.as_str(), reading, normalizer_tags)
        },
        None => {
            if kids.len() > 0 {
                let lemma = trim_quotes(reading.base_form.as_str());
                let rt = extract_regentags(reading, normalizer_tags);
                try_regenerate_and_reanalyze(answers, lemma.as_str(), rt.as_str(), reading)
            } else {
                Step::Done(None)
            }
        },
    };
    assert(reading_step(res, head_outcome(tbl, cohort@, names, idx as int)));
    match res {
        Step::Done(None) => Step::Done(None),
        Step::Done(Some(main)) => {
            let ghost m = nview(main);
            if prefix.as_str().unicode_len() > 0 {
                let main = combine_prefix_with_main(prefix.as_str(), main);
                let ghost p = prefix@ + m.phon;
                assert(nview(main) == with_phon(m, p));
                let mut k: usize = 0;
                let ghost subs0 = subs@;
                while k < subs.len()
                    invariant
                        k <= subs@.len() == subs0.len(),
                        main.phonological_form@ == p,
                        forall|t: int| 0 <= t < k ==> nview(#[trigger] subs@[t]) == with_phon(nview(subs0[t]), p),
                        forall|t: int| k <= t < subs@.len() ==> #[trigger] subs@[t] == subs0[t],
                    decreases subs@.len() - k,
                {
                    let ph = main.phonological_form.clone();
                        let old = &subs[k];
                    let upd = NormalizedReading {
                        base_form: old.base_form.clone(),
                        tags: copy_strings(&old.tags),
                        phonological_form: ph,
                        old_lemma: old.old_lemma.clone(),
                        depth: old.depth,
                    };
                    subs.set(k, upd);
                    k = k + 1;
                }
                let mut all: Vec<NormalizedReading> = Vec::new();
                all.push(main);
                all.append(&mut subs);
                assert(all@.map_values(|r: NormalizedReading| nview(r)) =~= head_with_parts(prefix@, m, sv));
                Step::Done(Some(NormalizedCohort { readings: all }))
            } else {
                let mut all: Vec<NormalizedReading> = Vec::new();
                all.push(main);
                all.append(&mut subs);
                assert(all@.map_values(|r: NormalizedReading| nview(r)) =~= head_with_parts(prefix@, m, sv));
                Step::Done(Some(NormalizedCohort { readings: all }))
            }
        },
        other => cohort_need(other),
    }
}

fn copy_strings(v: &Vec<String>) -> (r: Vec<String>)
    ensures
        strings_view(r@) == strings_view(v@),
{
    let mut r: Vec<String> = Vec::new();
    let mut i: usize = 0;
    while i < v.len()
        invariant
            i <= v@.len(),
            strings_view(r@) == strings_view(v@).take(i as int),
        decreases v@.len() - i,
    {
        let ghost r0 = r@;
        r.push(v[i].clone());
        assert(strings_view(r@) =~= strings_view(r0).push(v@[i as int]@));
        assert(strings_view(v@).take(i + 1) =~= strings_view(v@).take(i as int).push(v@[i as int]@));
        i = i + 1;
    }
    assert(strings_view(v@).take(i as int) =~= strings_view(v@));
    r
}

/// A normalised reading as a CG-3 reading line.
pub open spec fn nline(v: NormalizedV) -> Seq<char> {
    crate::speech::tabs(v.depth) + seq!['"'] + v.base_form + seq!['"', ' '] + crate::text::join_by(v.tags, ' ')
        + seq![' ', '"'] + v.phon + "\"phon \""@ + v.old_lemma + "\"oldlemma"@
}

/// Normalised readings as CG-3 reading lines, one per line.
pub open spec fn nlines(x: Seq<NormalizedV>) -> Seq<char> {
    crate::text::join_by(x.map_values(|v: NormalizedV| nline(v)), '\n')
}

/// What the cohort normalises to: the readings of the first head reading
/// (of depth 1), from reading `i` on, that normalises.
pub open spec fn roots_from(tbl: Seq<crate::lookup::AnswerV>, c: CgCohortV, names: Seq<Seq<char>>, i: int) -> StepV<
    Option<Seq<char>>,
>
    decreases c.readings.len() - i,
{
    if i < 0 || i >= c.readings.len() {
        StepV::Done(None)
    } else if c.readings[i].depth == 1 {
        match node_result(tbl, c, names, i) {
            StepV::Need(t, q) => StepV::Need(t, q),
            StepV::Done(Some(x)) => StepV::Done(Some(nlines(x))),
            StepV::Done(None) => roots_from(tbl, c, names, i + 1),
        }
    } else {
        roots_from(tbl, c, names, i + 1)
    }
}

/// `s` is the outcome `v` of normalising a cohort.
pub open spec fn text_step(s: Step<Option<String>>, v: StepV<Option<Seq<char>>>) -> bool {
    match v {
        StepV::Need(_, _) => needs(s, v),
        StepV::Done(None) => s matches Step::Done(None),
        StepV::Done(Some(x)) => s matches Step::Done(Some(y)) && y@ == x,
    }
}

/// Normalises the cohort through the first of its head readings that
/// normalises, given its nesting.
pub fn process_reading_hierarchy(
    answers: &Vec<Answer>,
    cohort: &CgCohort,
    hierarchy: &Vec<ReadingNode>,
    normalizer_tags: &Vec<String>,
) -> (s: Step<Option<String>>)
    requires
        hierarchy_of(hierarchy@, cohort@.readings),
        cohort_ok(cohort@, strings_view(normalizer_tags@)),
    ensures
        text_step(s, roots_from(answers_view(answers@), cohort@, strings_view(normalizer_tags@), 0)),
{
    let ghost tbl = answers_view(answers@);
    let ghost names = strings_view(normalizer_tags@);
    let mut i: usize = 0;
    while i < hierarchy.len()
        invariant
            i <= hierarchy@.len() == cohort@.readings.len(),
            hierarchy_of(hierarchy@, cohort@.readings),
            cohort_ok(cohort@, names),
            tbl == answers_view(answers@),
            names == strings_view(normalizer_tags@),
            roots_from(tbl, cohort@, names, 0) == roots_from(tbl, cohort@, names, i as int),
        decreases hierarchy@.len() - i,
    {
        if hierarchy[i].depth == 1 {
            match process_reading_node(answers, cohort, hierarchy, i, normalizer_tags) {
                Step::Need(q) => return Step::Need(q),
                Step::Done(Some(nc)) => {
                    let text = nc.to_cg3_format();
                    proof {
                        assert(nc.readings@.map_values(|r: NormalizedReading| crate::speech::normalized_line(r))
                            =~= nc.readings@.map_values(|r: NormalizedReading| nview(r)).map_values(
                            |v: NormalizedV| nline(v),
                        ));
                    }
                    return Step::Done(Some(text));
                },
                Step::Done(None) => {},
            }
        }
        i = i + 1;
    }
    Step::Done(None)
}

/// Normalises a cohort: through the first of its head readings that
/// normalises, with the prefix its parts make.
pub fn process_cohort(answers: &Vec<Answer>, cohort: &CgCohort, normalizer_tags: &Vec<String>) -> (s: Step<
    Option<String>,
>)
    requires
        cohort_ok(cohort@, strings_view(normalizer_tags@)),
    ensures
        text_step(s, roots_from(answers_view(answers@), cohort@, strings_view(normalizer_tags@), 0)),
{
    let hierarchy = build_reading_hierarchy(&cohort.readings);
    process_reading_hierarchy(answers, cohort, &hierarchy, normalizer_tags)
}

// ---------------------------------------------------------------------------
// A stream.

/// What a block of a stream is written as, `res` being what it normalises
/// to if it is a cohort: the cohort header and the normalised readings, or
/// else the cohort as it was; other blocks as they were. Each is followed by
/// a newline.
pub open spec fn block_out(b: BlockV, res: StepV<Option<Seq<char>>>) -> StepV<Seq<char>> {
    match b {
        BlockV::Cohort(c) => match res {
            StepV::Need(t, q) => StepV::Need(t, q),
            StepV::Done(Some(x)) => StepV::Done(seq!['"', '<'] + c.word_form + seq!['>', '"', '\n'] + x + seq!['\n']),
            StepV::Done(None) => StepV::Done(cohort_stream_text(c) + seq!['\n']),
        },
        BlockV::Escaped(t) => StepV::Done(seq![':'] + t + seq!['\n']),
        BlockV::Text(t) => StepV::Done(t + seq!['\n']),
        BlockV::StreamCmd(t) => StepV::Done(t + seq!['\n']),
    }
}

/// The stream written back block by block, each cohort through `f`; the
/// items that are errors are skipped.
pub open spec fn stream_out(items: Seq<ItemV>, f: spec_fn(CgCohortV) -> StepV<Option<Seq<char>>>) -> StepV<
    Seq<char>,
>
    decreases items.len(),
{
    if items.len() == 0 {
        StepV::Done(Seq::empty())
    } else {
        let head = match items[0] {
            Err(_) => StepV::Done(Seq::empty()),
            Ok(b) => block_out(
                b,
                match b {
                    BlockV::Cohort(c) => f(c),
                    _ => StepV::Done(None),
                },
            ),
        };
        match head {
            StepV::Need(t, q) => StepV::Need(t, q),
            StepV::Done(a) => match stream_out(items.drop_first(), f) {
                StepV::Need(t, q) => StepV::Need(t, q),
                StepV::Done(b) => StepV::Done(a + b),
            },
        }
    }
}

/// Every cohort of the stream is one whose readings can be normalised.
pub open spec fn stream_ok(items: Seq<ItemV>, names: Seq<Seq<char>>) -> bool {
    forall|j: int|
        0 <= j < items.len() ==> (#[trigger] items[j] matches Ok(BlockV::Cohort(c)) ==> cohort_ok(c, names))
}

/// Writes the block `b`, given what it normalises to if it is a cohort.
pub(crate) fn write_block(out: &mut String, b: &Block, res: Option<String>)
    requires
        b is Cohort || res is None,
    ensures
        block_out(
            b@,
            match res {
                Some(x) => StepV::Done(Some(x@)),
                None => StepV::Done(None),
            },
        ) matches StepV::Done(t) && final(out)@ == old(out)@ + t,
{
    match b {
        Block::Cohort(c) => match res {
            Some(x) => {
                push_str(out, "\"<");
                push_str(out, c.word_form.as_str());
                push_str(out, ">\"\n");
                push_str(out, x.as_str());
                push_char(out, '\n');
                proof {
                    reveal_strlit("\"<");
                    reveal_strlit(">\"\n");
                }
            },
            None => {
                let t = c.to_cg_string();
                push_str(out, t.as_str());
                push_char(out, '\n');
            },
        },
        Block::Escaped(t) => {
            push_char(out, ':');
            push_str(out, t.as_str());
            push_char(out, '\n');
        },
        Block::Text(t) => {
            push_str(out, t.as_str());
            push_char(out, '\n');
        },
        Block::StreamCmd(t) => {
            push_str(out, t.as_str());
            push_char(out, '\n');
        },
    }
}

/// Normalises each cohort of the CG-3 stream `text` for speech; the other
/// blocks are written as they were.
pub fn process_cg3(answers: &Vec<Answer>, text: &str, normalizer_tags: &Vec<String>) -> (s: Step<String>)
    requires
        !stream_panics(text@),
        lines_fit(text@),
        stream_ok(blocks(text@), strings_view(normalizer_tags@)),
    ensures
        string_step(
            s,
            stream_out(
                blocks(text@),
                |c: CgCohortV| roots_from(answers_view(answers@), c, strings_view(normalizer_tags@), 0),
            ),
        ),
{
    let ghost f = |c: CgCohortV| roots_from(answers_view(answers@), c, strings_view(normalizer_tags@), 0);
    let ghost names = strings_view(normalizer_tags@);
    let output = Output::new(text);
    let items = output.iter();
    let ghost iv = items_view(items@);
    let mut out = String::new();
    let mut j: usize = 0;
    assert(iv.skip(0) =~= iv);
    while j < items.len()
        invariant
            j <= items@.len(),
            iv == items_view(items@),
            iv == blocks(text@),
            names == strings_view(normalizer_tags@),
            f == |c: CgCohortV| roots_from(answers_view(answers@), c, strings_view(normalizer_tags@), 0),
            stream_ok(iv, names),
            stream_out(iv, f) == match stream_out(iv.skip(j as int), f) {
                StepV::Need(t, q) => StepV::Need(t, q),
                StepV::Done(b) => StepV::Done(out@ + b),
            },
        decreases items@.len() - j,
    {
        let ghost rest = iv.skip(j as int);
        assert(rest[0] == iv[j as int]);
        assert(rest.drop_first() =~= iv.skip(j + 1));
        assert(iv[j as int] == crate::cg3::item_view(items@[j as int]));
        let ghost o0 = out@;
        match &items[j] {
            Err(_) => {
                assert(o0 + Seq::<char>::empty() =~= o0);
            },
            Ok(b) => {
                match b {
                    Block::Cohort(c) => {
                        assert(stream_ok(iv, names) ==> (iv[j as int] matches Ok(BlockV::Cohort(cv)) ==> cohort_ok(cv, names)));
                        match process_cohort(answers, c, normalizer_tags) {
                            Step::Need(q) => return Step::Need(q),
                            Step::Done(res) => {
                                write_block(&mut out, b, res);
                            },
                        }
                    },
                    _ => {
                        write_block(&mut out, b, None);
                    },
                }
                proof {
                    match block_out(b@, match b@ { BlockV::Cohort(c) => f(c), _ => StepV::Done(None) }) {
                        StepV::Done(a) => {
                            match stream_out(iv.skip(j + 1), f) {
                                StepV::Done(x) => {
                                    assert(o0 + (a + x) =~= out@ + x);
                                },
                                _ => {},
                            }
                        },
                        _ => {},
                    }
                }
            },
        }
        j = j + 1;
    }
    assert(iv.skip(j as int) =~= Seq::<ItemV>::empty());
    assert(out@ + Seq::<char>::empty() =~= out@);
    Step::Done(out)
}

/// Whether the surface form of `reading` can be cut out.
fn surface_checks(cohort: &CgCohort, reading: &CgReading) -> (b: bool)
    ensures
        b == surface_ok(cohort@, reading@),
{
    match find_tag(&reading.tags, true) {
        Some(i) => {
            let tc = chars_of(reading.tags[i].as_str());
            return tc.len() >= 6 && (tc[0] as u32) < 0x80;
        },
        None => {},
    }
    match find_tag(&reading.tags, false) {
        Some(_) => true,
        None => {
            let bv = chars_of(reading.base_form.as_str());
            proof {
                reveal_strlit("\"");
            }
            reading.depth > 1 || !(starts_str(&bv, "\"") && ends_str(&bv, "\"")) || bv.len() >= 2
        },
    }
}

/// Whether reading `i` is part of another.
fn has_parent(readings: &Vec<CgReading>, i: usize) -> (b: bool)
    requires
        i < readings@.len(),
    ensures
        b == parent(depths_of(crate::cg3::readings_view(readings@)), i as int) is Some,
{
    let ghost d = depths_of(crate::cg3::readings_view(readings@));
    let mut j = i;
    while j > 0 && readings[j - 1].depth >= readings[i].depth
        invariant
            j <= i < readings@.len(),
            d == depths_of(crate::cg3::readings_view(readings@)),
            parent(d, i as int) == parent_at(d, i as int, j as int),
        decreases j,
    {
        assert(d[j - 1] == readings@[j - 1].depth);
        assert(d[i as int] == readings@[i as int].depth);
        j = j - 1;
    }
    proof {
        if j > 0 {
            assert(d[j - 1] == readings@[j - 1].depth);
            assert(d[i as int] == readings@[i as int].depth);
        }
    }
    j > 0
}

/// Whether the readings of `cohort` that may be normalised have surface
/// forms that can be cut out.
pub fn cohort_normalizable(cohort: &CgCohort, normalizer_tags: &Vec<String>) -> (b: bool)
    ensures
        b == cohort_ok(cohort@, strings_view(normalizer_tags@)),
{
    let ghost names = strings_view(normalizer_tags@);
    let mut i: usize = 0;
    while i < cohort.readings.len()
        invariant
            i <= cohort.readings@.len(),
            names == strings_view(normalizer_tags@),
            forall|t: int|
                0 <= t < i && (parent(depths_of(cohort@.readings), t) is Some || first_normalizer(
                    cohort@.readings[t].tags,
                    names,
                ) is Some) ==> surface_ok(cohort@, #[trigger] cohort@.readings[t]),
        decreases cohort.readings@.len() - i,
    {
        let r = &cohort.readings[i];
        assert(cohort@.readings[i as int] == r@);
        let reached = has_parent(&cohort.readings, i) || needs_expansion(r, normalizer_tags).is_some();
        if reached && !surface_checks(cohort, r) {
            return false;
        }
        i = i + 1;
    }
    true
}

/// Whether every cohort of the stream `text` can be normalised.
pub fn stream_normalizable(text: &str, normalizer_tags: &Vec<String>) -> (b: bool)
    requires
        !stream_panics(text@),
        lines_fit(text@),
    ensures
        b == stream_ok(blocks(text@), strings_view(normalizer_tags@)),
{
    let output = Output::new(text);
    let items = output.iter();
    let ghost iv = items_view(items@);
    let ghost names = strings_view(normalizer_tags@);
    let mut j: usize = 0;
    while j < items.len()
        invariant
            j <= items@.len(),
            iv == items_view(items@),
            iv == blocks(text@),
            names == strings_view(normalizer_tags@),
            forall|t: int| 0 <= t < j ==> (#[trigger] iv[t] matches Ok(BlockV::Cohort(c)) ==> cohort_ok(c, names)),
        decreases items@.len() - j,
    {
        assert(iv[j as int] == crate::cg3::item_view(items@[j as int]));
        match &items[j] {
            Ok(Block::Cohort(c)) => {
                if !cohort_normalizable(c, normalizer_tags) {
                    assert(!(iv[j as int] matches Ok(BlockV::Cohort(cv)) ==> cohort_ok(cv, names)));
                    return false;
                }
            },
            _ => {},
        }
        j = j + 1;
    }
    true
}

} // verus!
