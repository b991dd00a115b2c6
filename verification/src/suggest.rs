//! Grammar-checker error markup: the readings of a CG-3 analysis carry error
//! tags (`&err-x`), co-error tags (`co&err-x`), relations (`R:LEFT:3`,
//! `R:DELETE1:4`) and suggestion flags; from them each error gets its span in
//! the sentence text, its message and its replacements.
use vstd::prelude::*;
use crate::cg3::{
    blocks, items_view, lines_fit, stream_panics, Block, BlockV, Cohort as CgCohort, CohortV as CgCohortV, ItemV, scan,
    Output, Reading as CgReading, ReadingV as CgReadingV,
};
use crate::num::parse_u32;
use crate::speech::{first_of, split_at_char, split_on};
use crate::text::{contains_seq, contains_str};
use crate::hfst::opt_view;
use crate::fluent::{boundary, get_range, lemma_boundary, str_get};
use crate::text::{replace_all, replaced};
use crate::text::{
    char_len_utf8, count_trail_ws, is_whitespace, is_ws, lemma_trail_ws, lemma_utf8_len_concat,
    lemma_utf8_len_prefix, trim_end,
    utf16_len, utf8_len,
};
use crate::unicode::{
    alphabetic, char_to_uppercase, char_uppercased, is_alphabetic, is_lower, is_upper, lower,
    lowercased, to_lowercase, to_uppercase, upper, uppercased,
};
use crate::text::{chars_of, join_by, join_strings, push_char, push_str, str_eq, string_of, strings_view};
use std::collections::HashMap;

verus! {

broadcast use vstd::string::group_string_axioms, vstd::std_specs::hash::group_hash_axioms;

/// Where an added word goes relative to the blank before it.
#[derive(Debug, PartialEq, Eq, Structural, Clone, Copy)]
pub enum AddedStatus {
    NotAdded,
    AddedAfterBlank,
    AddedBeforeBlank,
}

/// Whether `s` starts with `p`.
pub open spec fn starts(s: Seq<char>, p: Seq<char>) -> bool {
    p.len() <= s.len() && s.take(p.len() as int) == p
}

/// Whether `s` ends with `p`.
pub open spec fn ends(s: Seq<char>, p: Seq<char>) -> bool {
    p.len() <= s.len() && s.skip(s.len() - p.len()) == p
}

/// `s` with `x` added unless it holds it already (a set kept in insertion
/// order).
pub open spec fn set_insert(s: Seq<Seq<char>>, x: Seq<char>) -> Seq<Seq<char>> {
    if s.contains(x) {
        s
    } else {
        s.push(x)
    }
}

/// The first index of key `k` in `s`.
pub open spec fn key_index(s: Seq<(Seq<char>, u32)>, k: Seq<char>) -> Option<int>
    decreases s.len(),
{
    if s.len() == 0 {
        None
    } else {
        match key_index(s.drop_last(), k) {
            Some(i) => Some(i),
            None => if s.last().0 == k {
                Some(s.len() - 1)
            } else {
                None
            },
        }
    }
}

/// `s` as a map with `k` set to `v` (a map kept in insertion order).
pub open spec fn rel_insert(s: Seq<(Seq<char>, u32)>, k: Seq<char>, v: u32) -> Seq<(Seq<char>, u32)> {
    match key_index(s, k) {
        Some(i) => s.update(i, (k, v)),
        None => s.push((k, v)),
    }
}

/// The value of key `k` in `s`.
pub open spec fn rel_get(s: Seq<(Seq<char>, u32)>, k: Seq<char>) -> Option<u32> {
    match key_index(s, k) {
        Some(i) => Some(s[i].1),
        None => None,
    }
}

/// CG-3 rule and mapping tags, which the generator never sees.
pub open spec fn is_meta_tag(t: Seq<char>) -> bool {
    ||| starts(t, "#"@)
    ||| starts(t, "@"@)
    ||| starts(t, "Sem/"@)
    ||| starts(t, "§"@)
    ||| starts(t, "<"@)
    ||| starts(t, "ADD:"@)
    ||| starts(t, "PROTECT:"@)
    ||| starts(t, "UNPROTECT:"@)
    ||| starts(t, "MAP:"@)
    ||| starts(t, "REPLACE:"@)
    ||| starts(t, "SELECT:"@)
    ||| starts(t, "REMOVE:"@)
    ||| starts(t, "IFF:"@)
    ||| starts(t, "APPEND:"@)
    ||| starts(t, "SUBSTITUTE:"@)
    ||| starts(t, "REMVARIABLE:"@)
    ||| starts(t, "SETVARIABLE:"@)
    ||| starts(t, "DELIMIT:"@)
    ||| starts(t, "MATCH:"@)
    ||| starts(t, "SETPARENT:"@)
    ||| starts(t, "SETCHILD:"@)
    ||| starts(t, "ADDRELATION"@)
    ||| starts(t, "SETRELATION"@)
    ||| starts(t, "REMRELATION"@)
    ||| starts(t, "MOVE:"@)
    ||| starts(t, "MOVE-AFTER:"@)
    ||| starts(t, "MOVE-BEFORE:"@)
    ||| starts(t, "SWITCH:"@)
    ||| starts(t, "REMCOHORT:"@)
    ||| starts(t, "UNMAP:"@)
    ||| starts(t, "COPY:"@)
    ||| starts(t, "ADDCOHORT"@)
    ||| starts(t, "EXTERNAL"@)
    ||| starts(t, "REOPEN-MAPPINGS:"@)
}

/// What the tags of a subreading say, read so far.
pub struct SubV {
    pub coerror: bool,
    pub drop_pre_blank: bool,
    pub suggest: bool,
    pub suggestwf: bool,
    pub added: AddedStatus,
    pub delete_self: bool,
    pub id: u32,
    pub rels: Seq<(Seq<char>, u32)>,
    pub wf: Seq<char>,
    pub fixedcase: bool,
    pub coerrtypes: Seq<Seq<char>>,
    pub errtypes: Seq<Seq<char>>,
    pub gentags: Seq<Seq<char>>,
}

pub open spec fn sub_init(generate_all: bool) -> SubV {
    SubV {
        coerror: false,
        drop_pre_blank: false,
        suggest: generate_all,
        suggestwf: false,
        added: AddedStatus::NotAdded,
        delete_self: false,
        id: 0,
        rels: Seq::empty(),
        wf: Seq::empty(),
        fixedcase: false,
        coerrtypes: Seq::empty(),
        errtypes: Seq::empty(),
        gentags: Seq::empty(),
    }
}

/// The effect of one tag, tried against the tag kinds in this order: the
/// co-error markers, `DROP-PRE-BLANK`, the suggestion flags, the added-word
/// markers, `DELETE`, `ID:n`, `R:name:n`, a `"form"S` word form,
/// `<fixedcase>`, a `"<form>"` word form, a co-error type (`co&x` in any
/// case), an error type (`&x`), a CG-3 meta tag (dropped); any other tag is
/// kept for the generator.
pub open spec fn sub_step(st: SubV, t: Seq<char>) -> SubV {
    if t == "&LINK"@ || t == "&COERROR"@ || t == "COERROR"@ {
        SubV { coerror: true, ..st }
    } else if t == "DROP-PRE-BLANK"@ {
        SubV { drop_pre_blank: true, ..st }
    } else if t == "&SUGGEST"@ || t == "SUGGEST"@ || t == "@SUGGEST"@ {
        SubV { suggest: true, ..st }
    } else if t == "&SUGGESTWF"@ || t == "SUGGESTWF"@ || t == "@SUGGESTWF"@ {
        SubV { suggestwf: true, ..st }
    } else if t == "&ADDED"@ || t == "ADDED"@ || t == "&ADDED-AFTER-BLANK"@ || t
        == "ADDED-AFTER-BLANK"@ {
        SubV { added: AddedStatus::AddedAfterBlank, ..st }
    } else if t == "&ADDED-BEFORE-BLANK"@ || t == "ADDED-BEFORE-BLANK"@ {
        SubV { added: AddedStatus::AddedBeforeBlank, ..st }
    } else if t == "DELETE"@ {
        SubV { delete_self: true, ..st }
    } else if starts(t, "ID:"@) {
        match parse_u32(t.skip(3)) {
            Some(n) => SubV { id: n, ..st },
            None => st,
        }
    } else if starts(t, "R:"@) {
        let parts = split_on(t.skip(2), ':');
        if parts.len() >= 2 {
            match parse_u32(parts[1]) {
                Some(n) => SubV { rels: rel_insert(st.rels, parts[0], n), ..st },
                None => st,
            }
        } else {
            st
        }
    } else if starts(t, "\""@) && ends(t, "\"S"@) && t.len() > 2 {
        SubV { wf: t.subrange(1, t.len() - 2), ..st }
    } else if t == "<fixedcase>"@ {
        SubV { fixedcase: true, ..st }
    } else if starts(t, "\"<"@) && ends(t, ">\""@) && t.len() > 3 {
        SubV { wf: t.subrange(2, t.len() - 2), ..st }
    } else if starts(t, "co&"@) || starts(t, "cO&"@) || starts(t, "Co&"@) || starts(t, "CO&"@) {
        SubV { coerrtypes: set_insert(st.coerrtypes, t.skip(3)), ..st }
    } else if starts(t, "&"@) {
        SubV { errtypes: set_insert(st.errtypes, t.skip(1)), ..st }
    } else if is_meta_tag(t) {
        st
    } else {
        SubV { gentags: st.gentags.push(t), ..st }
    }
}

/// The tags `tags` read in turn.
pub open spec fn sub_fold(tags: Seq<Seq<char>>, generate_all: bool) -> SubV
    decreases tags.len(),
{
    if tags.len() == 0 {
        sub_init(generate_all)
    } else {
        sub_step(sub_fold(tags.drop_last(), generate_all), tags.last())
    }
}


/// The first-index characterisation of `key_index`.
pub proof fn lemma_key_index(s: Seq<(Seq<char>, u32)>, k: Seq<char>)
    ensures
        key_index(s, k) matches Some(i) ==> 0 <= i < s.len() && s[i].0 == k && forall|j: int|
            0 <= j < i ==> s[j].0 != k,
        key_index(s, k) is None ==> forall|j: int| 0 <= j < s.len() ==> s[j].0 != k,
    decreases s.len(),
{
    if s.len() > 0 {
        let p = s.drop_last();
        lemma_key_index(p, k);
        assert forall|j: int| 0 <= j < p.len() implies s[j] == p[j] by {}
    }
}

pub open spec fn rels_view(v: Seq<(String, u32)>) -> Seq<(Seq<char>, u32)> {
    v.map_values(|p: (String, u32)| (p.0@, p.1))
}

/// The tags of a subreading read so far, held as strings.
pub struct SubState {
    pub coerror: bool,
    pub drop_pre_blank: bool,
    pub suggest: bool,
    pub suggestwf: bool,
    pub added: AddedStatus,
    pub delete_self: bool,
    pub id: u32,
    pub rels: Vec<(String, u32)>,
    pub wf: String,
    pub fixedcase: bool,
    pub coerrtypes: Vec<String>,
    pub errtypes: Vec<String>,
    pub gentags: Vec<String>,
}

impl View for SubState {
    type V = SubV;

    open spec fn view(&self) -> SubV {
        SubV {
            coerror: self.coerror,
            drop_pre_blank: self.drop_pre_blank,
            suggest: self.suggest,
            suggestwf: self.suggestwf,
            added: self.added,
            delete_self: self.delete_self,
            id: self.id,
            rels: rels_view(self.rels@),
            wf: self.wf@,
            fixedcase: self.fixedcase,
            coerrtypes: strings_view(self.coerrtypes@),
            errtypes: strings_view(self.errtypes@),
            gentags: strings_view(self.gentags@),
        }
    }
}

/// Whether `s` starts with `p`.
pub fn starts_str(s: &Vec<char>, p: &str) -> (r: bool)
    ensures
        r == starts(s@, p@),
{
    let pv = chars_of(p);
    let r = crate::text::starts_with_at(s, 0, &pv);
    assert(s@.subrange(0, pv@.len() as int) =~= s@.take(pv@.len() as int));
    r
}

/// Whether `s` ends with `p`.
pub fn ends_str(s: &Vec<char>, p: &str) -> (r: bool)
    ensures
        r == ends(s@, p@),
{
    let pv = chars_of(p);
    if pv.len() > s.len() {
        return false;
    }
    let from = s.len() - pv.len();
    let r = crate::text::starts_with_at(s, from, &pv);
    assert(s@.subrange(from as int, from + pv@.len()) =~= s@.skip(from as int));
    r
}

/// Adds `x` to the set `v` (kept in insertion order).
pub fn insert_name(v: &mut Vec<String>, x: String)
    ensures
        strings_view(final(v)@) == set_insert(strings_view(old(v)@), x@),
{
    let ghost old_v = strings_view(v@);
    let mut i: usize = 0;
    while i < v.len()
        invariant
            i <= v@.len(),
            strings_view(v@) == old_v,
            forall|j: int| 0 <= j < i ==> v@[j]@ != x@,
        decreases v@.len() - i,
    {
        if str_eq(v[i].as_str(), x.as_str()) {
            assert(old_v[i as int] == x@);
            assert(old_v.contains(x@));
            return;
        }
        i = i + 1;
    }
    assert(!old_v.contains(x@)) by {
        if old_v.contains(x@) {
            let j = choose|j: int| 0 <= j < old_v.len() && old_v[j] == x@;
            assert(v@[j]@ == x@);
        }
    }
    v.push(x);
    assert(strings_view(v@) =~= old_v.push(x@));
}

/// The index of key `k` in `v`.
fn find_key(v: &Vec<(String, u32)>, k: &str) -> (r: Option<usize>)
    ensures
        r matches Some(i) ==> key_index(rels_view(v@), k@) == Some(i as int),
        r is None ==> key_index(rels_view(v@), k@) is None,
{
    let ghost vv = rels_view(v@);
    let mut i: usize = 0;
    while i < v.len()
        invariant
            i <= v@.len(),
            vv == rels_view(v@),
            forall|j: int| 0 <= j < i ==> v@[j].0@ != k@,
        decreases v@.len() - i,
    {
        if str_eq(v[i].0.as_str(), k) {
            proof {
                lemma_key_index(vv, k@);
                assert(vv[i as int] == (v@[i as int].0@, v@[i as int].1));
                match key_index(vv, k@) {
                    Some(m) => {
                        if m < i {
                            assert(vv[m] == (v@[m].0@, v@[m].1));
                        }
                        assert(!(i < m));
                    },
                    None => {},
                }
            }
            return Some(i);
        }
        i = i + 1;
    }
    proof {
        lemma_key_index(vv, k@);
        match key_index(vv, k@) {
            Some(m) => {
                assert(vv[m] == (v@[m].0@, v@[m].1));
            },
            None => {},
        }
    }
    None
}

/// Sets `k` to `val` in the map `v` (kept in insertion order).
pub fn insert_rel(v: &mut Vec<(String, u32)>, k: String, val: u32)
    ensures
        rels_view(final(v)@) == rel_insert(rels_view(old(v)@), k@, val),
{
    let ghost old_v = rels_view(v@);
    match find_key(v, k.as_str()) {
        Some(i) => {
            proof {
                lemma_key_index(old_v, k@);
            }
            v.set(i, (k, val));
            assert(rels_view(v@) =~= old_v.update(i as int, (k@, val)));
        },
        None => {
            v.push((k, val));
            assert(rels_view(v@) =~= old_v.push((k@, val)));
        },
    }
}

/// Whether `t` is a CG-3 meta tag.
fn is_meta(t: &Vec<char>) -> (r: bool)
    ensures
        r == is_meta_tag(t@),
{
    starts_str(t, "#")
    || starts_str(t, "@")
    || starts_str(t, "Sem/")
    || starts_str(t, "§")
    || starts_str(t, "<")
    || starts_str(t, "ADD:")
    || starts_str(t, "PROTECT:")
    || starts_str(t, "UNPROTECT:")
    || starts_str(t, "MAP:")
    || starts_str(t, "REPLACE:")
    || starts_str(t, "SELECT:")
    || starts_str(t, "REMOVE:")
    || starts_str(t, "IFF:")
    || starts_str(t, "APPEND:")
    || starts_str(t, "SUBSTITUTE:")
    || starts_str(t, "REMVARIABLE:")
    || starts_str(t, "SETVARIABLE:")
    || starts_str(t, "DELIMIT:")
    || starts_str(t, "MATCH:")
    || starts_str(t, "SETPARENT:")
    || starts_str(t, "SETCHILD:")
    || starts_str(t, "ADDRELATION")
    || starts_str(t, "SETRELATION")
    || starts_str(t, "REMRELATION")
    || starts_str(t, "MOVE:")
    || starts_str(t, "MOVE-AFTER:")
    || starts_str(t, "MOVE-BEFORE:")
    || starts_str(t, "SWITCH:")
    || starts_str(t, "REMCOHORT:")
    || starts_str(t, "UNMAP:")
    || starts_str(t, "COPY:")
    || starts_str(t, "ADDCOHORT")
    || starts_str(t, "EXTERNAL")
    || starts_str(t, "REOPEN-MAPPINGS:")
}

/// Reads one tag of a subreading.
pub fn sub_step_exec(st: &mut SubState, tag: &String)
    ensures
        final(st)@ == sub_step(old(st)@, tag@),
{
    let t = tag.as_str();
    let tv = chars_of(t);
    let n = tv.len();
    if str_eq(t, "&LINK") || str_eq(t, "&COERROR") || str_eq(t, "COERROR") {
        st.coerror = true;
    } else if str_eq(t, "DROP-PRE-BLANK") {
        st.drop_pre_blank = true;
    } else if str_eq(t, "&SUGGEST") || str_eq(t, "SUGGEST") || str_eq(t, "@SUGGEST") {
        st.suggest = true;
    } else if str_eq(t, "&SUGGESTWF") || str_eq(t, "SUGGESTWF") || str_eq(t, "@SUGGESTWF") {
        st.suggestwf = true;
    } else if str_eq(t, "&ADDED") || str_eq(t, "ADDED") || str_eq(t, "&ADDED-AFTER-BLANK") || str_eq(
        t,
        "ADDED-AFTER-BLANK",
    ) {
        st.added = AddedStatus::AddedAfterBlank;
    } else if str_eq(t, "&ADDED-BEFORE-BLANK") || str_eq(t, "ADDED-BEFORE-BLANK") {
        st.added = AddedStatus::AddedBeforeBlank;
    } else if str_eq(t, "DELETE") {
        st.delete_self = true;
    } else if starts_str(&tv, "ID:") {
        proof {
            reveal_strlit("ID:");
        }
        let id = crate::num::parse_u32_chars(&tv, 3, n);
        assert(tv@.subrange(3, n as int) =~= tv@.skip(3));
        match id {
            Some(v) => {
                st.id = v;
            },
            None => {},
        }
    } else if starts_str(&tv, "R:") {
        proof {
            reveal_strlit("R:");
        }
        let rest = string_of(&tv, 2, n);
        assert(rest@ =~= tv@.skip(2));
        let parts = split_at_char(rest.as_str(), ':');
        if parts.len() >= 2 {
            let pv = chars_of(parts[1].as_str());
            let target = crate::num::parse_u32_chars(&pv, 0, pv.len());
            assert(pv@.subrange(0, pv@.len() as int) =~= pv@);
            assert(strings_view(parts@)[1] == parts@[1]@);
            assert(strings_view(parts@)[0] == parts@[0]@);
            match target {
                Some(v) => {
                    insert_rel(&mut st.rels, parts[0].clone(), v);
                },
                None => {},
            }
        }
    } else if starts_str(&tv, "\"") && ends_str(&tv, "\"S") && n > 2 {
        st.wf = string_of(&tv, 1, n - 2);
    } else if str_eq(t, "<fixedcase>") {
        st.fixedcase = true;
    } else if starts_str(&tv, "\"<") && ends_str(&tv, ">\"") && n > 3 {
        st.wf = string_of(&tv, 2, n - 2);
    } else if starts_str(&tv, "co&") || starts_str(&tv, "cO&") || starts_str(&tv, "Co&") || starts_str(
        &tv,
        "CO&",
    ) {
        proof {
            reveal_strlit("co&");
            reveal_strlit("cO&");
            reveal_strlit("Co&");
            reveal_strlit("CO&");
        }
        let x = string_of(&tv, 3, n);
        assert(x@ =~= tv@.skip(3));
        insert_name(&mut st.coerrtypes, x);
    } else if starts_str(&tv, "&") {
        proof {
            reveal_strlit("&");
        }
        let x = string_of(&tv, 1, n);
        assert(x@ =~= tv@.skip(1));
        insert_name(&mut st.errtypes, x);
    } else if is_meta(&tv) {
    } else {
        st.gentags.push(tag.clone());
        assert(strings_view(st.gentags@) =~= strings_view(old(st).gentags@).push(tag@));
    }
}

/// A reading prepared for error markup: its analysis for the generator,
/// its error and co-error types, its suggestions, its relations (by name, to
/// a cohort id), its own id and word form, and its flags.
#[derive(Debug)]
pub struct Reading {
    pub suggest: bool,
    pub ana: String,
    pub errtypes: Vec<String>,
    pub coerrtypes: Vec<String>,
    pub sforms: Vec<String>,
    pub rels: Vec<(String, u32)>,
    pub id: u32,
    pub wf: String,
    pub suggestwf: bool,
    pub coerror: bool,
    pub added: AddedStatus,
    pub fixedcase: bool,
    pub drop_pre_blank: bool,
}

pub struct ReadingV {
    pub suggest: bool,
    pub ana: Seq<char>,
    pub errtypes: Seq<Seq<char>>,
    pub coerrtypes: Seq<Seq<char>>,
    pub sforms: Seq<Seq<char>>,
    pub rels: Seq<(Seq<char>, u32)>,
    pub id: u32,
    pub wf: Seq<char>,
    pub suggestwf: bool,
    pub coerror: bool,
    pub added: AddedStatus,
    pub fixedcase: bool,
    pub drop_pre_blank: bool,
}

impl View for Reading {
    type V = ReadingV;

    open spec fn view(&self) -> ReadingV {
        ReadingV {
            suggest: self.suggest,
            ana: self.ana@,
            errtypes: strings_view(self.errtypes@),
            coerrtypes: strings_view(self.coerrtypes@),
            sforms: strings_view(self.sforms@),
            rels: rels_view(self.rels@),
            id: self.id,
            wf: self.wf@,
            suggestwf: self.suggestwf,
            coerror: self.coerror,
            added: self.added,
            fixedcase: self.fixedcase,
            drop_pre_blank: self.drop_pre_blank,
        }
    }
}

/// The reading of one subreading: its tags read in turn; a `DELETE` tag
/// relates it to its own id; its analysis is the base form and the
/// generator tags joined by `+`; a `SUGGESTWF` reading suggests its own word
/// form.
pub open spec fn subreading(r: CgReadingV, generate_all: bool) -> ReadingV {
    let st = sub_fold(r.tags, generate_all);
    ReadingV {
        suggest: st.suggest,
        ana: r.base_form + "+"@ + join_by(st.gentags, '+'),
        errtypes: st.errtypes,
        coerrtypes: st.coerrtypes,
        sforms: if st.suggestwf {
            seq![st.wf]
        } else {
            Seq::empty()
        },
        rels: if st.delete_self {
            rel_insert(st.rels, "DELETE"@, st.id)
        } else {
            st.rels
        },
        id: st.id,
        wf: st.wf,
        suggestwf: st.suggestwf,
        coerror: st.coerror,
        added: st.added,
        fixedcase: st.fixedcase,
        drop_pre_blank: st.drop_pre_blank,
    }
}

/// Reads the tags of one subreading.
pub fn proc_subreading(reading: &CgReading, generate_all_readings: bool) -> (r: Reading)
    ensures
        r@ == subreading(reading@, generate_all_readings),
{
    let mut st = SubState {
        coerror: false,
        drop_pre_blank: false,
        suggest: generate_all_readings,
        suggestwf: false,
        added: AddedStatus::NotAdded,
        delete_self: false,
        id: 0,
        rels: Vec::new(),
        wf: String::new(),
        fixedcase: false,
        coerrtypes: Vec::new(),
        errtypes: Vec::new(),
        gentags: Vec::new(),
    };
    let ghost tags = reading@.tags;
    assert(st@.rels =~= Seq::<(Seq<char>, u32)>::empty());
    assert(st@.coerrtypes =~= Seq::<Seq<char>>::empty());
    assert(st@.errtypes =~= Seq::<Seq<char>>::empty());
    assert(st@.gentags =~= Seq::<Seq<char>>::empty());
    assert(tags.take(0) =~= Seq::<Seq<char>>::empty());
    let mut i: usize = 0;
    while i < reading.tags.len()
        invariant
            i <= reading.tags@.len(),
            tags == strings_view(reading.tags@),
            st@ == sub_fold(tags.take(i as int), generate_all_readings),
        decreases reading.tags@.len() - i,
    {
        sub_step_exec(&mut st, &reading.tags[i]);
        assert(tags.take(i + 1).drop_last() =~= tags.take(i as int));
        i = i + 1;
    }
    assert(tags.take(reading.tags@.len() as int) =~= tags);
    if st.delete_self {
        insert_rel(&mut st.rels, "DELETE".to_string(), st.id);
    }
    let mut ana = reading.base_form.clone();
    push_char(&mut ana, '+');
    let joined = join_strings(&st.gentags, '+');
    push_str(&mut ana, joined.as_str());
    proof {
        reveal_strlit("+");
    }
    assert(ana@ =~= reading@.base_form + "+"@ + join_by(st@.gentags, '+'));
    let mut sforms: Vec<String> = Vec::new();
    if st.suggestwf {
        sforms.push(st.wf.clone());
    }
    assert(strings_view(sforms@) =~= (if st@.suggestwf {
        seq![st@.wf]
    } else {
        Seq::<Seq<char>>::empty()
    }));
    Reading {
        suggest: st.suggest,
        ana,
        errtypes: st.errtypes,
        coerrtypes: st.coerrtypes,
        sforms,
        rels: st.rels,
        id: st.id,
        wf: st.wf,
        suggestwf: st.suggestwf,
        coerror: st.coerror,
        added: st.added,
        fixedcase: st.fixedcase,
        drop_pre_blank: st.drop_pre_blank,
    }
}

/// The order of `String`s: lexicographic by characters (which is the
/// order of their UTF-8 bytes).
pub open spec fn seq_lt(a: Seq<char>, b: Seq<char>) -> bool
    decreases a.len(),
{
    if a.len() == 0 {
        b.len() > 0
    } else if b.len() == 0 {
        false
    } else if a[0] != b[0] {
        a[0] < b[0]
    } else {
        seq_lt(a.drop_first(), b.drop_first())
    }
}

/// Each element comes before the next.
pub open spec fn strictly_sorted(s: Seq<Seq<char>>) -> bool {
    forall|j: int| 0 <= j < s.len() - 1 ==> seq_lt(#[trigger] s[j], s[j + 1])
}

/// Of two different strings, one comes before the other.
pub proof fn lemma_lt_total(a: Seq<char>, b: Seq<char>)
    requires
        a != b,
        !seq_lt(b, a),
    ensures
        seq_lt(a, b),
    decreases a.len(),
{
    if a.len() > 0 && b.len() > 0 && a[0] == b[0] {
        if a.drop_first() == b.drop_first() {
            assert(a =~= seq![a[0]] + a.drop_first());
            assert(b =~= seq![b[0]] + b.drop_first());
        }
        lemma_lt_total(a.drop_first(), b.drop_first());
    } else if a.len() == 0 && b.len() == 0 {
        assert(a =~= b);
    }
}

/// No string comes before itself.
pub proof fn lemma_lt_irrefl(a: Seq<char>)
    ensures
        !seq_lt(a, a),
    decreases a.len(),
{
    if a.len() > 0 {
        lemma_lt_irrefl(a.drop_first());
    }
}

/// The order of strings is transitive.
pub proof fn lemma_lt_trans(a: Seq<char>, b: Seq<char>, c: Seq<char>)
    requires
        seq_lt(a, b),
        seq_lt(b, c),
    ensures
        seq_lt(a, c),
    decreases a.len(),
{
    if a.len() > 0 && b.len() > 0 && c.len() > 0 && a[0] == b[0] && b[0] == c[0] {
        lemma_lt_trans(a.drop_first(), b.drop_first(), c.drop_first());
    }
}

/// In a sorted sequence every element comes before every later one.
pub proof fn lemma_sorted_lt(s: Seq<Seq<char>>, i: int, j: int)
    requires
        strictly_sorted(s),
        0 <= i < j < s.len(),
    ensures
        seq_lt(s[i], s[j]),
    decreases j - i,
{
    if j > i + 1 {
        lemma_sorted_lt(s, i, j - 1);
        assert(seq_lt(s[j - 1], s[j]));
        lemma_lt_trans(s[i], s[j - 1], s[j]);
    }
}

/// Two sorted sequences of the same strings are the same.
pub proof fn lemma_sorted_unique(r1: Seq<Seq<char>>, r2: Seq<Seq<char>>)
    requires
        strictly_sorted(r1),
        strictly_sorted(r2),
        r1.to_set() == r2.to_set(),
    ensures
        r1 == r2,
    decreases r1.len(),
{
    if r1.len() == 0 {
        if r2.len() > 0 {
            assert(r2.to_set().contains(r2[0]));
        }
        assert(r1 =~= r2);
    } else if r2.len() == 0 {
        assert(r1.to_set().contains(r1[0]));
    } else {
        assert(r1.to_set().contains(r1[0]));
        assert(r2.to_set().contains(r2[0]));
        let j = choose|j: int| 0 <= j < r2.len() && r2[j] == r1[0];
        let i = choose|i: int| 0 <= i < r1.len() && r1[i] == r2[0];
        if j > 0 && i > 0 {
            lemma_sorted_lt(r2, 0, j);
            lemma_sorted_lt(r1, 0, i);
            lemma_lt_trans(r1[0], r2[0], r1[0]);
            lemma_lt_irrefl(r1[0]);
        } else if j > 0 {
            lemma_sorted_lt(r2, 0, j);
            lemma_lt_irrefl(r2[0]);
        } else if i > 0 {
            lemma_sorted_lt(r1, 0, i);
            lemma_lt_irrefl(r1[0]);
        }
        assert(r1[0] == r2[0]);
        let t1 = r1.drop_first();
        let t2 = r2.drop_first();
        assert forall|k: int| 0 <= k < t1.len() - 1 implies seq_lt(#[trigger] t1[k], t1[k + 1]) by {
            assert(seq_lt(r1[k + 1], r1[k + 2]));
        }
        assert forall|k: int| 0 <= k < t2.len() - 1 implies seq_lt(#[trigger] t2[k], t2[k + 1]) by {
            assert(seq_lt(r2[k + 1], r2[k + 2]));
        }
        assert(t1.to_set() =~= t2.to_set()) by {
            assert forall|x: Seq<char>| #[trigger] t1.to_set().contains(x) implies t2.to_set().contains(x) by {
                let a = choose|a: int| 0 <= a < t1.len() && t1[a] == x;
                assert(r1[a + 1] == x);
                assert(r1.to_set().contains(x));
                assert(r2.to_set().contains(x));
                let b = choose|b: int| 0 <= b < r2.len() && r2[b] == x;
                if b == 0 {
                    lemma_sorted_lt(r1, 0, a + 1);
                    lemma_lt_irrefl(x);
                }
                assert(t2[b - 1] == x);
            }
            assert forall|x: Seq<char>| #[trigger] t2.to_set().contains(x) implies t1.to_set().contains(x) by {
                let b = choose|b: int| 0 <= b < t2.len() && t2[b] == x;
                assert(r2[b + 1] == x);
                assert(r2.to_set().contains(x));
                assert(r1.to_set().contains(x));
                let a = choose|a: int| 0 <= a < r1.len() && r1[a] == x;
                if a == 0 {
                    lemma_sorted_lt(r2, 0, b + 1);
                    lemma_lt_irrefl(x);
                }
                assert(t1[a - 1] == x);
            }
        }
        lemma_sorted_unique(t1, t2);
        assert(r1 =~= seq![r1[0]] + t1);
        assert(r2 =~= seq![r2[0]] + t2);
    }
}

/// The strings of `s`, each once, in order.
pub open spec fn sorted_set(s: Seq<Seq<char>>) -> Seq<Seq<char>> {
    choose|r: Seq<Seq<char>>| strictly_sorted(r) && r.to_set() == s.to_set()
}

/// `sorted_set` is the one sorted sequence of its strings.
pub proof fn lemma_sorted_set(r: Seq<Seq<char>>, s: Seq<Seq<char>>)
    requires
        strictly_sorted(r),
        r.to_set() == s.to_set(),
    ensures
        sorted_set(s) == r,
{
    let c = sorted_set(s);
    assert(strictly_sorted(c) && c.to_set() == s.to_set());
    lemma_sorted_unique(c, r);
}

/// Whether `a` comes before `b`.
pub fn str_lt(a: &str, b: &str) -> (r: bool)
    ensures
        r == seq_lt(a@, b@),
{
    let x = chars_of(a);
    let y = chars_of(b);
    let mut i: usize = 0;
    assert(x@.skip(0) =~= x@ && y@.skip(0) =~= y@);
    assert(x@.take(0) =~= y@.take(0));
    while i < x.len() && i < y.len() && x[i] == y[i]
        invariant
            i <= x@.len(),
            i <= y@.len(),
            x@.take(i as int) == y@.take(i as int),
            seq_lt(x@, y@) == seq_lt(x@.skip(i as int), y@.skip(i as int)),
        decreases x@.len() - i,
    {
        proof {
            let xs = x@.skip(i as int);
            let ys = y@.skip(i as int);
            assert(xs.drop_first() =~= x@.skip(i + 1));
            assert(ys.drop_first() =~= y@.skip(i + 1));
            assert(x@.take(i + 1) =~= x@.take(i as int).push(x@[i as int]));
            assert(y@.take(i + 1) =~= y@.take(i as int).push(y@[i as int]));
        }
        i = i + 1;
    }
    let ghost xs = x@.skip(i as int);
    let ghost ys = y@.skip(i as int);
    if i == x.len() {
        assert(xs.len() == 0);
        i < y.len()
    } else if i == y.len() {
        false
    } else {
        assert(xs[0] == x@[i as int] && ys[0] == y@[i as int]);
        x[i] < y[i]
    }
}

/// Inserting `x` into a sequence adds `x` to its set.
proof fn lemma_insert_to_set(
    ov: Seq<Seq<char>>,
    nv: Seq<Seq<char>>,
    i: int,
    x: Seq<char>,
    t0: Seq<Seq<char>>,
    t1: Seq<Seq<char>>,
)
    requires
        0 <= i <= ov.len(),
        nv == ov.insert(i, x),
        ov.to_set() == t0.to_set(),
        t1 == t0.push(x),
    ensures
        nv.to_set() == t1.to_set(),
{
    assert forall|y: Seq<char>| #[trigger] nv.to_set().contains(y) <==> t1.to_set().contains(y) by {
        if nv.contains(y) {
            let j = choose|j: int| 0 <= j < nv.len() && nv[j] == y;
            if j < i {
                assert(ov[j] == y);
                assert(ov.to_set().contains(y));
            } else if j > i {
                assert(ov[j - 1] == y);
                assert(ov.to_set().contains(y));
            }
            if j != i {
                assert(t0.to_set().contains(y));
                assert(t0.contains(y));
                let m = choose|m: int| 0 <= m < t0.len() && t0[m] == y;
                assert(t1[m] == y);
            } else {
                assert(t1[t0.len() as int] == y);
            }
        }
        if t1.contains(y) {
            let m = choose|m: int| 0 <= m < t1.len() && t1[m] == y;
            if m < t0.len() {
                assert(t0[m] == y);
                assert(t0.to_set().contains(y));
                assert(ov.to_set().contains(y));
                assert(ov.contains(y));
                let j = choose|j: int| 0 <= j < ov.len() && ov[j] == y;
                if j < i {
                    assert(nv[j] == y);
                } else {
                    assert(nv[j + 1] == y);
                }
            } else {
                assert(nv[i] == y);
            }
        }
    }
    assert(nv.to_set() =~= t1.to_set());
}

/// The strings of `v`, each once, in order (`sort` then `dedup`).
pub fn sort_dedup(v: &Vec<String>) -> (r: Vec<String>)
    ensures
        strictly_sorted(strings_view(r@)),
        strings_view(r@).to_set() == strings_view(v@).to_set(),
        strings_view(r@) == sorted_set(strings_view(v@)),
{
    let ghost vv = strings_view(v@);
    let mut out: Vec<String> = Vec::new();
    let mut k: usize = 0;
    assert(strings_view(out@).to_set() =~= vv.take(0).to_set());
    while k < v.len()
        invariant
            k <= v@.len(),
            vv == strings_view(v@),
            strictly_sorted(strings_view(out@)),
            strings_view(out@).to_set() == vv.take(k as int).to_set(),
        decreases v@.len() - k,
    {
        let x = &v[k];
        let ghost ov = strings_view(out@);
        let mut i: usize = 0;
        while i < out.len() && str_lt(out[i].as_str(), x.as_str())
            invariant
                i <= out@.len(),
                ov == strings_view(out@),
                strictly_sorted(ov),
                i > 0 ==> seq_lt(ov[i - 1], x@),
            decreases out@.len() - i,
        {
            i = i + 1;
        }
        assert(vv.take(k + 1) =~= vv.take(k as int).push(x@));
        if i < out.len() && str_eq(out[i].as_str(), x.as_str()) {
            assert(ov[i as int] == x@);
            assert(vv.take(k + 1).to_set() =~= vv.take(k as int).to_set()) by {
                assert(ov.contains(x@));
                assert(ov.to_set().contains(x@));
            }
        } else {
            proof {
                if i < out@.len() {
                    lemma_lt_total(x@, ov[i as int]);
                }
            }
            out.insert(i, x.clone());
            let ghost nv = strings_view(out@);
            assert(nv =~= ov.insert(i as int, x@));
            assert(strictly_sorted(nv)) by {
                assert forall|j: int| 0 <= j < nv.len() - 1 implies seq_lt(#[trigger] nv[j], nv[j + 1]) by {
                    if j < i - 1 {
                        assert(nv[j] == ov[j] && nv[j + 1] == ov[j + 1]);
                    } else if j == i - 1 {
                    } else if j == i {
                    } else {
                        assert(nv[j] == ov[j - 1] && nv[j + 1] == ov[j]);
                    }
                }
            }
            proof {
                lemma_insert_to_set(ov, nv, i as int, x@, vv.take(k as int), vv.take(k + 1));
            }
        }
        k = k + 1;
    }
    assert(vv.take(v@.len() as int) =~= vv);
    proof {
        lemma_sorted_set(strings_view(out@), vv);
    }
    out
}

/// `s` with each of `xs` added in turn, as a set.
pub open spec fn set_extend(s: Seq<Seq<char>>, xs: Seq<Seq<char>>) -> Seq<Seq<char>>
    decreases xs.len(),
{
    if xs.len() == 0 {
        s
    } else {
        set_insert(set_extend(s, xs.drop_last()), xs.last())
    }
}

/// `s` with each entry of `xs` set in turn, as a map.
pub open spec fn rels_extend(s: Seq<(Seq<char>, u32)>, xs: Seq<(Seq<char>, u32)>) -> Seq<
    (Seq<char>, u32),
>
    decreases xs.len(),
{
    if xs.len() == 0 {
        s
    } else {
        let p = xs.last();
        rel_insert(rels_extend(s, xs.drop_last()), p.0, p.1)
    }
}

pub open spec fn empty_reading() -> ReadingV {
    ReadingV {
        suggest: false,
        ana: Seq::empty(),
        errtypes: Seq::empty(),
        coerrtypes: Seq::empty(),
        sforms: Seq::empty(),
        rels: Seq::empty(),
        id: 0,
        wf: Seq::empty(),
        suggestwf: false,
        coerror: false,
        added: AddedStatus::NotAdded,
        fixedcase: false,
        drop_pre_blank: false,
    }
}

/// `r` with subreading `sub` merged in: the types and relations joined, the
/// suggestions appended, the first id, word form and added status that are
/// set kept, the flags or-ed.
pub open spec fn merge_step(r: ReadingV, sub: ReadingV, generate_all: bool) -> ReadingV {
    ReadingV {
        suggest: r.suggest || sub.suggest || generate_all,
        ana: r.ana,
        errtypes: set_extend(r.errtypes, sub.errtypes),
        coerrtypes: set_extend(r.coerrtypes, sub.coerrtypes),
        sforms: r.sforms + sub.sforms,
        rels: rels_extend(r.rels, sub.rels),
        id: if r.id == 0 {
            sub.id
        } else {
            r.id
        },
        wf: if r.wf.len() == 0 {
            sub.wf
        } else {
            r.wf
        },
        suggestwf: r.suggestwf || sub.suggestwf,
        coerror: r.coerror || sub.coerror,
        added: if r.added == AddedStatus::NotAdded {
            sub.added
        } else {
            r.added
        },
        fixedcase: r.fixedcase || sub.fixedcase,
        drop_pre_blank: r.drop_pre_blank || sub.drop_pre_blank,
    }
}

pub open spec fn merge_fold(subs: Seq<ReadingV>, generate_all: bool) -> ReadingV
    decreases subs.len(),
{
    if subs.len() == 0 {
        empty_reading()
    } else {
        merge_step(merge_fold(subs.drop_last(), generate_all), subs.last(), generate_all)
    }
}

pub open spec fn anas(subs: Seq<ReadingV>) -> Seq<Seq<char>> {
    subs.map_values(|r: ReadingV| r.ana)
}

/// The subreadings merged into one reading, their analyses joined by `#`.
pub open spec fn merged(subs: Seq<ReadingV>, generate_all: bool) -> ReadingV {
    ReadingV { ana: join_by(anas(subs), '#'), ..merge_fold(subs, generate_all) }
}

/// The forms generated for the subreadings that ask for suggestions:
/// `generated[i]` belongs to `subs[i]`.
pub open spec fn generated_forms(subs: Seq<ReadingV>, generated: Seq<Seq<Seq<char>>>) -> Seq<
    Seq<char>,
>
    decreases subs.len(),
{
    if subs.len() == 0 {
        Seq::empty()
    } else {
        let i = subs.len() - 1;
        generated_forms(subs.drop_last(), generated) + if subs.last().suggest && i
            < generated.len() {
            generated[i]
        } else {
            Seq::empty()
        }
    }
}

pub open spec fn readings_v(v: Seq<Reading>) -> Seq<ReadingV> {
    v.map_values(|r: Reading| r@)
}

pub open spec fn nested_view(v: Seq<Vec<String>>) -> Seq<Seq<Seq<char>>> {
    v.map_values(|x: Vec<String>| strings_view(x@))
}

/// Adds each of `xs` to the set `v`.
pub fn extend_names(v: &mut Vec<String>, xs: &Vec<String>)
    ensures
        strings_view(final(v)@) == set_extend(strings_view(old(v)@), strings_view(xs@)),
{
    let ghost start = strings_view(v@);
    let ghost xv = strings_view(xs@);
    let mut i: usize = 0;
    assert(xv.take(0) =~= Seq::<Seq<char>>::empty());
    while i < xs.len()
        invariant
            i <= xs@.len(),
            xv == strings_view(xs@),
            strings_view(v@) == set_extend(start, xv.take(i as int)),
        decreases xs@.len() - i,
    {
        insert_name(v, xs[i].clone());
        assert(xv.take(i + 1).drop_last() =~= xv.take(i as int));
        i = i + 1;
    }
    assert(xv.take(xs@.len() as int) =~= xv);
}

/// Sets each entry of `xs` in the map `v`.
pub fn extend_rels(v: &mut Vec<(String, u32)>, xs: &Vec<(String, u32)>)
    ensures
        rels_view(final(v)@) == rels_extend(rels_view(old(v)@), rels_view(xs@)),
{
    let ghost start = rels_view(v@);
    let ghost xv = rels_view(xs@);
    let mut i: usize = 0;
    assert(xv.take(0) =~= Seq::<(Seq<char>, u32)>::empty());
    while i < xs.len()
        invariant
            i <= xs@.len(),
            xv == rels_view(xs@),
            rels_view(v@) == rels_extend(start, xv.take(i as int)),
        decreases xs@.len() - i,
    {
        insert_rel(v, xs[i].0.clone(), xs[i].1);
        assert(xv.take(i + 1).drop_last() =~= xv.take(i as int));
        assert(xv[i as int] == (xs@[i as int].0@, xs@[i as int].1));
        i = i + 1;
    }
    assert(xv.take(xs@.len() as int) =~= xv);
}

/// Appends copies of `xs` to `v`.
pub fn append_strings(v: &mut Vec<String>, xs: &Vec<String>)
    ensures
        strings_view(final(v)@) == strings_view(old(v)@) + strings_view(xs@),
{
    let ghost start = strings_view(v@);
    let mut i: usize = 0;
    while i < xs.len()
        invariant
            i <= xs@.len(),
            strings_view(v@) == start + strings_view(xs@).take(i as int),
        decreases xs@.len() - i,
    {
        let x = xs[i].clone();
        assert(strings_view(xs@)[i as int] == x@);
        let ghost before = v@;
        v.push(x);
        assert(strings_view(v@) =~= strings_view(before).push(x@));
        assert(strings_view(xs@).take(i + 1) =~= strings_view(xs@).take(i as int).push(x@));
        assert(strings_view(v@) =~= start + strings_view(xs@).take(i + 1));
        i = i + 1;
    }
    assert(strings_view(xs@).take(xs@.len() as int) =~= strings_view(xs@));
}

/// The reading of merged subreadings, its suggestions joined by the
/// generated forms (`generated[i]` for subreading `i`), sorted, each once.
pub open spec fn reading_of(subs: Seq<ReadingV>, generate_all: bool, generated: Seq<Seq<Seq<char>>>) -> ReadingV {
    let m = merged(subs, generate_all);
    ReadingV { sforms: sorted_set(m.sforms + generated_forms(subs, generated)), ..m }
}

/// Merges the subreadings of a cohort into one reading; `generated[i]` are
/// the forms the generator gave for subreading `i` where it asks for
/// suggestions. The suggestions end up sorted, each once.
pub fn merge_readings(subs: &Vec<Reading>, generate_all_readings: bool, generated: &Vec<Vec<String>>) -> (r: Reading)
    ensures
        r@ == reading_of(readings_v(subs@), generate_all_readings, nested_view(generated@)),
{
    let ghost sv = readings_v(subs@);
    let ghost gv = nested_view(generated@);
    let mut r = Reading {
        suggest: false,
        ana: String::new(),
        errtypes: Vec::new(),
        coerrtypes: Vec::new(),
        sforms: Vec::new(),
        rels: Vec::new(),
        id: 0,
        wf: String::new(),
        suggestwf: false,
        coerror: false,
        added: AddedStatus::NotAdded,
        fixedcase: false,
        drop_pre_blank: false,
    };
    assert(r@.errtypes =~= Seq::<Seq<char>>::empty());
    assert(r@.coerrtypes =~= Seq::<Seq<char>>::empty());
    assert(r@.sforms =~= Seq::<Seq<char>>::empty());
    assert(r@.rels =~= Seq::<(Seq<char>, u32)>::empty());
    assert(r@ == empty_reading());
    assert(sv.take(0) =~= Seq::<ReadingV>::empty());
    assert(anas(sv.take(0)) =~= Seq::<Seq<char>>::empty());
    let mut i: usize = 0;
    while i < subs.len()
        invariant
            i <= subs@.len(),
            sv == readings_v(subs@),
            r@ == (ReadingV { ana: r@.ana, ..merge_fold(sv.take(i as int), generate_all_readings) }),
            r@.ana == join_by(anas(sv.take(i as int)), '#'),
        decreases subs@.len() - i,
    {
        let sub = &subs[i];
        let ghost prev = r@;
        if i > 0 {
            push_char(&mut r.ana, '#');
        }
        push_str(&mut r.ana, sub.ana.as_str());
        extend_names(&mut r.errtypes, &sub.errtypes);
        extend_names(&mut r.coerrtypes, &sub.coerrtypes);
        extend_rels(&mut r.rels, &sub.rels);
        if r.id == 0 {
            r.id = sub.id;
        }
        r.suggest = r.suggest || sub.suggest || generate_all_readings;
        r.suggestwf = r.suggestwf || sub.suggestwf;
        r.coerror = r.coerror || sub.coerror;
        if r.added == AddedStatus::NotAdded {
            r.added = sub.added;
        }
        append_strings(&mut r.sforms, &sub.sforms);
        if r.wf.as_str().is_empty() {
            r.wf = sub.wf.clone();
        }
        r.fixedcase = r.fixedcase || sub.fixedcase;
        r.drop_pre_blank = r.drop_pre_blank || sub.drop_pre_blank;
        proof {
            let t = sv.take(i + 1);
            assert(t.drop_last() =~= sv.take(i as int));
            assert(t.last() == sub@);
            assert(anas(t) =~= anas(sv.take(i as int)).push(sub@.ana));
            assert(anas(t).drop_last() =~= anas(sv.take(i as int)));
            assert(anas(t).last() == sub@.ana);
            if i == 0 {
                assert(anas(t) =~= seq![sub@.ana]);
            }
            assert(r@.ana =~= join_by(anas(t), '#'));
        }
        i = i + 1;
    }
    assert(sv.take(subs@.len() as int) =~= sv);
    let ghost base = r@;
    let mut k: usize = 0;
    assert(sv.take(0) =~= Seq::<ReadingV>::empty());
    while k < subs.len()
        invariant
            k <= subs@.len(),
            sv == readings_v(subs@),
            gv == nested_view(generated@),
            r@ == (ReadingV { sforms: r@.sforms, ..base }),
            r@.sforms == base.sforms + generated_forms(sv.take(k as int), gv),
        decreases subs@.len() - k,
    {
        if subs[k].suggest && k < generated.len() {
            append_strings(&mut r.sforms, &generated[k]);
        }
        proof {
            let t = sv.take(k + 1);
            assert(t.drop_last() =~= sv.take(k as int));
            assert(t.last() == subs@[k as int]@);
            if subs@[k as int].suggest && k < generated@.len() {
                assert(gv[k as int] == strings_view(generated@[k as int]@));
            }
            assert(r@.sforms =~= base.sforms + generated_forms(t, gv));
        }
        k = k + 1;
    }
    r.sforms = sort_dedup(&r.sforms);
    r
}

pub open spec fn subs_of(readings: Seq<CgReadingV>, generate_all: bool) -> Seq<ReadingV> {
    readings.map_values(|r: CgReadingV| subreading(r, generate_all))
}

/// The subreadings of a cohort, each read on its own.
pub fn proc_subreadings(cohort: &CgCohort, generate_all_readings: bool) -> (subs: Vec<Reading>)
    ensures
        readings_v(subs@) == subs_of(cohort@.readings, generate_all_readings),
{
    let mut subs: Vec<Reading> = Vec::new();
    let mut i: usize = 0;
    while i < cohort.readings.len()
        invariant
            i <= cohort.readings@.len(),
            readings_v(subs@) == subs_of(cohort@.readings, generate_all_readings).take(i as int),
        decreases cohort.readings@.len() - i,
    {
        let sub = proc_subreading(&cohort.readings[i], generate_all_readings);
        let ghost before = subs@;
        subs.push(sub);
        assert(cohort@.readings[i as int] == cohort.readings@[i as int]@);
        assert(readings_v(subs@) =~= readings_v(before).push(sub@));
        assert(readings_v(subs@) =~= subs_of(cohort@.readings, generate_all_readings).take(i + 1));
        i = i + 1;
    }
    assert(subs_of(cohort@.readings, generate_all_readings).take(cohort.readings@.len() as int)
        =~= subs_of(cohort@.readings, generate_all_readings));
    subs
}

/// The reading of a cohort: its subreadings merged, with the forms the
/// generator gave for them (`generated[i]` for subreading `i`).
pub fn proc_reading(cohort: &CgCohort, generate_all_readings: bool, generated: &Vec<Vec<String>>) -> (r: Reading)
    ensures
        r@ == reading_of(
            subs_of(cohort@.readings, generate_all_readings),
            generate_all_readings,
            nested_view(generated@),
        ),
{
    let subs = proc_subreadings(cohort, generate_all_readings);
    merge_readings(&subs, generate_all_readings, generated)
}

/// What to generate from when the analysis of an unknown word (`+?`) gave
/// nothing: the base form, before the first `+`.
pub open spec fn fallback(ana: Seq<char>) -> Option<Seq<char>> {
    if contains_seq(ana, "+?"@) {
        match first_of(ana, '+') {
            Some(i) => Some(ana.take(i)),
            None => None,
        }
    } else {
        None
    }
}

/// The second query for a subreading whose analysis gave no forms.
pub fn fallback_query(ana: &str) -> (q: Option<String>)
    ensures
        opt_view(q) == fallback(ana@),
{
    if !contains_str(ana, "+?") {
        return None;
    }
    let v = chars_of(ana);
    let mut i: usize = 0;
    assert(ana@.skip(0) =~= ana@);
    while i < v.len()
        invariant
            i <= v@.len(),
            v@ == ana@,
            contains_seq(ana@, "+?"@),
            first_of(ana@, '+') == (match first_of(ana@.skip(i as int), '+') {
                Some(j) => Some(j + i),
                None => None::<int>,
            }),
        decreases v@.len() - i,
    {
        if v[i] == '+' {
            assert(ana@.skip(i as int)[0] == '+');
            let b = string_of(&v, 0, i);
            assert(b@ =~= ana@.take(i as int));
            return Some(b);
        }
        assert(ana@.skip(i as int).drop_first() =~= ana@.skip(i + 1));
        i = i + 1;
    }
    None
}

/// The state of reading a raw blank: inside an escape, before the first
/// `:`, and the text so far.
pub struct BlankV {
    pub escaped: bool,
    pub bol: bool,
    pub text: Seq<char>,
}

/// One character of a raw blank: the first `:` is dropped, an escaped `n`
/// (after a backslash) is a newline and any other escaped character stands
/// for itself, brackets are dropped.
pub open spec fn blank_step(st: BlankV, c: char) -> BlankV {
    if st.bol && c == ':' {
        BlankV { bol: false, ..st }
    } else if st.escaped {
        BlankV { escaped: false, text: st.text.push(if c == 'n' { '\n' } else { c }), ..st }
    } else if c == '\\' {
        BlankV { escaped: true, ..st }
    } else if c != '[' && c != ']' {
        BlankV { escaped: false, text: st.text.push(c), ..st }
    } else {
        st
    }
}

pub open spec fn blank_fold(s: Seq<char>) -> BlankV
    decreases s.len(),
{
    if s.len() == 0 {
        BlankV { escaped: false, bol: true, text: Seq::empty() }
    } else {
        blank_step(blank_fold(s.drop_last()), s.last())
    }
}

/// The text of a blank in CG-3 stream form.
pub open spec fn cleaned_blank(s: Seq<char>) -> Seq<char> {
    blank_fold(s).text
}

/// The text of a blank in CG-3 stream form: its first `:` (wherever it
/// stands) and its brackets dropped, its escapes read.
pub fn clean_blank(raw: &str) -> (text: String)
    ensures
        text@ == cleaned_blank(raw@),
{
    let v = chars_of(raw);
    let mut escaped = false;
    let mut bol = true;
    let mut text = String::new();
    let mut i: usize = 0;
    assert(raw@.take(0) =~= Seq::<char>::empty());
    while i < v.len()
        invariant
            i <= v@.len(),
            v@ == raw@,
            blank_fold(raw@.take(i as int)) == (BlankV { escaped, bol, text: text@ }),
        decreases v@.len() - i,
    {
        let c = v[i];
        if bol && c == ':' {
            bol = false;
        } else if escaped {
            if c == 'n' {
                push_char(&mut text, '\n');
            } else {
                push_char(&mut text, c);
            }
            escaped = false;
        } else if c == '\\' {
            escaped = true;
        } else if c != '[' && c != ']' {
            push_char(&mut text, c);
            escaped = false;
        }
        assert(raw@.take(i + 1).drop_last() =~= raw@.take(i as int));
        i = i + 1;
    }
    assert(raw@.take(v@.len() as int) =~= raw@);
    text
}

/// The letter case of a word.
#[derive(Debug, PartialEq, Eq, Structural, Clone, Copy)]
pub enum Casing {
    Lower,
    Title,
    Upper,
    Mixed,
}

/// What has been seen of the letters of a word: an upper-case letter, a
/// lower-case one, an upper-case letter first, an upper-case letter later.
pub struct CaseV {
    pub seen_upper: bool,
    pub seen_lower: bool,
    pub fst_upper: bool,
    pub non_fst_upper: bool,
}

pub open spec fn case_step(st: CaseV, c: char) -> CaseV {
    let st1 = if upper(c) {
        if st.seen_lower || st.seen_upper {
            CaseV { non_fst_upper: true, seen_upper: true, ..st }
        } else {
            CaseV { fst_upper: true, seen_upper: true, ..st }
        }
    } else {
        st
    };
    if lower(c) {
        CaseV { seen_lower: true, ..st1 }
    } else {
        st1
    }
}

pub open spec fn case_fold(s: Seq<char>) -> CaseV
    decreases s.len(),
{
    if s.len() == 0 {
        CaseV { seen_upper: false, seen_lower: false, fst_upper: false, non_fst_upper: false }
    } else {
        case_step(case_fold(s.drop_last()), s.last())
    }
}

/// The casing of a word: lower case, upper case, title case (only its first
/// letter upper case), or mixed (also a word with no letters).
pub open spec fn casing_of(s: Seq<char>) -> Casing {
    let st = case_fold(s);
    if s.len() == 0 {
        Casing::Mixed
    } else if !st.seen_upper && !st.seen_lower {
        Casing::Mixed
    } else if !st.seen_upper {
        Casing::Lower
    } else if !st.seen_lower {
        Casing::Upper
    } else if st.fst_upper && !st.non_fst_upper {
        Casing::Title
    } else {
        Casing::Mixed
    }
}

/// The casing of a word.
pub fn get_casing(input: &str) -> (c: Casing)
    ensures
        c == casing_of(input@),
{
    let v = chars_of(input);
    if v.len() == 0 {
        return Casing::Mixed;
    }
    let mut seen_upper = false;
    let mut seen_lower = false;
    let mut fst_upper = false;
    let mut non_fst_upper = false;
    let mut i: usize = 0;
    assert(input@.take(0) =~= Seq::<char>::empty());
    while i < v.len()
        invariant
            i <= v@.len(),
            v@ == input@,
            case_fold(input@.take(i as int)) == (CaseV { seen_upper, seen_lower, fst_upper, non_fst_upper }),
        decreases v@.len() - i,
    {
        let c = v[i];
        if is_upper(c) {
            if seen_lower || seen_upper {
                non_fst_upper = true;
            } else {
                fst_upper = true;
            }
            seen_upper = true;
        }
        if is_lower(c) {
            seen_lower = true;
        }
        assert(input@.take(i + 1).drop_last() =~= input@.take(i as int));
        i = i + 1;
    }
    assert(input@.take(v@.len() as int) =~= input@);
    if !seen_upper && !seen_lower {
        Casing::Mixed
    } else if !seen_upper {
        Casing::Lower
    } else if !seen_lower {
        Casing::Upper
    } else if fst_upper && !non_fst_upper {
        Casing::Title
    } else {
        Casing::Mixed
    }
}

/// The first letter of `s`.
pub open spec fn first_alpha(s: Seq<char>) -> Option<int>
    decreases s.len(),
{
    if s.len() == 0 {
        None
    } else if alphabetic(s[0]) {
        Some(0)
    } else {
        match first_alpha(s.drop_first()) {
            Some(i) => Some(i + 1),
            None => None,
        }
    }
}

/// `s` with its first letter replaced by the first character of its upper
/// case.
pub open spec fn title_cased(s: Seq<char>) -> Seq<char> {
    match first_alpha(s) {
        Some(p) => s.update(
            p,
            if char_uppercased(s[p]).len() > 0 {
                char_uppercased(s[p])[0]
            } else {
                s[p]
            },
        ),
        None => s,
    }
}

/// A suggestion in the casing of the word it replaces, unless its case is
/// fixed.
pub open spec fn cased(fixedcase: bool, casing: Casing, s: Seq<char>) -> Seq<char> {
    if fixedcase {
        s
    } else {
        match casing {
            Casing::Title => title_cased(s),
            Casing::Upper => uppercased(s),
            Casing::Lower => lowercased(s),
            Casing::Mixed => s,
        }
    }
}

/// A suggestion put in the casing of the word it replaces.
pub fn with_casing(fixedcase: bool, input_casing: Casing, input: &str) -> (r: String)
    ensures
        r@ == cased(fixedcase, input_casing, input@),
{
    if fixedcase {
        return input.to_string();
    }
    match input_casing {
        Casing::Title => {
            let v = chars_of(input);
            let mut i: usize = 0;
            assert(input@.skip(0) =~= input@);
            while i < v.len() && !is_alphabetic(v[i])
                invariant
                    i <= v@.len(),
                    v@ == input@,
                    first_alpha(input@) == (match first_alpha(input@.skip(i as int)) {
                        Some(j) => Some(j + i),
                        None => None::<int>,
                    }),
                decreases v@.len() - i,
            {
                assert(input@.skip(i as int).drop_first() =~= input@.skip(i + 1));
                i = i + 1;
            }
            if i == v.len() {
                assert(input@.skip(i as int).len() == 0);
                return input.to_string();
            }
            assert(input@.skip(i as int)[0] == v@[i as int]);
            let u = char_to_uppercase(v[i]);
            let uv = chars_of(u.as_str());
            let first = if uv.len() > 0 {
                uv[0]
            } else {
                v[i]
            };
            let mut out = string_of(&v, 0, i);
            push_char(&mut out, first);
            let rest = string_of(&v, i + 1, v.len());
            push_str(&mut out, rest.as_str());
            assert(out@ =~= title_cased(input@));
            out
        },
        Casing::Upper => to_uppercase(input),
        Casing::Lower => to_lowercase(input),
        Casing::Mixed => input.to_string(),
    }
}

/// The UTF-16 length of the text before byte offset `byte_offset`, which
/// falls on a character boundary: `k` characters in.
pub fn byte_to_utf16_offset(text: &str, byte_offset: usize) -> (n: usize)
    requires
        exists|k: int| 0 <= k <= text@.len() && utf8_len(#[trigger] text@.take(k)) == byte_offset,
    ensures
        exists|k: int|
            0 <= k <= text@.len() && utf8_len(#[trigger] text@.take(k)) == byte_offset && n
                == utf16_len(text@.take(k)),
{
    let v = chars_of(text);
    let ghost kk = choose|k: int| 0 <= k <= text@.len() && utf8_len(#[trigger] text@.take(k)) == byte_offset;
    let mut i: usize = 0;
    let mut bytes: usize = 0;
    let mut units: usize = 0;
    assert(text@.take(0) =~= Seq::<char>::empty());
    while bytes < byte_offset
        invariant
            i <= v@.len(),
            v@ == text@,
            0 <= kk <= text@.len(),
            utf8_len(text@.take(kk)) == byte_offset,
            bytes == utf8_len(text@.take(i as int)),
            units == utf16_len(text@.take(i as int)),
            i <= kk,
            units <= bytes,
        decreases kk - i,
    {
        proof {
            if i == kk {
                assert(false);
            }
            lemma_utf8_len_prefix(text@.take(kk), i + 1);
            assert(text@.take(kk).take(i + 1) =~= text@.take(i + 1));
            assert(text@.take(i + 1).drop_last() =~= text@.take(i as int));
        }
        assert(i < v.len());
        let c = v[i];
        assert(text@.take(i + 1).last() == c);
        assert(bytes + crate::text::char_width(c) == utf8_len(text@.take(i + 1)));
        assert(utf8_len(text@.take(i + 1)) <= byte_offset);
        bytes = bytes + char_len_utf8(c);
        units = units + if (c as u32) < 0x10000 {
            1
        } else {
            2
        };
        i = i + 1;
    }
    proof {
        lemma_utf8_len_prefix(text@.take(kk), i as int);
        assert(text@.take(kk).take(i as int) =~= text@.take(i as int));
        if i < kk {
            lemma_utf8_len_prefix(text@.take(kk), i + 1);
            assert(text@.take(kk).take(i + 1) =~= text@.take(i + 1));
            assert(text@.take(i + 1).drop_last() =~= text@.take(i as int));
        }
    }
    units
}

/// Whether the regular expression `pattern` compiles and matches somewhere
/// in `text` (`regex::Regex::is_match`).
pub uninterp spec fn regex_matches(pattern: Seq<char>, text: Seq<char>) -> bool;

/// `regex::Regex::new(pattern)` and, where it compiles, `Regex::is_match` on
/// `text`; a pattern that does not compile matches nothing. The contract
/// names the answer by the pattern and the text.
#[verifier::external_body]
pub fn regex_is_match(pattern: &str, text: &str) -> (r: bool)
    ensures
        r == regex_matches(pattern@, text@),
{
    match regex::Regex::new(pattern) {
        Ok(re) => re.is_match(text),
        Err(_) => false,
    }
}

/// Relations that delete their target: `DELETE`, `DELETE1`, ..
pub open spec fn is_delete_rel(name: Seq<char>) -> bool {
    regex_matches("^DELETE[0-9]*$"@, name)
}

/// Relations that stretch the underline to their target: `LEFT`, `RIGHT`
/// and the deleting ones.
pub open spec fn is_squiggle_rel(name: Seq<char>) -> bool {
    regex_matches("^(LEFT|RIGHT|DELETE[0-9]*)$"@, name)
}

/// A cohort of a sentence under markup: its form, its byte position in the
/// sentence text, its relation id, its reading, its error and co-error
/// types, its added status and the blank before it (in stream form).
#[derive(Debug)]
pub struct Cohort {
    pub form: String,
    pub pos: usize,
    pub id: u32,
    pub readings: Vec<Reading>,
    pub errtypes: Vec<String>,
    pub coerrtypes: Vec<String>,
    pub added: AddedStatus,
    pub raw_pre_blank: String,
}

pub struct CohortV {
    pub form: Seq<char>,
    pub pos: nat,
    pub id: u32,
    pub readings: Seq<ReadingV>,
    pub errtypes: Seq<Seq<char>>,
    pub coerrtypes: Seq<Seq<char>>,
    pub added: AddedStatus,
    pub raw_pre_blank: Seq<char>,
}

impl View for Cohort {
    type V = CohortV;

    open spec fn view(&self) -> CohortV {
        CohortV {
            form: self.form@,
            pos: self.pos as nat,
            id: self.id,
            readings: readings_v(self.readings@),
            errtypes: strings_view(self.errtypes@),
            coerrtypes: strings_view(self.coerrtypes@),
            added: self.added,
            raw_pre_blank: self.raw_pre_blank@,
        }
    }
}

impl Cohort {
    /// Whether the cohort has no word form.
    pub fn is_empty(&self) -> (b: bool)
        ensures
            b == (self.form@.len() == 0),
    {
        self.form.as_str().is_empty()
    }
}

pub open spec fn cohorts_v(v: Seq<Cohort>) -> Seq<CohortV> {
    v.map_values(|c: Cohort| c@)
}

/// The cohort with relation id `id`: the last one with that id (ids are
/// non-zero).
pub open spec fn target_index(cohorts: Seq<CohortV>, id: u32) -> Option<int>
    decreases cohorts.len(),
{
    if id == 0 || cohorts.len() == 0 {
        None
    } else if cohorts.last().id == id {
        Some(cohorts.len() - 1)
    } else {
        target_index(cohorts.drop_last(), id)
    }
}

/// A relation id leads to the last cohort that carries it, and to none
/// where no cohort does (or the id is zero).
pub proof fn lemma_target_index(cohorts: Seq<CohortV>, id: u32)
    ensures
        target_index(cohorts, id) matches Some(i) ==> 0 <= i < cohorts.len() && cohorts[i].id
            == id && id != 0 && forall|j: int| i < j < cohorts.len() ==> #[trigger] cohorts[j].id != id,
        target_index(cohorts, id) is None ==> id == 0 || forall|j: int|
            0 <= j < cohorts.len() ==> #[trigger] cohorts[j].id != id,
    decreases cohorts.len(),
{
    if id != 0 && cohorts.len() > 0 && cohorts.last().id != id {
        let d = cohorts.drop_last();
        lemma_target_index(d, id);
        if let Some(i) = target_index(d, id) {
            assert forall|j: int| i < j < cohorts.len() implies #[trigger] cohorts[j].id != id by {
                if j < d.len() {
                    assert(cohorts[j] == d[j]);
                }
            }
        } else {
            assert forall|j: int| 0 <= j < cohorts.len() implies #[trigger] cohorts[j].id != id by {
                if j < d.len() {
                    assert(cohorts[j] == d[j]);
                }
            }
        }
    }
}

/// The index of the cohort with relation id `id`, looked up in the ids of
/// the cohorts.
pub fn find_target(ids: &HashMap<u32, usize>, cohorts: &Vec<Cohort>, id: u32) -> (r: Option<usize>)
    requires
        ids_indexed(ids@, cohorts_v(cohorts@)),
    ensures
        r matches Some(i) ==> target_index(cohorts_v(cohorts@), id) == Some(i as int),
        r is None ==> target_index(cohorts_v(cohorts@), id) is None,
{
    proof {
        lemma_target_index(cohorts_v(cohorts@), id);
    }
    match ids.get(&id) {
        Some(i) => if *i < cohorts.len() {
            Some(*i)
        } else {
            None
        },
        None => None,
    }
}

/// A marked-up error: the text it covers and its byte span, its error id,
/// its message (title and description) and its replacements.
#[derive(Debug)]
pub struct ErrMark {
    pub form: String,
    pub beg: usize,
    pub end: usize,
    pub err: String,
    pub msg: (String, String),
    pub rep: Vec<String>,
}

pub struct ErrMarkV {
    pub form: Seq<char>,
    pub beg: nat,
    pub end: nat,
    pub err: Seq<char>,
    pub msg: (Seq<char>, Seq<char>),
    pub rep: Seq<Seq<char>>,
}

impl View for ErrMark {
    type V = ErrMarkV;

    open spec fn view(&self) -> ErrMarkV {
        ErrMarkV {
            form: self.form@,
            beg: self.beg as nat,
            end: self.end as nat,
            err: self.err@,
            msg: (self.msg.0@, self.msg.1@),
            rep: strings_view(self.rep@),
        }
    }
}

/// A sentence under markup: its cohorts, its text, the blank after its last
/// cohort and its errors.
#[derive(Debug)]
pub struct Sentence {
    pub cohorts: Vec<Cohort>,
    /// For each relation id, the index of its cohort.
    pub ids_cohorts: HashMap<u32, usize>,
    pub text: String,
    pub raw_final_blank: String,
    pub errs: Vec<ErrMark>,
}

/// The map sends each relation id to the index of the cohort it names
/// (`target_index`), and holds no other id.
pub open spec fn ids_indexed(m: Map<u32, usize>, cohorts: Seq<CohortV>) -> bool {
    forall|id: u32|
        #![trigger m.contains_key(id)]
        #![trigger target_index(cohorts, id)]
        (m.contains_key(id) <==> target_index(cohorts, id) is Some) && (m.contains_key(id) ==> target_index(
            cohorts,
            id,
        ) == Some(m[id] as int))
}

/// The relation ids of a sentence's cohorts, each mapped to the index of the
/// last cohort that carries it; id 0 (no id) is left out.
pub fn index_ids(cohorts: &Vec<Cohort>) -> (m: HashMap<u32, usize>)
    ensures
        ids_indexed(m@, cohorts_v(cohorts@)),
{
    let ghost cv = cohorts_v(cohorts@);
    let mut m: HashMap<u32, usize> = HashMap::new();
    let mut i: usize = 0;
    assert forall|id: u32| target_index(cv.take(0), id) is None by {
        assert(cv.take(0).len() == 0);
    }
    while i < cohorts.len()
        invariant
            i <= cohorts@.len(),
            cv == cohorts_v(cohorts@),
            ids_indexed(m@, cv.take(i as int)),
        decreases cohorts@.len() - i,
    {
        let id = cohorts[i].id;
        let ghost before = m@;
        let ghost t = cv.take(i + 1);
        assert(t.drop_last() =~= cv.take(i as int));
        assert(t.last() == cohorts@[i as int]@);
        if id != 0 {
            m.insert(id, i);
        }
        assert forall|x: u32| #![trigger m@.contains_key(x)] #![trigger target_index(t, x)]
            (m@.contains_key(x) <==> target_index(t, x) is Some) && (m@.contains_key(x) ==> target_index(
            t,
            x,
        ) == Some(m@[x] as int)) by {
            if x != 0 && x == id {
                assert(target_index(t, x) == Some(i as int));
            } else if x != 0 {
                assert(target_index(t, x) == target_index(cv.take(i as int), x));
                assert(before.contains_key(x) == m@.contains_key(x));
            } else {
                assert(target_index(t, x) is None);
                assert(target_index(cv.take(i as int), x) is None);
            }
        }
        i = i + 1;
    }
    assert(cv.take(cohorts@.len() as int) =~= cv);
    m
}

/// The byte positions of a sentence's cohorts leave room for their forms.
pub open spec fn positions_fit(cohorts: Seq<CohortV>) -> bool {
    forall|i: int| 0 <= i < cohorts.len() ==> #[trigger] cohorts[i].pos + utf8_len(cohorts[i].form) <= usize::MAX
}

/// The byte end of a cohort's form.
pub open spec fn form_end(c: CohortV) -> nat {
    c.pos + utf8_len(c.form)
}

/// The UTF-8 length of a string.
pub fn byte_len(s: &str) -> (n: usize)
    requires
        utf8_len(s@) <= usize::MAX,
    ensures
        n == utf8_len(s@),
{
    let v = chars_of(s);
    assert(v@.subrange(0, v@.len() as int) =~= v@);
    crate::text::utf8_len_range(&v, 0, v.len())
}

/// The leftmost and rightmost cohorts of the underline, from (`l`, `r`)
/// stretched to the targets of the underline relations in `rels`.
pub open spec fn bounds_fold(rels: Seq<(Seq<char>, u32)>, cohorts: Seq<CohortV>, l: int, r: int) -> (int, int)
    decreases rels.len(),
{
    if rels.len() == 0 {
        (l, r)
    } else {
        let p = bounds_fold(rels.drop_last(), cohorts, l, r);
        let rel = rels.last();
        if is_squiggle_rel(rel.0) {
            match target_index(cohorts, rel.1) {
                Some(t) => (
                    if t < p.0 {
                        t
                    } else {
                        p.0
                    },
                    if t > p.1 {
                        t
                    } else {
                        p.1
                    },
                ),
                None => p,
            }
        } else {
            p
        }
    }
}

/// The underline of an error on cohort `i`: from the leftmost to the
/// rightmost of it and the targets of its underline relations, kept inside
/// the sentence on the right.
pub open spec fn squiggle(rels: Seq<(Seq<char>, u32)>, cohorts: Seq<CohortV>, i: int) -> (int, int) {
    let p = bounds_fold(rels, cohorts, i, i);
    (
        p.0,
        if p.1 >= cohorts.len() {
            cohorts.len() - 1
        } else {
            p.1
        },
    )
}

/// A relation of `rels` that stretches the underline, and the cohort it
/// leads to.
pub open spec fn squiggle_target(rels: Seq<(Seq<char>, u32)>, cohorts: Seq<CohortV>, k: int, t: int) -> bool {
    0 <= k < rels.len() && is_squiggle_rel(rels[k].0) && target_index(cohorts, rels[k].1) == Some(t)
}

proof fn lemma_bounds_fold_spans(rels: Seq<(Seq<char>, u32)>, cohorts: Seq<CohortV>, l: int, r: int)
    requires
        l <= r,
    ensures
        ({
            let p = bounds_fold(rels, cohorts, l, r);
            &&& p.0 <= l && r <= p.1
            &&& forall|k: int, t: int| #[trigger] squiggle_target(rels, cohorts, k, t) ==> p.0 <= t <= p.1
            &&& p.0 == l || exists|k: int| #[trigger] squiggle_target(rels, cohorts, k, p.0)
            &&& p.1 == r || exists|k: int| #[trigger] squiggle_target(rels, cohorts, k, p.1)
        }),
    decreases rels.len(),
{
    if rels.len() > 0 {
        let d = rels.drop_last();
        lemma_bounds_fold_spans(d, cohorts, l, r);
        let q = bounds_fold(d, cohorts, l, r);
        let p = bounds_fold(rels, cohorts, l, r);
        let n = rels.len() - 1;
        assert(rels.last() == rels[n]);
        assert forall|k: int, t: int| #[trigger] squiggle_target(rels, cohorts, k, t) implies p.0 <= t <= p.1 by {
            if k < n {
                assert(d[k] == rels[k]);
                assert(squiggle_target(d, cohorts, k, t));
            }
        }
        if p.0 != l {
            if p.0 == q.0 {
                let k = choose|k: int| #[trigger] squiggle_target(d, cohorts, k, q.0);
                assert(d[k] == rels[k]);
                assert(squiggle_target(rels, cohorts, k, p.0));
            } else {
                assert(squiggle_target(rels, cohorts, n, p.0));
            }
        }
        if p.1 != r {
            if p.1 == q.1 {
                let k = choose|k: int| #[trigger] squiggle_target(d, cohorts, k, q.1);
                assert(d[k] == rels[k]);
                assert(squiggle_target(rels, cohorts, k, p.1));
            } else {
                assert(squiggle_target(rels, cohorts, n, p.1));
            }
        }
    }
}

/// The underline of an error on cohort `i` runs from the leftmost to the
/// rightmost of that cohort and the targets of its `LEFT`, `RIGHT` and
/// `DELETEn` relations: it holds the cohort and every such target, each end
/// is the cohort or a target, and its right end is kept inside the
/// sentence.
pub proof fn lemma_squiggle_spans_targets(rels: Seq<(Seq<char>, u32)>, cohorts: Seq<CohortV>, i: int)
    requires
        0 <= i < cohorts.len(),
    ensures
        ({
            let b = squiggle(rels, cohorts, i);
            &&& 0 <= b.0 <= i <= b.1 < cohorts.len()
            &&& forall|k: int, t: int| #[trigger] squiggle_target(rels, cohorts, k, t) ==> b.0 <= t <= b.1
            &&& b.0 == i || exists|k: int| #[trigger] squiggle_target(rels, cohorts, k, b.0)
            &&& b.1 == i || exists|k: int| #[trigger] squiggle_target(rels, cohorts, k, b.1)
        }),
{
    lemma_bounds_fold_spans(rels, cohorts, i, i);
    let p = bounds_fold(rels, cohorts, i, i);
    if p.0 != i {
        let k = choose|k: int| #[trigger] squiggle_target(rels, cohorts, k, p.0);
        lemma_target_index(cohorts, rels[k].1);
    }
    if p.1 != i {
        let k = choose|k: int| #[trigger] squiggle_target(rels, cohorts, k, p.1);
        lemma_target_index(cohorts, rels[k].1);
    }
    assert forall|k: int, t: int| #[trigger] squiggle_target(rels, cohorts, k, t) implies t < cohorts.len() by {
        lemma_target_index(cohorts, rels[k].1);
    }
}

/// The left and right bounds of the underline of an error on cohort
/// `i_fallback`, as cohort indices.
pub fn squiggle_bounds(rels: &Vec<(String, u32)>, sentence: &Sentence, i_fallback: usize) -> (b: (
    usize,
    usize,
))
    requires
        ids_indexed(sentence.ids_cohorts@, cohorts_v(sentence.cohorts@)),
        sentence.cohorts@.len() > 0,
    ensures
        b.0 == squiggle(rels_view(rels@), cohorts_v(sentence.cohorts@), i_fallback as int).0,
        b.1 == squiggle(rels_view(rels@), cohorts_v(sentence.cohorts@), i_fallback as int).1,
{
    let ghost rv = rels_view(rels@);
    let ghost cv = cohorts_v(sentence.cohorts@);
    let mut left = i_fallback;
    let mut right = i_fallback;
    let mut k: usize = 0;
    assert(rv.take(0) =~= Seq::<(Seq<char>, u32)>::empty());
    while k < rels.len()
        invariant
            ids_indexed(sentence.ids_cohorts@, cohorts_v(sentence.cohorts@)),
            k <= rels@.len(),
            rv == rels_view(rels@),
            cv == cohorts_v(sentence.cohorts@),
            bounds_fold(rv.take(k as int), cv, i_fallback as int, i_fallback as int) == (
                left as int,
                right as int,
            ),
        decreases rels@.len() - k,
    {
        let rel = &rels[k];
        assert(rv[k as int] == (rel.0@, rel.1));
        if regex_is_match("^(LEFT|RIGHT|DELETE[0-9]*)$", rel.0.as_str()) {
            match find_target(&sentence.ids_cohorts, &sentence.cohorts, rel.1) {
                Some(t) => {
                    proof {
                        lemma_target_index(cv, rel.1);
                        assert(cv[t as int] == sentence.cohorts@[t as int]@);
                    }
                    if sentence.cohorts[t].id != 0 {
                        if t < left {
                            left = t;
                        }
                        if t > right {
                            right = t;
                        }
                    }
                },
                None => {},
            }
        }
        assert(rv.take(k + 1).drop_last() =~= rv.take(k as int));
        k = k + 1;
    }
    assert(rv.take(rels@.len() as int) =~= rv);
    if right >= sentence.cohorts.len() {
        right = sentence.cohorts.len() - 1;
    }
    (left, right)
}

/// The reading carries error id `e`, as an error or a co-error.
pub open spec fn has_errtag(r: ReadingV, e: Seq<char>) -> bool {
    r.errtypes.contains(e) || r.coerrtypes.contains(e)
}

/// The reading changes the text: it adds a word, suggests forms, or its
/// cohort is deleted.
pub open spec fn applies_change(r: ReadingV, deletion: bool) -> bool {
    r.added != AddedStatus::NotAdded || r.sforms.len() > 0 || deletion
}

/// The readings with error id `e` that change the text.
pub open spec fn changing_with(rs: Seq<ReadingV>, e: Seq<char>, deletion: bool) -> Seq<ReadingV>
    decreases rs.len(),
{
    if rs.len() == 0 {
        Seq::empty()
    } else {
        changing_with(rs.drop_last(), e, deletion) + if has_errtag(rs.last(), e) && applies_change(
            rs.last(),
            deletion,
        ) {
            seq![rs.last()]
        } else {
            Seq::empty()
        }
    }
}

/// The readings with error id `e` or with no error ids at all.
pub open spec fn not_other_errtype(rs: Seq<ReadingV>, e: Seq<char>) -> Seq<ReadingV>
    decreases rs.len(),
{
    if rs.len() == 0 {
        Seq::empty()
    } else {
        not_other_errtype(rs.drop_last(), e) + if (rs.last().errtypes.len() == 0
            && rs.last().coerrtypes.len() == 0) || has_errtag(rs.last(), e) {
            seq![rs.last()]
        } else {
            Seq::empty()
        }
    }
}

/// The readings of a cohort that carry error id `e` and change the text; if
/// there are none, those that carry `e` or no error id.
pub open spec fn readings_for(rs: Seq<ReadingV>, e: Seq<char>, deletion: bool) -> Seq<ReadingV> {
    let f = changing_with(rs, e, deletion);
    if f.len() == 0 {
        not_other_errtype(rs, e)
    } else {
        f
    }
}

/// Whether the set `v` holds `x`.
pub fn contains_string(v: &Vec<String>, x: &str) -> (r: bool)
    ensures
        r == strings_view(v@).contains(x@),
{
    let mut i: usize = 0;
    while i < v.len()
        invariant
            i <= v@.len(),
            forall|j: int| 0 <= j < i ==> v@[j]@ != x@,
        decreases v@.len() - i,
    {
        if str_eq(v[i].as_str(), x) {
            assert(strings_view(v@)[i as int] == x@);
            return true;
        }
        i = i + 1;
    }
    assert(!strings_view(v@).contains(x@)) by {
        if strings_view(v@).contains(x@) {
            let j = choose|j: int| 0 <= j < v@.len() && strings_view(v@)[j] == x@;
            assert(v@[j]@ == x@);
        }
    }
    false
}

/// A copy of a list of strings.
pub fn copy_strings(v: &Vec<String>) -> (r: Vec<String>)
    ensures
        strings_view(r@) == strings_view(v@),
{
    let mut r: Vec<String> = Vec::new();
    append_strings(&mut r, v);
    assert(strings_view(r@) =~= strings_view(v@));
    r
}

/// A copy of a relation map.
pub fn copy_rels(v: &Vec<(String, u32)>) -> (r: Vec<(String, u32)>)
    ensures
        rels_view(r@) == rels_view(v@),
{
    let mut r: Vec<(String, u32)> = Vec::new();
    let mut i: usize = 0;
    while i < v.len()
        invariant
            i <= v@.len(),
            rels_view(r@) == rels_view(v@).take(i as int),
        decreases v@.len() - i,
    {
        let p = (v[i].0.clone(), v[i].1);
        assert(rels_view(v@)[i as int] == (p.0@, p.1));
        let ghost before = r@;
        r.push(p);
        assert(rels_view(r@) =~= rels_view(before).push((p.0@, p.1)));
        assert(rels_view(v@).take(i + 1) =~= rels_view(v@).take(i as int).push((p.0@, p.1)));
        assert(rels_view(r@) =~= rels_view(v@).take(i + 1));
        i = i + 1;
    }
    assert(rels_view(v@).take(v@.len() as int) =~= rels_view(v@));
    r
}

impl Reading {
    /// A copy of the reading.
    pub fn copy(&self) -> (r: Reading)
        ensures
            r@ == self@,
    {
        Reading {
            suggest: self.suggest,
            ana: self.ana.clone(),
            errtypes: copy_strings(&self.errtypes),
            coerrtypes: copy_strings(&self.coerrtypes),
            sforms: copy_strings(&self.sforms),
            rels: copy_rels(&self.rels),
            id: self.id,
            wf: self.wf.clone(),
            suggestwf: self.suggestwf,
            coerror: self.coerror,
            added: self.added,
            fixedcase: self.fixedcase,
            drop_pre_blank: self.drop_pre_blank,
        }
    }

    /// Whether the reading carries error id `e`.
    pub fn has_errtag(&self, e: &str) -> (b: bool)
        ensures
            b == has_errtag(self@, e@),
    {
        contains_string(&self.errtypes, e) || contains_string(&self.coerrtypes, e)
    }
}

/// The readings of cohort `trg` that the replacement for error `err_id`
/// goes by.
pub fn readings_with_errtype(trg: &Cohort, err_id: &str, applies_deletion: bool) -> (r: Vec<Reading>)
    ensures
        readings_v(r@) == readings_for(trg@.readings, err_id@, applies_deletion),
{
    let ghost rs = trg@.readings;
    let mut filtered: Vec<Reading> = Vec::new();
    let mut i: usize = 0;
    assert(rs.take(0) =~= Seq::<ReadingV>::empty());
    while i < trg.readings.len()
        invariant
            i <= trg.readings@.len(),
            rs == trg@.readings,
            readings_v(filtered@) == changing_with(rs.take(i as int), err_id@, applies_deletion),
        decreases trg.readings@.len() - i,
    {
        let tr = &trg.readings[i];
        assert(rs[i as int] == tr@);
        let has = tr.has_errtag(err_id);
        let change = tr.added != AddedStatus::NotAdded || tr.sforms.len() > 0 || applies_deletion;
        let ghost before = filtered@;
        if has && change {
            filtered.push(tr.copy());
        }
        assert(rs.take(i + 1).drop_last() =~= rs.take(i as int));
        assert(readings_v(filtered@) =~= changing_with(rs.take(i + 1), err_id@, applies_deletion));
        i = i + 1;
    }
    assert(rs.take(trg.readings@.len() as int) =~= rs);
    if filtered.len() > 0 {
        return filtered;
    }
    let mut others: Vec<Reading> = Vec::new();
    let mut i: usize = 0;
    while i < trg.readings.len()
        invariant
            i <= trg.readings@.len(),
            rs == trg@.readings,
            readings_v(others@) == not_other_errtype(rs.take(i as int), err_id@),
        decreases trg.readings@.len() - i,
    {
        let tr = &trg.readings[i];
        assert(rs[i as int] == tr@);
        let keep = (tr.errtypes.len() == 0 && tr.coerrtypes.len() == 0) || tr.has_errtag(err_id);
        if keep {
            others.push(tr.copy());
        }
        assert(rs.take(i + 1).drop_last() =~= rs.take(i as int));
        assert(readings_v(others@) =~= not_other_errtype(rs.take(i + 1), err_id@));
        i = i + 1;
    }
    assert(rs.take(trg.readings@.len() as int) =~= rs);
    others
}

/// Whether the replacement for error `e` deletes cohort `trg`: it is a
/// deletion target; and where the source has several error ids, `trg` has a
/// reading with `e`, or shares no error id with the source at all.
pub open spec fn deletes(trg: CohortV, e: Seq<char>, src_errtypes: Seq<Seq<char>>, deletions: Seq<u32>) -> bool {
    if !deletions.contains(trg.id) {
        false
    } else if src_errtypes.len() < 2 {
        true
    } else if exists|k: int| 0 <= k < trg.readings.len() && has_errtag(#[trigger] trg.readings[k], e) {
        true
    } else {
        !exists|x: Seq<char>|
            (trg.errtypes.contains(x) || trg.coerrtypes.contains(x)) && #[trigger] src_errtypes.contains(x)
    }
}

/// Whether the replacement for error `err_id` deletes cohort `trg`.
pub fn do_delete(trg: &Cohort, err_id: &str, src_errtypes: &Vec<String>, deletions: &Vec<u32>) -> (b: bool)
    ensures
        b == deletes(trg@, err_id@, strings_view(src_errtypes@), deletions@),
{
    let mut found = false;
    let mut i: usize = 0;
    while i < deletions.len()
        invariant
            i <= deletions@.len(),
            found == deletions@.take(i as int).contains(trg.id),
        decreases deletions@.len() - i,
    {
        if deletions[i] == trg.id {
            found = true;
        }
        proof {
            let t = deletions@.take(i + 1);
            assert(t.drop_last() =~= deletions@.take(i as int));
            if t.contains(trg.id) {
                let j = choose|j: int| 0 <= j < t.len() && t[j] == trg.id;
                if j < i {
                    assert(deletions@.take(i as int)[j] == trg.id);
                }
            }
            if deletions@.take(i as int).contains(trg.id) {
                let j = choose|j: int| 0 <= j < i && deletions@.take(i as int)[j] == trg.id;
                assert(t[j] == trg.id);
            }
            if deletions@[i as int] == trg.id {
                assert(t[i as int] == trg.id);
            }
        }
        i = i + 1;
    }
    assert(deletions@.take(deletions@.len() as int) =~= deletions@);
    if !found {
        return false;
    }
    if src_errtypes.len() < 2 {
        return true;
    }
    let mut k: usize = 0;
    while k < trg.readings.len()
        invariant
            k <= trg.readings@.len(),
            deletions@.contains(trg.id),
            src_errtypes@.len() >= 2,
            forall|j: int| 0 <= j < k ==> !has_errtag(#[trigger] trg@.readings[j], err_id@),
        decreases trg.readings@.len() - k,
    {
        assert(trg@.readings[k as int] == trg.readings@[k as int]@);
        if trg.readings[k].has_errtag(err_id) {
            return true;
        }
        k = k + 1;
    }
    let mut m: usize = 0;
    while m < src_errtypes.len()
        invariant
            m <= src_errtypes@.len(),
            deletions@.contains(trg.id),
            src_errtypes@.len() >= 2,
            forall|j: int| 0 <= j < trg@.readings.len() ==> !has_errtag(#[trigger] trg@.readings[j], err_id@),
            forall|j: int|
                0 <= j < m ==> !(trg@.errtypes.contains(#[trigger] strings_view(src_errtypes@)[j])
                    || trg@.coerrtypes.contains(strings_view(src_errtypes@)[j])),
        decreases src_errtypes@.len() - m,
    {
        let x = src_errtypes[m].as_str();
        assert(strings_view(src_errtypes@)[m as int] == x@);
        if contains_string(&trg.errtypes, x) || contains_string(&trg.coerrtypes, x) {
            assert(strings_view(src_errtypes@).contains(x@));
            return false;
        }
        m = m + 1;
    }
    assert(!exists|x: Seq<char>|
        (trg@.errtypes.contains(x) || trg@.coerrtypes.contains(x)) && #[trigger] strings_view(
            src_errtypes@,
        ).contains(x)) by {
        if exists|x: Seq<char>|
            (trg@.errtypes.contains(x) || trg@.coerrtypes.contains(x)) && #[trigger] strings_view(
                src_errtypes@,
            ).contains(x) {
            let x = choose|x: Seq<char>|
                (trg@.errtypes.contains(x) || trg@.coerrtypes.contains(x)) && #[trigger] strings_view(
                    src_errtypes@,
                ).contains(x);
            let j = choose|j: int| 0 <= j < src_errtypes@.len() && strings_view(src_errtypes@)[j] == x;
            assert(!(trg@.errtypes.contains(strings_view(src_errtypes@)[j]) || trg@.coerrtypes.contains(
                strings_view(src_errtypes@)[j],
            )));
        }
    }
    true
}

/// The text so far of `s` with its runs of whitespace squashed, and whether
/// a space is owed before the next word.
pub open spec fn squash_fold(s: Seq<char>) -> (Seq<char>, bool)
    decreases s.len(),
{
    if s.len() == 0 {
        (Seq::empty(), false)
    } else {
        let p = squash_fold(s.drop_last());
        let c = s.last();
        if is_ws(c) {
            (p.0, p.0.len() > 0)
        } else {
            (
                if p.1 {
                    p.0.push(' ')
                } else {
                    p.0
                }.push(c),
                false,
            )
        }
    }
}

/// The words of `s` (split at whitespace) joined by single spaces.
pub open spec fn squashed(s: Seq<char>) -> Seq<char> {
    squash_fold(s).0
}

/// `s.split_whitespace().collect::<Vec<_>>().join(" ")`.
pub fn squash_ws(s: &str) -> (r: String)
    ensures
        r@ == squashed(s@),
{
    let v = chars_of(s);
    let mut out = String::new();
    let mut pending = false;
    let mut i: usize = 0;
    assert(s@.take(0) =~= Seq::<char>::empty());
    while i < v.len()
        invariant
            i <= v@.len(),
            v@ == s@,
            squash_fold(s@.take(i as int)) == (out@, pending),
        decreases v@.len() - i,
    {
        let c = v[i];
        if is_whitespace(c) {
            pending = out.as_str().unicode_len() > 0;
        } else {
            if pending {
                push_char(&mut out, ' ');
            }
            push_char(&mut out, c);
            pending = false;
        }
        assert(s@.take(i + 1).drop_last() =~= s@.take(i as int));
        i = i + 1;
    }
    assert(s@.take(v@.len() as int) =~= s@);
    out
}

/// What the readings of one target cohort give its replacement: where its
/// span starts and ends, whether its blank is dropped, and its forms.
pub struct TrgV {
    pub tb: int,
    pub te: int,
    pub abb: bool,
    pub forms: Seq<Seq<char>>,
}

pub open spec fn cased_all(fixedcase: bool, casing: Casing, forms: Seq<Seq<char>>) -> Seq<Seq<char>> {
    forms.map_values(|sf: Seq<char>| cased(fixedcase, casing, sf))
}

/// One reading of target cohort `i`: a word added before the blank moves
/// the span's start to the end of the previous cohort (and is ignored on the
/// first cohort), an added word spans nothing, and unless the cohort is
/// deleted its suggestions, in the cohort's casing, are its forms.
pub open spec fn tr_step(st: TrgV, tr: ReadingV, cohorts: Seq<CohortV>, i: int, del: bool, casing: Casing) -> TrgV {
    if tr.added == AddedStatus::AddedBeforeBlank && i == 0 {
        st
    } else {
        let tb = if tr.added == AddedStatus::AddedBeforeBlank {
            form_end(cohorts[i - 1]) as int
        } else {
            st.tb
        };
        TrgV {
            tb,
            te: if tr.added != AddedStatus::NotAdded {
                tb
            } else {
                st.te
            },
            abb: st.abb || tr.added == AddedStatus::AddedBeforeBlank || tr.drop_pre_blank,
            forms: if del {
                st.forms
            } else {
                st.forms + cased_all(tr.fixedcase, casing, tr.sforms)
            },
        }
    }
}

pub open spec fn tr_fold(trs: Seq<ReadingV>, init: TrgV, cohorts: Seq<CohortV>, i: int, del: bool, casing: Casing) -> TrgV
    decreases trs.len(),
{
    if trs.len() == 0 {
        init
    } else {
        tr_step(tr_fold(trs.drop_last(), init, cohorts, i, del, casing), trs.last(), cohorts, i, del, casing)
    }
}

/// What error `e` of cohort `src` does to target cohort `i`, given the
/// deletion targets and whether the source's own deletion applies.
pub open spec fn trg_info(cohorts: Seq<CohortV>, i: int, e: Seq<char>, src: CohortV, dels: Seq<u32>, src_applies: bool) -> TrgV {
    let trg = cohorts[i];
    let del = deletes(trg, e, src.errtypes, dels);
    let init = TrgV {
        tb: trg.pos as int,
        te: form_end(trg) as int,
        abb: false,
        forms: if del {
            seq![Seq::empty()]
        } else {
            Seq::empty()
        },
    };
    tr_fold(
        readings_for(trg.readings, e, trg.id == src.id && src_applies),
        init,
        cohorts,
        i,
        del,
        casing_of(trg.form),
    )
}

/// Each replacement so far continued with the blank `pre` and each form of
/// the target; with no forms, with the target's own word form, unless the
/// replacement already ends with it (ignoring case and trailing space).
pub open spec fn extended_reps(reps: Seq<Seq<char>>, pre: Seq<char>, form: Seq<char>, forms: Seq<Seq<char>>) -> Seq<Seq<char>>
    decreases reps.len(),
{
    if reps.len() == 0 {
        Seq::empty()
    } else {
        let rep = reps.last();
        extended_reps(reps.drop_last(), pre, form, forms) + if forms.len() == 0 {
            if ends(lowercased(trim_end(rep)), lowercased(form)) {
                seq![rep]
            } else {
                seq![rep + pre + form]
            }
        } else {
            forms.map_values(|f: Seq<char>| rep + pre + f)
        }
    }
}

/// Continues each replacement with a target cohort.
pub fn extend_reps(reps: &Vec<String>, pre: &str, form: &str, forms: &Vec<String>) -> (r: Vec<String>)
    ensures
        strings_view(r@) == extended_reps(strings_view(reps@), pre@, form@, strings_view(forms@)),
{
    let ghost rv = strings_view(reps@);
    let ghost fv = strings_view(forms@);
    let lform = to_lowercase(form);
    let mut out: Vec<String> = Vec::new();
    let mut k: usize = 0;
    assert(rv.take(0) =~= Seq::<Seq<char>>::empty());
    while k < reps.len()
        invariant
            k <= reps@.len(),
            rv == strings_view(reps@),
            fv == strings_view(forms@),
            lform@ == lowercased(form@),
            strings_view(out@) == extended_reps(rv.take(k as int), pre@, form@, fv),
        decreases reps@.len() - k,
    {
        let rep = reps[k].as_str();
        assert(rv[k as int] == rep@);
        assert(rv.take(k + 1).drop_last() =~= rv.take(k as int));
        assert(rv.take(k + 1).last() == rep@);
        let ghost before = strings_view(out@);
        if forms.len() == 0 {
            let rc = chars_of(rep);
            let n = count_trail_ws(&rc, 0, rc.len());
            assert(rc@.subrange(0, rc@.len() as int) =~= rc@);
            proof {
                lemma_trail_ws(rc@);
            }
            let trimmed = string_of(&rc, 0, rc.len() - n);
            assert(trimmed@ =~= trim_end(rep@));
            let lrep = to_lowercase(trimmed.as_str());
            let lv = chars_of(lrep.as_str());
            if ends_str(&lv, lform.as_str()) {
                out.push(rep.to_string());
                assert(strings_view(out@) =~= before + seq![rep@]);
            } else {
                let mut x = rep.to_string();
                push_str(&mut x, pre);
                push_str(&mut x, form);
                out.push(x);
                assert(strings_view(out@) =~= before + seq![rep@ + pre@ + form@]);
            }
        } else {
            let mut j: usize = 0;
            while j < forms.len()
                invariant
                    j <= forms@.len(),
                    fv == strings_view(forms@),
                    strings_view(out@) == before + fv.take(j as int).map_values(
                        |f: Seq<char>| rep@ + pre@ + f,
                    ),
                decreases forms@.len() - j,
            {
                let mut x = rep.to_string();
                push_str(&mut x, pre);
                push_str(&mut x, forms[j].as_str());
                assert(fv[j as int] == forms@[j as int]@);
                let ghost b2 = strings_view(out@);
                out.push(x);
                assert(strings_view(out@) =~= b2.push(x@));
                assert(fv.take(j + 1).map_values(|f: Seq<char>| rep@ + pre@ + f) =~= fv.take(
                    j as int,
                ).map_values(|f: Seq<char>| rep@ + pre@ + f).push(rep@ + pre@ + fv[j as int]));
                j = j + 1;
            }
            assert(fv.take(forms@.len() as int) =~= fv);
        }
        k = k + 1;
    }
    assert(rv.take(reps@.len() as int) =~= rv);
    out
}

/// The cohort ids that the deletion relations in `rels` target, and
/// whether one of those targets carries error id `e` itself.
pub open spec fn deletion_fold(rels: Seq<(Seq<char>, u32)>, cohorts: Seq<CohortV>, e: Seq<char>) -> (Seq<u32>, bool)
    decreases rels.len(),
{
    if rels.len() == 0 {
        (Seq::empty(), false)
    } else {
        let p = deletion_fold(rels.drop_last(), cohorts, e);
        let rel = rels.last();
        if is_delete_rel(rel.0) {
            match target_index(cohorts, rel.1) {
                Some(t) => (
                    p.0.push(cohorts[t].id),
                    p.1 || cohorts[t].errtypes.contains(e) || cohorts[t].coerrtypes.contains(e),
                ),
                None => p,
            }
        } else {
            p
        }
    }
}

/// The deletion targets of a reading's relations, and whether its error
/// `err_id` is on one of them.
pub fn deletion_targets(rels: &Vec<(String, u32)>, sentence: &Sentence, err_id: &str) -> (d: (Vec<u32>, bool))
    requires
        ids_indexed(sentence.ids_cohorts@, cohorts_v(sentence.cohorts@)),
    ensures
        (d.0@, d.1) == deletion_fold(rels_view(rels@), cohorts_v(sentence.cohorts@), err_id@),
{
    let ghost rv = rels_view(rels@);
    let ghost cv = cohorts_v(sentence.cohorts@);
    let mut dels: Vec<u32> = Vec::new();
    let mut applies = false;
    let mut k: usize = 0;
    assert(rv.take(0) =~= Seq::<(Seq<char>, u32)>::empty());
    assert(dels@ =~= Seq::<u32>::empty());
    while k < rels.len()
        invariant
            ids_indexed(sentence.ids_cohorts@, cohorts_v(sentence.cohorts@)),
            k <= rels@.len(),
            rv == rels_view(rels@),
            cv == cohorts_v(sentence.cohorts@),
            deletion_fold(rv.take(k as int), cv, err_id@) == (dels@, applies),
        decreases rels@.len() - k,
    {
        let rel = &rels[k];
        assert(rv[k as int] == (rel.0@, rel.1));
        if regex_is_match("^DELETE[0-9]*$", rel.0.as_str()) {
            match find_target(&sentence.ids_cohorts, &sentence.cohorts, rel.1) {
                Some(t) => {
                    proof {
                        lemma_target_index(cv, rel.1);
                        assert(cv[t as int] == sentence.cohorts@[t as int]@);
                    }
                    let trg = &sentence.cohorts[t];
                    dels.push(trg.id);
                    if contains_string(&trg.errtypes, err_id) || contains_string(&trg.coerrtypes, err_id) {
                        applies = true;
                    }
                },
                None => {},
            }
        }
        assert(rv.take(k + 1).drop_last() =~= rv.take(k as int));
        k = k + 1;
    }
    assert(rv.take(rels@.len() as int) =~= rv);
    (dels, applies)
}

/// What the readings of target cohort `i` give the replacement for error
/// `err_id` of cohort `src`: span start and end, whether the blank before it
/// is dropped, and its forms.
pub fn target_info(sentence: &Sentence, i: usize, err_id: &str, src: &Cohort, dels: &Vec<u32>, src_applies: bool) -> (t: (usize, usize, bool, Vec<String>))
    requires
        i < sentence.cohorts@.len(),
        positions_fit(cohorts_v(sentence.cohorts@)),
    ensures
        t.0 == trg_info(cohorts_v(sentence.cohorts@), i as int, err_id@, src@, dels@, src_applies).tb,
        t.1 == trg_info(cohorts_v(sentence.cohorts@), i as int, err_id@, src@, dels@, src_applies).te,
        t.2 == trg_info(cohorts_v(sentence.cohorts@), i as int, err_id@, src@, dels@, src_applies).abb,
        strings_view(t.3@) == trg_info(cohorts_v(sentence.cohorts@), i as int, err_id@, src@, dels@, src_applies).forms,
{
    let ghost cv = cohorts_v(sentence.cohorts@);
    let trg = &sentence.cohorts[i];
    assert(cv[i as int] == trg@);
    assert(cv[i as int].pos + utf8_len(cv[i as int].form) <= usize::MAX);
    let casing = get_casing(trg.form.as_str());
    let del = do_delete(trg, err_id, &src.errtypes, dels);
    let applies_deletion = trg.id == src.id && src_applies;
    let mut forms: Vec<String> = Vec::new();
    if del {
        forms.push(String::new());
    }
    let mut added_before_blank = false;
    let mut trg_beg = trg.pos;
    let mut trg_end = trg.pos + byte_len(trg.form.as_str());
    let trs = readings_with_errtype(trg, err_id, applies_deletion);
    let ghost tv = readings_v(trs@);
    let ghost init = TrgV {
        tb: trg@.pos as int,
        te: form_end(trg@) as int,
        abb: false,
        forms: if del {
            seq![Seq::<char>::empty()]
        } else {
            Seq::empty()
        },
    };
    assert(strings_view(forms@) =~= init.forms);
    assert(tv.take(0) =~= Seq::<ReadingV>::empty());
    let mut k: usize = 0;
    while k < trs.len()
        invariant
            k <= trs@.len(),
            i < sentence.cohorts@.len(),
            cv == cohorts_v(sentence.cohorts@),
            positions_fit(cv),
            tv == readings_v(trs@),
            tr_fold(tv.take(k as int), init, cv, i as int, del, casing) == (TrgV {
                tb: trg_beg as int,
                te: trg_end as int,
                abb: added_before_blank,
                forms: strings_view(forms@),
            }),
        decreases trs@.len() - k,
    {
        let tr = &trs[k];
        assert(tv[k as int] == tr@);
        assert(tv.take(k + 1).drop_last() =~= tv.take(k as int));
        if tr.added == AddedStatus::AddedBeforeBlank && i == 0 {
        } else {
            if tr.added == AddedStatus::AddedBeforeBlank {
                let pre = &sentence.cohorts[i - 1];
                assert(cv[i - 1] == pre@);
                assert(cv[i - 1].pos + utf8_len(cv[i - 1].form) <= usize::MAX);
                trg_beg = pre.pos + byte_len(pre.form.as_str());
                added_before_blank = true;
            }
            added_before_blank = added_before_blank || tr.drop_pre_blank;
            if tr.added != AddedStatus::NotAdded {
                trg_end = trg_beg;
            }
            if !del {
                let ghost before = strings_view(forms@);
                let mut j: usize = 0;
                while j < tr.sforms.len()
                    invariant
                        j <= tr.sforms@.len(),
                        strings_view(forms@) == before + cased_all(
                            tr@.fixedcase,
                            casing,
                            tr@.sforms.take(j as int),
                        ),
                    decreases tr.sforms@.len() - j,
                {
                    let x = with_casing(tr.fixedcase, casing, tr.sforms[j].as_str());
                    assert(tr@.sforms[j as int] == tr.sforms@[j as int]@);
                    let ghost b2 = strings_view(forms@);
                    forms.push(x);
                    assert(strings_view(forms@) =~= b2.push(x@));
                    assert(cased_all(tr@.fixedcase, casing, tr@.sforms.take(j + 1)) =~= cased_all(
                        tr@.fixedcase,
                        casing,
                        tr@.sforms.take(j as int),
                    ).push(x@));
                    j = j + 1;
                }
                assert(tr@.sforms.take(tr.sforms@.len() as int) =~= tr@.sforms);
            }
        }
        k = k + 1;
    }
    assert(tv.take(trs@.len() as int) =~= tv);
    (trg_beg, trg_end, added_before_blank, forms)
}

/// The replacements built so far, the blank owed from a word added before
/// its blank, and the span so far.
pub struct RepV {
    pub reps: Seq<Seq<char>>,
    pub prev: Seq<char>,
    pub beg: int,
    pub end: int,
}

/// The replacements after the first `n` target cohorts from `i_left`.
pub open spec fn rep_fold(
    n: nat,
    i_left: int,
    cohorts: Seq<CohortV>,
    e: Seq<char>,
    src: CohortV,
    dels: Seq<u32>,
    src_applies: bool,
    orig_beg: int,
    orig_end: int,
) -> RepV
    decreases n,
{
    if n == 0 {
        RepV { reps: seq![Seq::empty()], prev: Seq::empty(), beg: orig_beg, end: orig_end }
    } else {
        let st = rep_fold((n - 1) as nat, i_left, cohorts, e, src, dels, src_applies, orig_beg, orig_end);
        let i = i_left + n - 1;
        let t = trg_info(cohorts, i, e, src, dels, src_applies);
        let trg = cohorts[i];
        let pre = if i == i_left || t.abb {
            Seq::empty()
        } else {
            cleaned_blank(st.prev + trg.raw_pre_blank)
        };
        RepV {
            reps: extended_reps(st.reps, pre, trg.form, t.forms),
            prev: if t.abb {
                trg.raw_pre_blank
            } else {
                Seq::empty()
            },
            beg: if t.tb < st.beg {
                t.tb
            } else {
                st.beg
            },
            end: if t.te > st.end {
                t.te
            } else {
                st.end
            },
        }
    }
}

/// The span and replacements of error `e` of cohort `src`, through the
/// reading with relations `rels`, over target cohorts `i_left..=i_right`:
/// each replacement has its whitespace squashed.
pub open spec fn replacement(
    rels: Seq<(Seq<char>, u32)>,
    e: Seq<char>,
    src: CohortV,
    cohorts: Seq<CohortV>,
    orig_beg: int,
    orig_end: int,
    i_left: int,
    i_right: int,
) -> ((int, int), Seq<Seq<char>>) {
    let d = deletion_fold(rels, cohorts, e);
    let n: nat = if i_left <= i_right {
        (i_right - i_left + 1) as nat
    } else {
        0
    };
    let st = rep_fold(n, i_left, cohorts, e, src, d.0, d.1, orig_beg, orig_end);
    ((st.beg, st.end), st.reps.map_values(|r: Seq<char>| squashed(r)))
}

/// The span and replacements of error `err_id` of cohort `src`, through its
/// reading `r`, over the target cohorts `i_left..=i_right`.
pub fn build_squiggle_replacement(
    r: &Reading,
    err_id: &str,
    src: &Cohort,
    sentence: &Sentence,
    orig_beg: usize,
    orig_end: usize,
    i_left: usize,
    i_right: usize,
) -> (res: Option<((usize, usize), Vec<String>)>)
    requires
        ids_indexed(sentence.ids_cohorts@, cohorts_v(sentence.cohorts@)),
        i_left <= i_right ==> i_right < sentence.cohorts@.len(),
        positions_fit(cohorts_v(sentence.cohorts@)),
    ensures
        res matches Some(p) && ({
            let want = replacement(
                r@.rels,
                err_id@,
                src@,
                cohorts_v(sentence.cohorts@),
                orig_beg as int,
                orig_end as int,
                i_left as int,
                i_right as int,
            );
            &&& p.0.0 == want.0.0
            &&& p.0.1 == want.0.1
            &&& strings_view(p.1@) == want.1
        }),
{
    let ghost cv = cohorts_v(sentence.cohorts@);
    let (dels, src_applies) = deletion_targets(&r.rels, sentence, err_id);
    let mut beg = orig_beg;
    let mut end = orig_end;
    let mut reps: Vec<String> = Vec::new();
    reps.push(String::new());
    let mut prev_added_before_blank = String::new();
    assert(strings_view(reps@) =~= seq![Seq::<char>::empty()]);
    let ghost d0 = dels@;
    if i_left <= i_right {
        let mut i = i_left;
        while i <= i_right
            invariant
                i_left <= i <= i_right + 1,
                i_right < sentence.cohorts.len(),
                cv == cohorts_v(sentence.cohorts@),
                positions_fit(cv),
                d0 == dels@,
                rep_fold(
                    (i - i_left) as nat,
                    i_left as int,
                    cv,
                    err_id@,
                    src@,
                    d0,
                    src_applies,
                    orig_beg as int,
                    orig_end as int,
                ) == (RepV {
                    reps: strings_view(reps@),
                    prev: prev_added_before_blank@,
                    beg: beg as int,
                    end: end as int,
                }),
            decreases i_right + 1 - i,
        {
            let (trg_beg, trg_end, added_before_blank, forms) = target_info(
                sentence,
                i,
                err_id,
                src,
                &dels,
                src_applies,
            );
            let trg = &sentence.cohorts[i];
            assert(cv[i as int] == trg@);
            if trg_beg < beg {
                beg = trg_beg;
            }
            if trg_end > end {
                end = trg_end;
            }
            let pre_blank = if i == i_left || added_before_blank {
                String::new()
            } else {
                let mut raw = prev_added_before_blank.clone();
                push_str(&mut raw, trg.raw_pre_blank.as_str());
                clean_blank(raw.as_str())
            };
            reps = extend_reps(&reps, pre_blank.as_str(), trg.form.as_str(), &forms);
            prev_added_before_blank = if added_before_blank {
                trg.raw_pre_blank.clone()
            } else {
                String::new()
            };
            assert((i + 1 - i_left) as nat - 1 == (i - i_left) as nat);
            i = i + 1;
        }
    }
    let ghost before = strings_view(reps@);
    let mut out: Vec<String> = Vec::new();
    let mut k: usize = 0;
    while k < reps.len()
        invariant
            k <= reps@.len(),
            before == strings_view(reps@),
            strings_view(out@) == before.take(k as int).map_values(|r: Seq<char>| squashed(r)),
        decreases reps@.len() - k,
    {
        let x = squash_ws(reps[k].as_str());
        assert(before[k as int] == reps@[k as int]@);
        let ghost b2 = strings_view(out@);
        out.push(x);
        assert(strings_view(out@) =~= b2.push(x@));
        assert(before.take(k + 1).map_values(|r: Seq<char>| squashed(r)) =~= before.take(
            k as int,
        ).map_values(|r: Seq<char>| squashed(r)).push(squashed(before[k as int])));
        k = k + 1;
    }
    assert(before.take(reps@.len() as int) =~= before);
    Some(((beg, end), out))
}

/// An error id as `errors.json` names it: an explicit id, or a regular
/// expression over ids.
#[derive(Debug, PartialEq, Eq, Hash)]
pub enum Id {
    Explicit(String),
    Regex(String),
}

pub open spec fn id_matches(id: Id, tag: Seq<char>) -> bool {
    match id {
        Id::Explicit(v) => v@ == tag,
        Id::Regex(p) => regex_matches(p@, tag),
    }
}

impl Id {
    /// Whether the id names error `tag`.
    pub fn matches(&self, tag: &str) -> (b: bool)
        ensures
            b == id_matches(*self, tag@),
    {
        match self {
            Id::Explicit(v) => str_eq(v.as_str(), tag),
            Id::Regex(p) => regex_is_match(p.as_str(), tag),
        }
    }
}

/// A set of error ids.
#[derive(Debug)]
pub struct IdSet {
    pub ids: Vec<Id>,
}

pub open spec fn set_matches(ids: Seq<Id>, tag: Seq<char>) -> bool {
    exists|k: int| 0 <= k < ids.len() && id_matches(#[trigger] ids[k], tag)
}

impl IdSet {
    /// The empty set.
    pub fn new() -> (s: IdSet)
        ensures
            s.ids@.len() == 0,
    {
        IdSet { ids: Vec::new() }
    }

    /// Whether an id of the set names error `id_str`.
    pub fn matches(&self, id_str: &str) -> (b: bool)
        ensures
            b == set_matches(self.ids@, id_str@),
    {
        let mut k: usize = 0;
        while k < self.ids.len()
            invariant
                k <= self.ids@.len(),
                forall|j: int| 0 <= j < k ==> !id_matches(#[trigger] self.ids@[j], id_str@),
            decreases self.ids@.len() - k,
        {
            if self.ids[k].matches(id_str) {
                return true;
            }
            k = k + 1;
        }
        false
    }

    /// Whether the set is empty.
    pub fn is_empty(&self) -> (b: bool)
        ensures
            b == (self.ids@.len() == 0),
    {
        self.ids.len() == 0
    }
}

/// `s` without `x`.
pub open spec fn seq_without(s: Seq<Seq<char>>, x: Seq<char>) -> Seq<Seq<char>>
    decreases s.len(),
{
    if s.len() == 0 {
        Seq::empty()
    } else {
        seq_without(s.drop_last(), x) + if s.last() == x {
            Seq::empty()
        } else {
            seq![s.last()]
        }
    }
}

/// The error types `src` moved from errors to co-errors, in turn: each one
/// that is an error becomes a co-error instead.
pub open spec fn demote_fold(src: Seq<Seq<char>>, errs: Seq<Seq<char>>, coerrs: Seq<Seq<char>>) -> (Seq<Seq<char>>, Seq<Seq<char>>)
    decreases src.len(),
{
    if src.len() == 0 {
        (errs, coerrs)
    } else {
        let p = demote_fold(src.drop_last(), errs, coerrs);
        let x = src.last();
        if p.0.contains(x) {
            (seq_without(p.0, x), set_insert(p.1, x))
        } else {
            p
        }
    }
}

/// Removing what is not there changes nothing.
pub proof fn lemma_without_absent(s: Seq<Seq<char>>, x: Seq<char>)
    requires
        !s.contains(x),
    ensures
        seq_without(s, x) == s,
    decreases s.len(),
{
    if s.len() > 0 {
        assert(!s.drop_last().contains(x)) by {
            if s.drop_last().contains(x) {
                let j = choose|j: int| 0 <= j < s.len() - 1 && s.drop_last()[j] == x;
                assert(s[j] == x);
            }
        }
        lemma_without_absent(s.drop_last(), x);
        assert(s.last() != x);
        assert(s.drop_last() + seq![s.last()] =~= s);
    }
}

/// Removes `x` from the set `v`; says whether it was there.
pub fn remove_name(v: &mut Vec<String>, x: &str) -> (b: bool)
    ensures
        b == strings_view(old(v)@).contains(x@),
        strings_view(final(v)@) == seq_without(strings_view(old(v)@), x@),
{
    let ghost start = strings_view(v@);
    let mut out: Vec<String> = Vec::new();
    let mut found = false;
    let mut i: usize = 0;
    assert(start.take(0) =~= Seq::<Seq<char>>::empty());
    while i < v.len()
        invariant
            i <= v@.len(),
            start == strings_view(v@),
            strings_view(out@) == seq_without(start.take(i as int), x@),
            found == start.take(i as int).contains(x@),
        decreases v@.len() - i,
    {
        let ghost t = start.take(i + 1);
        assert(t.drop_last() =~= start.take(i as int));
        assert(start[i as int] == v@[i as int]@);
        assert(t.last() == v@[i as int]@);
        let ghost before = strings_view(out@);
        if str_eq(v[i].as_str(), x) {
            found = true;
            assert(t.contains(x@)) by {
                assert(t[i as int] == x@);
            }
            assert(strings_view(out@) =~= seq_without(t, x@));
        } else {
            out.push(v[i].clone());
            assert(strings_view(out@) =~= before.push(v@[i as int]@));
            assert(strings_view(out@) =~= seq_without(t, x@));
            assert(t.contains(x@) == start.take(i as int).contains(x@)) by {
                if t.contains(x@) {
                    let j = choose|j: int| 0 <= j < t.len() && t[j] == x@;
                    if j < i {
                        assert(start.take(i as int)[j] == x@);
                    }
                }
                if start.take(i as int).contains(x@) {
                    let j = choose|j: int| 0 <= j < i && start.take(i as int)[j] == x@;
                    assert(t[j] == x@);
                }
            }
        }
        proof {
            if found && !t.contains(x@) {
                let j = choose|j: int| 0 <= j < i && start.take(i as int)[j] == x@;
                assert(t[j] == x@);
            }
        }
        i = i + 1;
    }
    assert(start.take(v@.len() as int) =~= start);
    *v = out;
    found
}

/// Moves the error types `src` from the errors `errs` to the co-errors
/// `coerrs`.
pub fn demote_error_to_coerror(src: &Vec<String>, errs: &mut Vec<String>, coerrs: &mut Vec<String>)
    ensures
        (strings_view(final(errs)@), strings_view(final(coerrs)@)) == demote_fold(
            strings_view(src@),
            strings_view(old(errs)@),
            strings_view(old(coerrs)@),
        ),
{
    let ghost sv = strings_view(src@);
    let ghost e0 = strings_view(errs@);
    let ghost c0 = strings_view(coerrs@);
    let mut k: usize = 0;
    assert(sv.take(0) =~= Seq::<Seq<char>>::empty());
    while k < src.len()
        invariant
            k <= src@.len(),
            sv == strings_view(src@),
            demote_fold(sv.take(k as int), e0, c0) == (strings_view(errs@), strings_view(coerrs@)),
        decreases src@.len() - k,
    {
        assert(sv.take(k + 1).drop_last() =~= sv.take(k as int));
        assert(sv[k as int] == src@[k as int]@);
        let ghost pe = strings_view(errs@);
        if remove_name(errs, src[k].as_str()) {
            insert_name(coerrs, src[k].clone());
        } else {
            proof {
                lemma_without_absent(pe, sv[k as int]);
            }
        }
        k = k + 1;
    }
    assert(sv.take(src@.len() as int) =~= sv);
}

/// The (target, source) cohort pairs of the underline relations in `rels`
/// of cohort `i_c` whose target is another cohort.
pub open spec fn rel_pairs(rels: Seq<(Seq<char>, u32)>, cohorts: Seq<CohortV>, i_c: int) -> Seq<(int, int)>
    decreases rels.len(),
{
    if rels.len() == 0 {
        Seq::empty()
    } else {
        let rel = rels.last();
        rel_pairs(rels.drop_last(), cohorts, i_c) + if is_squiggle_rel(rel.0) {
            match target_index(cohorts, rel.1) {
                Some(t) => if t != i_c {
                    seq![(t, i_c)]
                } else {
                    Seq::empty()
                },
                None => Seq::empty(),
            }
        } else {
            Seq::empty()
        }
    }
}

pub open spec fn reading_pairs(rs: Seq<ReadingV>, cohorts: Seq<CohortV>, i_c: int) -> Seq<(int, int)>
    decreases rs.len(),
{
    if rs.len() == 0 {
        Seq::empty()
    } else {
        reading_pairs(rs.drop_last(), cohorts, i_c) + rel_pairs(rs.last().rels, cohorts, i_c)
    }
}

/// The (target, source) pairs of the first `n` cohorts' readings.
pub open spec fn demote_pairs(cohorts: Seq<CohortV>, n: nat) -> Seq<(int, int)>
    decreases n,
{
    if n == 0 {
        Seq::empty()
    } else {
        demote_pairs(cohorts, (n - 1) as nat) + reading_pairs(cohorts[n - 1].readings, cohorts, n - 1)
    }
}

pub open spec fn demote_reading(r: ReadingV, src: Seq<Seq<char>>) -> ReadingV {
    let d = demote_fold(src, r.errtypes, r.coerrtypes);
    ReadingV { errtypes: d.0, coerrtypes: d.1, ..r }
}

/// Cohort `c` with the error types `src` demoted to co-errors, on the
/// cohort and on each of its readings.
pub open spec fn demote_cohort(c: CohortV, src: Seq<Seq<char>>) -> CohortV {
    let d = demote_fold(src, c.errtypes, c.coerrtypes);
    CohortV {
        errtypes: d.0,
        coerrtypes: d.1,
        readings: c.readings.map_values(|r: ReadingV| demote_reading(r, src)),
        ..c
    }
}

/// The demotions applied in turn: the target takes the source's error
/// types, as they are by then, as co-errors.
pub open spec fn apply_demotions(cohorts: Seq<CohortV>, pairs: Seq<(int, int)>) -> Seq<CohortV>
    decreases pairs.len(),
{
    if pairs.len() == 0 {
        cohorts
    } else {
        let cs = apply_demotions(cohorts, pairs.drop_last());
        let p = pairs.last();
        cs.update(p.0, demote_cohort(cs[p.0], cs[p.1].errtypes))
    }
}

/// Demotes the error types `src` to co-errors on a cohort and its readings.
pub fn demote_cohort_exec(c: &mut Cohort, src: &Vec<String>)
    ensures
        final(c)@ == demote_cohort(old(c)@, strings_view(src@)),
{
    let ghost c0 = c@;
    demote_error_to_coerror(src, &mut c.errtypes, &mut c.coerrtypes);
    let mut readings: Vec<Reading> = Vec::new();
    std::mem::swap(&mut readings, &mut c.readings);
    let ghost r0 = readings_v(readings@);
    assert(r0 == c0.readings);
    let mut out: Vec<Reading> = Vec::new();
    let mut k: usize = 0;
    while k < readings.len()
        invariant
            k <= readings@.len(),
            r0 == readings_v(readings@),
            readings_v(out@) == r0.take(k as int).map_values(|r: ReadingV| demote_reading(r, strings_view(src@))),
        decreases readings@.len() - k,
    {
        let mut r = readings[k].copy();
        assert(r0[k as int] == r@);
        let ghost rv = r@;
        demote_error_to_coerror(src, &mut r.errtypes, &mut r.coerrtypes);
        assert(r@ == demote_reading(rv, strings_view(src@)));
        let ghost before = readings_v(out@);
        out.push(r);
        assert(readings_v(out@) =~= before.push(r@));
        assert(r0.take(k + 1).map_values(|r: ReadingV| demote_reading(r, strings_view(src@)))
            =~= r0.take(k as int).map_values(|r: ReadingV| demote_reading(r, strings_view(src@))).push(
            demote_reading(rv, strings_view(src@)),
        ));
        k = k + 1;
    }
    assert(r0.take(readings@.len() as int) =~= r0);
    c.readings = out;
    assert(c@.readings =~= c0.readings.map_values(|r: ReadingV| demote_reading(r, strings_view(src@))));
}

pub open spec fn pair_ints(v: Seq<(usize, usize)>) -> Seq<(int, int)> {
    v.map_values(|p: (usize, usize)| (p.0 as int, p.1 as int))
}

/// The (target, source) pairs of the underline relations of the readings.
#[verifier::spinoff_prover]
pub fn demotion_pairs(sentence: &Sentence) -> (pairs: Vec<(usize, usize)>)
    requires
        ids_indexed(sentence.ids_cohorts@, cohorts_v(sentence.cohorts@)),
    ensures
        pair_ints(pairs@) == demote_pairs(
            cohorts_v(sentence.cohorts@),
            sentence.cohorts@.len(),
        ),
        forall|j: int| 0 <= j < pairs@.len() ==> #[trigger] pairs@[j].0 < sentence.cohorts@.len()
            && pairs@[j].1 < sentence.cohorts@.len(),
{
    let ghost cv = cohorts_v(sentence.cohorts@);
    let mut pairs: Vec<(usize, usize)> = Vec::new();
    let mut i_c: usize = 0;
    assert(pair_ints(pairs@) =~= Seq::<(int, int)>::empty());
    while i_c < sentence.cohorts.len()
        invariant
            ids_indexed(sentence.ids_cohorts@, cohorts_v(sentence.cohorts@)),
            i_c <= sentence.cohorts@.len(),
            cv == cohorts_v(sentence.cohorts@),
            pair_ints(pairs@) == demote_pairs(cv, i_c as nat),
            forall|j: int| 0 <= j < pairs@.len() ==> #[trigger] pairs@[j].0 < sentence.cohorts@.len()
                && pairs@[j].1 < sentence.cohorts@.len(),
        decreases sentence.cohorts@.len() - i_c,
    {
        let c = &sentence.cohorts[i_c];
        assert(cv[i_c as int] == c@);
        let ghost rs = c@.readings;
        let ghost start = demote_pairs(cv, i_c as nat);
        let mut k: usize = 0;
        assert(rs.take(0) =~= Seq::<ReadingV>::empty());
        assert(start + reading_pairs(rs.take(0), cv, i_c as int) =~= start);
        while k < c.readings.len()
            invariant
                ids_indexed(sentence.ids_cohorts@, cohorts_v(sentence.cohorts@)),
                k <= c.readings@.len(),
                i_c < sentence.cohorts@.len(),
                c == &sentence.cohorts@[i_c as int],
                rs == c@.readings,
                cv == cohorts_v(sentence.cohorts@),
                pair_ints(pairs@) == start
                    + reading_pairs(rs.take(k as int), cv, i_c as int),
                forall|j: int| 0 <= j < pairs@.len() ==> #[trigger] pairs@[j].0 < sentence.cohorts@.len()
                    && pairs@[j].1 < sentence.cohorts@.len(),
            decreases c.readings@.len() - k,
        {
            let r = &c.readings[k];
            assert(rs[k as int] == r@);
            let ghost rv = r@.rels;
            let ghost mid = start + reading_pairs(rs.take(k as int), cv, i_c as int);
            let mut m: usize = 0;
            assert(rv.take(0) =~= Seq::<(Seq<char>, u32)>::empty());
            assert(mid + rel_pairs(rv.take(0), cv, i_c as int) =~= mid);
            while m < r.rels.len()
                invariant
                    ids_indexed(sentence.ids_cohorts@, cohorts_v(sentence.cohorts@)),
                    m <= r.rels@.len(),
                    i_c < sentence.cohorts@.len(),
                    rv == rels_view(r.rels@),
                    cv == cohorts_v(sentence.cohorts@),
                    pair_ints(pairs@) == mid + rel_pairs(
                        rv.take(m as int),
                        cv,
                        i_c as int,
                    ),
                    forall|j: int| 0 <= j < pairs@.len() ==> #[trigger] pairs@[j].0
                        < sentence.cohorts@.len() && pairs@[j].1 < sentence.cohorts@.len(),
                decreases r.rels@.len() - m,
            {
                let rel = &r.rels[m];
                assert(rv[m as int] == (rel.0@, rel.1));
                assert(rv.take(m + 1).drop_last() =~= rv.take(m as int));
                let ghost before = pairs@;
                if regex_is_match("^(LEFT|RIGHT|DELETE[0-9]*)$", rel.0.as_str()) {
                    match find_target(&sentence.ids_cohorts, &sentence.cohorts, rel.1) {
                        Some(t) => {
                            proof {
                                lemma_target_index(cv, rel.1);
                            }
                            if t != i_c {
                                assert(t < sentence.cohorts@.len());
                                pairs.push((t, i_c));
                                assert(pair_ints(pairs@) =~= pair_ints(before).push((t as int, i_c as int)));
                                assert forall|j: int| 0 <= j < pairs@.len() implies #[trigger] pairs@[j].0
                                    < sentence.cohorts@.len() && pairs@[j].1 < sentence.cohorts@.len() by {
                                    if j < before.len() {
                                        assert(pairs@[j] == before[j]);
                                    }
                                }
                            }
                        },
                        None => {},
                    }
                }
                assert(pair_ints(pairs@) =~= mid
                    + rel_pairs(rv.take(m + 1), cv, i_c as int));
                m = m + 1;
            }
            assert(rv.take(r.rels@.len() as int) =~= rv);
            assert(rs.take(k + 1).drop_last() =~= rs.take(k as int));
            assert(rs.take(k + 1).last() == r@);
            k = k + 1;
        }
        assert(rs.take(c.readings@.len() as int) =~= rs);
        i_c = i_c + 1;
    }
    pairs
}

/// Demotes the errors on relation targets to co-errors: an error tag on the
/// target of another cohort's underline relation belongs to that cohort's
/// error.
#[verifier::spinoff_prover]
#[verifier::rlimit(40)]
pub fn demote_targets(sentence: &mut Sentence)
    requires
        ids_indexed(old(sentence).ids_cohorts@, cohorts_v(old(sentence).cohorts@)),
    ensures
        cohorts_v(final(sentence).cohorts@) == apply_demotions(
            cohorts_v(old(sentence).cohorts@),
            demote_pairs(cohorts_v(old(sentence).cohorts@), old(sentence).cohorts@.len()),
        ),
        final(sentence).text@ == old(sentence).text@,
        final(sentence).raw_final_blank@ == old(sentence).raw_final_blank@,
        final(sentence).errs@ == old(sentence).errs@,
        final(sentence).ids_cohorts@ == old(sentence).ids_cohorts@,
        ids_indexed(final(sentence).ids_cohorts@, cohorts_v(final(sentence).cohorts@)),
{
    let pairs = demotion_pairs(sentence);
    let ghost c0 = cohorts_v(sentence.cohorts@);
    let ghost pv = pair_ints(pairs@);
    let mut k: usize = 0;
    assert(pv.take(0) =~= Seq::<(int, int)>::empty());
    while k < pairs.len()
        invariant
            k <= pairs@.len(),
            pv == pair_ints(pairs@),
            sentence.cohorts@.len() == c0.len(),
            forall|j: int| 0 <= j < pairs@.len() ==> #[trigger] pairs@[j].0 < c0.len() && pairs@[j].1 < c0.len(),
            cohorts_v(sentence.cohorts@) == apply_demotions(c0, pv.take(k as int)),
            sentence.text@ == old(sentence).text@,
            sentence.raw_final_blank@ == old(sentence).raw_final_blank@,
            sentence.errs@ == old(sentence).errs@,
            sentence.ids_cohorts@ == old(sentence).ids_cohorts@,
        decreases pairs@.len() - k,
    {
        let (i_t, i_c) = pairs[k];
        assert(pairs@[k as int].0 < c0.len());
        let src = copy_strings(&sentence.cohorts[i_c].errtypes);
        let ghost cs = cohorts_v(sentence.cohorts@);
        assert(cs[i_c as int] == sentence.cohorts@[i_c as int]@);
        assert(cs[i_t as int] == sentence.cohorts@[i_t as int]@);
        let mut cohorts: Vec<Cohort> = Vec::new();
        std::mem::swap(&mut cohorts, &mut sentence.cohorts);
        let mut target = cohorts.remove(i_t);
        demote_cohort_exec(&mut target, &src);
        let ghost tv = target@;
        cohorts.insert(i_t, target);
        assert(cohorts_v(cohorts@) =~= cs.update(i_t as int, tv));
        std::mem::swap(&mut cohorts, &mut sentence.cohorts);
        assert(pv.take(k + 1).drop_last() =~= pv.take(k as int));
        assert(pv[k as int] == (i_t as int, i_c as int));
        k = k + 1;
    }
    assert(pv.take(pairs@.len() as int) =~= pv);
    proof {
        lemma_demotions_keep_ids(c0, pv);
        lemma_target_index_ids(c0, cohorts_v(sentence.cohorts@));
    }
}

/// Demotions leave every cohort where it is, with its relation id.
proof fn lemma_demotions_keep_ids(cs: Seq<CohortV>, pairs: Seq<(int, int)>)
    requires
        forall|j: int| 0 <= j < pairs.len() ==> 0 <= #[trigger] pairs[j].0 < cs.len() && 0 <= pairs[j].1 < cs.len(),
    ensures
        apply_demotions(cs, pairs).len() == cs.len(),
        forall|i: int| 0 <= i < cs.len() ==> #[trigger] apply_demotions(cs, pairs)[i].id == cs[i].id,
    decreases pairs.len(),
{
    if pairs.len() > 0 {
        let d = pairs.drop_last();
        assert forall|j: int| 0 <= j < d.len() implies 0 <= #[trigger] d[j].0 < cs.len() && 0 <= d[j].1 < cs.len() by {
            assert(d[j] == pairs[j]);
        }
        lemma_demotions_keep_ids(cs, d);
        assert(pairs[pairs.len() - 1] == pairs.last());
    }
}

/// Cohorts with the same relation ids, in the same places, lead an id to the
/// same cohort.
pub proof fn lemma_target_index_ids(a: Seq<CohortV>, b: Seq<CohortV>)
    requires
        a.len() == b.len(),
        forall|i: int| 0 <= i < a.len() ==> #[trigger] a[i].id == b[i].id,
    ensures
        forall|id: u32| #[trigger] target_index(a, id) == target_index(b, id),
    decreases a.len(),
{
    if a.len() > 0 {
        let (da, db) = (a.drop_last(), b.drop_last());
        assert forall|i: int| 0 <= i < da.len() implies #[trigger] da[i].id == db[i].id by {
            assert(da[i] == a[i] && db[i] == b[i]);
        }
        lemma_target_index_ids(da, db);
        assert(a.last().id == b.last().id) by {
            assert(a[a.len() - 1].id == b[b.len() - 1].id);
        }
        assert forall|id: u32| #[trigger] target_index(a, id) == target_index(b, id) by {
            assert(target_index(da, id) == target_index(db, id));
        }
    }
}

/// The error types of a cohort's readings, but for co-error readings.
pub open spec fn cohort_errtypes(rs: Seq<ReadingV>) -> Seq<Seq<char>>
    decreases rs.len(),
{
    if rs.len() == 0 {
        Seq::empty()
    } else {
        let p = cohort_errtypes(rs.drop_last());
        if rs.last().coerror {
            p
        } else {
            set_extend(p, rs.last().errtypes)
        }
    }
}

/// The errors to mark in the first `n` cohorts: each cohort with each of
/// its non-empty error types.
pub open spec fn slots_of(cohorts: Seq<CohortV>, n: nat) -> Seq<(int, Seq<char>)>
    decreases n,
{
    if n == 0 {
        Seq::empty()
    } else {
        slots_of(cohorts, (n - 1) as nat) + nonempty_slots(cohort_errtypes(cohorts[n - 1].readings), n - 1)
    }
}

pub open spec fn nonempty_slots(es: Seq<Seq<char>>, i: int) -> Seq<(int, Seq<char>)>
    decreases es.len(),
{
    if es.len() == 0 {
        Seq::empty()
    } else {
        nonempty_slots(es.drop_last(), i) + if es.last().len() > 0 {
            seq![(i, es.last())]
        } else {
            Seq::empty()
        }
    }
}

pub open spec fn slots_view(v: Seq<(usize, String)>) -> Seq<(int, Seq<char>)> {
    v.map_values(|p: (usize, String)| (p.0 as int, p.1@))
}

/// The errors to mark: each cohort with each of its error types.
pub fn error_slots(sentence: &Sentence) -> (slots: Vec<(usize, String)>)
    ensures
        slots_view(slots@) == slots_of(cohorts_v(sentence.cohorts@), sentence.cohorts@.len()),
        forall|j: int| 0 <= j < slots@.len() ==> #[trigger] slots@[j].0 < sentence.cohorts@.len(),
{
    let ghost cv = cohorts_v(sentence.cohorts@);
    let mut slots: Vec<(usize, String)> = Vec::new();
    let mut i: usize = 0;
    assert(slots_view(slots@) =~= Seq::<(int, Seq<char>)>::empty());
    while i < sentence.cohorts.len()
        invariant
            i <= sentence.cohorts@.len(),
            cv == cohorts_v(sentence.cohorts@),
            slots_view(slots@) == slots_of(cv, i as nat),
            forall|j: int| 0 <= j < slots@.len() ==> #[trigger] slots@[j].0 < sentence.cohorts@.len(),
        decreases sentence.cohorts@.len() - i,
    {
        let c = &sentence.cohorts[i];
        assert(cv[i as int] == c@);
        let ghost rs = c@.readings;
        let mut es: Vec<String> = Vec::new();
        let mut k: usize = 0;
        assert(rs.take(0) =~= Seq::<ReadingV>::empty());
        assert(strings_view(es@) =~= Seq::<Seq<char>>::empty());
        while k < c.readings.len()
            invariant
                k <= c.readings@.len(),
                rs == c@.readings,
                strings_view(es@) == cohort_errtypes(rs.take(k as int)),
            decreases c.readings@.len() - k,
        {
            assert(rs[k as int] == c.readings@[k as int]@);
            assert(rs.take(k + 1).drop_last() =~= rs.take(k as int));
            if !c.readings[k].coerror {
                extend_names(&mut es, &c.readings[k].errtypes);
            }
            k = k + 1;
        }
        assert(rs.take(c.readings@.len() as int) =~= rs);
        let ghost ev = strings_view(es@);
        let ghost start = slots_view(slots@);
        let mut m: usize = 0;
        assert(ev.take(0) =~= Seq::<Seq<char>>::empty());
        assert(start + nonempty_slots(ev.take(0), i as int) =~= start);
        while m < es.len()
            invariant
                m <= es@.len(),
                i < sentence.cohorts@.len(),
                ev == strings_view(es@),
                slots_view(slots@) == start + nonempty_slots(ev.take(m as int), i as int),
                forall|j: int| 0 <= j < slots@.len() ==> #[trigger] slots@[j].0 < sentence.cohorts@.len(),
            decreases es@.len() - m,
        {
            assert(ev[m as int] == es@[m as int]@);
            assert(ev.take(m + 1).drop_last() =~= ev.take(m as int));
            let ghost before = slots@;
            if es[m].as_str().unicode_len() > 0 {
                slots.push((i, es[m].clone()));
                assert(slots_view(slots@) =~= slots_view(before).push((i as int, ev[m as int])));
            }
            m = m + 1;
        }
        assert(ev.take(es@.len() as int) =~= ev);
        i = i + 1;
    }
    slots
}

/// The span and replacements that error `e` of cohort `i_c` gets from the
/// readings of the cohort that carry `e`, in turn.
pub open spec fn span_fold(rs: Seq<ReadingV>, e: Seq<char>, i_c: int, cohorts: Seq<CohortV>) -> ((int, int), Seq<Seq<char>>)
    decreases rs.len(),
{
    if rs.len() == 0 {
        ((cohorts[i_c].pos as int, form_end(cohorts[i_c]) as int), Seq::empty())
    } else {
        let p = span_fold(rs.drop_last(), e, i_c, cohorts);
        let r = rs.last();
        if !r.errtypes.contains(e) {
            p
        } else {
            let sq = squiggle(r.rels, cohorts, i_c);
            let rp = replacement(r.rels, e, cohorts[i_c], cohorts, p.0.0, p.0.1, sq.0, sq.1);
            (rp.0, p.1 + rp.1)
        }
    }
}

/// The span and replacements of error `e` of cohort `i_c`.
pub open spec fn err_span(e: Seq<char>, i_c: int, cohorts: Seq<CohortV>) -> ((int, int), Seq<Seq<char>>) {
    span_fold(cohorts[i_c].readings, e, i_c, cohorts)
}

proof fn lemma_bounds_fold(rels: Seq<(Seq<char>, u32)>, cohorts: Seq<CohortV>, l: int, r: int)
    requires
        0 <= l,
    ensures
        0 <= bounds_fold(rels, cohorts, l, r).0,
    decreases rels.len(),
{
    if rels.len() > 0 {
        lemma_bounds_fold(rels.drop_last(), cohorts, l, r);
        let rel = rels.last();
        if is_squiggle_rel(rel.0) {
            lemma_target_index(cohorts, rel.1);
        }
    }
}

/// The span and replacements of error `err_id` of cohort `i_c`.
pub fn cohort_span(err_id: &str, i_c: usize, sentence: &Sentence) -> (r: ((usize, usize), Vec<String>))
    requires
        ids_indexed(sentence.ids_cohorts@, cohorts_v(sentence.cohorts@)),
        i_c < sentence.cohorts@.len(),
        positions_fit(cohorts_v(sentence.cohorts@)),
    ensures
        r.0.0 == err_span(err_id@, i_c as int, cohorts_v(sentence.cohorts@)).0.0,
        r.0.1 == err_span(err_id@, i_c as int, cohorts_v(sentence.cohorts@)).0.1,
        strings_view(r.1@) == err_span(err_id@, i_c as int, cohorts_v(sentence.cohorts@)).1,
{
    let ghost cv = cohorts_v(sentence.cohorts@);
    let c = &sentence.cohorts[i_c];
    assert(cv[i_c as int] == c@);
    assert(cv[i_c as int].pos + utf8_len(cv[i_c as int].form) <= usize::MAX);
    let mut beg = c.pos;
    let mut end = c.pos + byte_len(c.form.as_str());
    let mut rep: Vec<String> = Vec::new();
    let ghost rs = c@.readings;
    let mut k: usize = 0;
    assert(rs.take(0) =~= Seq::<ReadingV>::empty());
    assert(strings_view(rep@) =~= Seq::<Seq<char>>::empty());
    while k < c.readings.len()
        invariant
            ids_indexed(sentence.ids_cohorts@, cohorts_v(sentence.cohorts@)),
            k <= c.readings@.len(),
            i_c < sentence.cohorts@.len(),
            cv == cohorts_v(sentence.cohorts@),
            positions_fit(cv),
            c == &sentence.cohorts@[i_c as int],
            rs == c@.readings,
            span_fold(rs.take(k as int), err_id@, i_c as int, cv) == ((beg as int, end as int), strings_view(
                rep@,
            )),
        decreases c.readings@.len() - k,
    {
        let r = &c.readings[k];
        assert(rs[k as int] == r@);
        assert(rs.take(k + 1).drop_last() =~= rs.take(k as int));
        if contains_string(&r.errtypes, err_id) {
            let sq = squiggle_bounds(&r.rels, sentence, i_c);
            proof {
                lemma_bounds_fold(r@.rels, cv, i_c as int, i_c as int);
            }
            let res = build_squiggle_replacement(r, err_id, c, sentence, beg, end, sq.0, sq.1);
            match res {
                Some((bounds, sforms)) => {
                    beg = bounds.0;
                    end = bounds.1;
                    append_strings(&mut rep, &sforms);
                },
                None => {},
            }
        }
        k = k + 1;
    }
    assert(rs.take(c.readings@.len() as int) =~= rs);
    ((beg, end), rep)
}

/// `s` without the elements equal to `x`.
pub open spec fn other_than(s: Seq<Seq<char>>, x: Seq<char>) -> Seq<Seq<char>> {
    seq_without(s, x)
}

/// The error is not marked: its cohort has no form or is added, or its id
/// is ignored, or not among the included ones.
pub open spec fn skipped(e: Seq<char>, c: CohortV, ignores: Seq<Id>, includes: Seq<Id>) -> bool {
    c.form.len() == 0 || c.added != AddedStatus::NotAdded || set_matches(ignores, e) || (includes.len()
        > 0 && !set_matches(includes, e))
}

/// The message of an error with its first replacement put in for `€1`.
pub open spec fn filled(msg: Seq<char>, rep: Seq<Seq<char>>) -> Seq<char> {
    if rep.len() > 0 {
        replaced(msg, "€1"@, rep[0])
    } else {
        msg
    }
}

/// The marked-up error `e` of cohort `i_c` with message `msg`: its span
/// and the text there, its replacements other than that text, sorted, each
/// once, and its message with `€1` filled in by the first replacement.
pub open spec fn err_mark(
    e: Seq<char>,
    i_c: int,
    cohorts: Seq<CohortV>,
    text: Seq<char>,
    msg: (Seq<char>, Seq<char>),
) -> ErrMarkV {
    let sp = err_span(e, i_c, cohorts);
    let form = str_get(text, sp.0.0, sp.0.1)->Some_0;
    let rep = sorted_set(other_than(sp.1, form));
    ErrMarkV {
        form,
        beg: sp.0.0 as nat,
        end: sp.0.1 as nat,
        err: e,
        msg: (filled(msg.0, rep), filled(msg.1, rep)),
        rep,
    }
}

/// The marked-up error `err_id` of cohort `i_c`, with its message `msg`
/// (title, description): its span and the text there, its replacements
/// other than that text, sorted, each once; `€1` in the message is the
/// first replacement. `None` where the error is not marked.
pub fn cohort_errs(
    err_id: &str,
    i_c: usize,
    sentence: &Sentence,
    ignores: &IdSet,
    includes: &IdSet,
    msg: (String, String),
) -> (r: Option<ErrMark>)
    requires
        ids_indexed(sentence.ids_cohorts@, cohorts_v(sentence.cohorts@)),
        i_c < sentence.cohorts@.len(),
        positions_fit(cohorts_v(sentence.cohorts@)),
        !skipped(err_id@, sentence.cohorts@[i_c as int]@, ignores.ids@, includes.ids@) ==> str_get(
            sentence.text@,
            err_span(err_id@, i_c as int, cohorts_v(sentence.cohorts@)).0.0,
            err_span(err_id@, i_c as int, cohorts_v(sentence.cohorts@)).0.1,
        ) is Some,
    ensures
        skipped(err_id@, sentence.cohorts@[i_c as int]@, ignores.ids@, includes.ids@) ==> r is None,
        !skipped(err_id@, sentence.cohorts@[i_c as int]@, ignores.ids@, includes.ids@) ==> (r matches Some(
            m,
        ) && m@ == err_mark(
            err_id@,
            i_c as int,
            cohorts_v(sentence.cohorts@),
            sentence.text@,
            (msg.0@, msg.1@),
        ) && span_valid(sentence.text@, m@)),
{
    let c = &sentence.cohorts[i_c];
    if c.is_empty() || c.added != AddedStatus::NotAdded {
        return None;
    } else if ignores.matches(err_id) {
        return None;
    } else if !includes.is_empty() && !includes.matches(err_id) {
        return None;
    }
    let ((beg, end), rep) = cohort_span(err_id, i_c, sentence);
    let tv = chars_of(sentence.text.as_str());
    let (a, b) = match get_range(&tv, beg, end) {
        Some(p) => p,
        None => {
            return None;
        },
    };
    let form = string_of(&tv, a, b);
    let mut kept = copy_strings(&rep);
    remove_name(&mut kept, form.as_str());
    let rep = sort_dedup(&kept);
    let (mut title, mut desc) = msg;
    if rep.len() > 0 {
        proof {
            reveal_strlit("€1");
        }
        title = replace_all(title.as_str(), "€1", rep[0].as_str());
        desc = replace_all(desc.as_str(), "€1", rep[0].as_str());
        assert(strings_view(rep@)[0] == rep@[0]@);
    }
    Some(ErrMark { form, beg, end, err: err_id.to_string(), msg: (title, desc), rep })
}

/// The key errors are sorted by: their start, or their end.
pub open spec fn err_key(e: ErrMarkV, by_end: bool) -> nat {
    if by_end {
        e.end
    } else {
        e.beg
    }
}

/// `x` put into the sorted `s` after every element with no greater key.
pub open spec fn insert_by(s: Seq<ErrMarkV>, x: ErrMarkV, by_end: bool) -> Seq<ErrMarkV>
    decreases s.len(),
{
    if s.len() == 0 || err_key(s.last(), by_end) <= err_key(x, by_end) {
        s.push(x)
    } else {
        insert_by(s.drop_last(), x, by_end).push(s.last())
    }
}

/// `s` sorted by key, elements with equal keys in their order in `s`.
pub open spec fn sort_by(s: Seq<ErrMarkV>, by_end: bool) -> Seq<ErrMarkV>
    decreases s.len(),
{
    if s.len() == 0 {
        s
    } else {
        insert_by(sort_by(s.drop_last(), by_end), s.last(), by_end)
    }
}

/// Error `e` stretched back to start where `f` starts, where `f` starts
/// before it and reaches it: the text in between goes before its form and
/// each of its replacements.
pub open spec fn step_left(e: ErrMarkV, f: ErrMarkV, text: Seq<char>) -> ErrMarkV {
    if f.beg < e.beg && f.end >= e.beg {
        let add = str_get(text, f.beg as int, e.beg as int)->Some_0;
        ErrMarkV {
            form: add + e.form,
            beg: f.beg,
            rep: e.rep.map_values(|r: Seq<char>| add + r),
            ..e
        }
    } else {
        e
    }
}

/// `e` stretched back over `fs`, from the last of them to the first.
pub open spec fn extend_left(e: ErrMarkV, fs: Seq<ErrMarkV>, text: Seq<char>) -> ErrMarkV
    decreases fs.len(),
{
    if fs.len() == 0 {
        e
    } else {
        extend_left(step_left(e, fs.last(), text), fs.drop_last(), text)
    }
}

/// Error `e` stretched on to end where `f` ends, where `f` ends after it
/// and starts within it: the text in between goes after its form and each
/// of its replacements.
pub open spec fn step_right(e: ErrMarkV, f: ErrMarkV, text: Seq<char>) -> ErrMarkV {
    if f.end > e.end && f.beg <= e.end {
        let add = str_get(text, e.end as int, f.end as int)->Some_0;
        ErrMarkV {
            form: e.form + add,
            end: f.end,
            rep: e.rep.map_values(|r: Seq<char>| r + add),
            ..e
        }
    } else {
        e
    }
}

/// `e` stretched on over `fs`, from the first of them to the last.
pub open spec fn extend_right(e: ErrMarkV, fs: Seq<ErrMarkV>, text: Seq<char>) -> ErrMarkV
    decreases fs.len(),
{
    if fs.len() == 0 {
        e
    } else {
        step_right(extend_right(e, fs.drop_last(), text), fs.last(), text)
    }
}

/// The errors after stretching back the ones at `1..k`, in turn, over those
/// before them.
pub open spec fn back_fold(s: Seq<ErrMarkV>, k: nat, text: Seq<char>) -> Seq<ErrMarkV>
    decreases k,
{
    if k <= 1 {
        s
    } else {
        let t = back_fold(s, (k - 1) as nat, text);
        t.update(k - 1, extend_left(t[k - 1], t.take(k - 1), text))
    }
}

/// The errors after stretching on the last `m` but one, from right to left,
/// over those after them.
pub open spec fn fwd_fold(s: Seq<ErrMarkV>, m: nat, text: Seq<char>) -> Seq<ErrMarkV>
    decreases m,
{
    if m == 0 {
        s
    } else {
        let t = fwd_fold(s, (m - 1) as nat, text);
        let i = s.len() - 1 - m;
        t.update(i, extend_right(t[i], t.skip(i + 1), text))
    }
}

/// Overlapping errors stretched over each other: sorted by start, each
/// stretched back over those before it; then sorted by end, each stretched
/// on over those after it. Fewer than two errors stay as they are.
pub open spec fn expanded(s: Seq<ErrMarkV>, text: Seq<char>) -> Seq<ErrMarkV> {
    if s.len() < 2 {
        s
    } else {
        let b = back_fold(sort_by(s, false), s.len(), text);
        let sorted = sort_by(b, true);
        fwd_fold(sorted, (s.len() - 1) as nat, text)
    }
}

/// The error's span is a character range of the text.
pub open spec fn span_valid(text: Seq<char>, e: ErrMarkV) -> bool {
    str_get(text, e.beg as int, e.end as int) is Some
}

pub open spec fn errs_v(v: Seq<ErrMark>) -> Seq<ErrMarkV> {
    v.map_values(|e: ErrMark| e@)
}

/// Byte offsets that are boundaries come in the order of their characters.
proof fn lemma_boundary_order(s: Seq<char>, a: int, b: int)
    requires
        0 <= a <= b,
        boundary(s, a) is Some,
        boundary(s, b) is Some,
    ensures
        boundary(s, a)->Some_0 <= boundary(s, b)->Some_0,
{
    lemma_boundary(s, a);
    lemma_boundary(s, b);
    let i = boundary(s, a)->Some_0;
    let j = boundary(s, b)->Some_0;
    if i > j {
        crate::text::lemma_utf8_len_sub(s, j, i);
        if j < i {
            lemma_utf8_len_prefix(s.take(i), j);
            assert(s.take(i).take(j) =~= s.take(j));
        }
    }
}

/// Two valid spans that meet give a valid span from the start of one to the
/// end of the other.
proof fn lemma_join_valid(text: Seq<char>, a: int, b: int, c: int, d: int)
    requires
        0 <= a,
        0 <= c,
        str_get(text, a, b) is Some,
        str_get(text, c, d) is Some,
        a <= d,
    ensures
        str_get(text, a, d) is Some,
{
    lemma_boundary(text, a);
    lemma_boundary(text, d);
    lemma_boundary_order(text, a, d);
}

/// A valid span starts no later than it ends.
pub proof fn lemma_boundary_order_rev(text: Seq<char>, a: int, b: int)
    requires
        0 <= a,
        0 <= b,
        str_get(text, a, b) is Some,
    ensures
        a <= b,
{
    lemma_boundary(text, a);
    lemma_boundary(text, b);
    let i = boundary(text, a)->Some_0;
    let j = boundary(text, b)->Some_0;
    if i < j {
        crate::text::lemma_utf8_len_sub(text, i, j);
    }
}

/// Boundaries in order make a valid span.
pub proof fn lemma_get_some(text: Seq<char>, a: int, b: int)
    requires
        0 <= a <= b,
        boundary(text, a) is Some,
        boundary(text, b) is Some,
    ensures
        str_get(text, a, b) is Some,
{
    lemma_boundary_order(text, a, b);
}

pub open spec fn all_valid(text: Seq<char>, s: Seq<ErrMarkV>) -> bool {
    forall|k: int| 0 <= k < s.len() ==> span_valid(text, #[trigger] s[k])
}

proof fn lemma_insert_valid(text: Seq<char>, s: Seq<ErrMarkV>, x: ErrMarkV, by_end: bool)
    requires
        all_valid(text, s),
        span_valid(text, x),
    ensures
        all_valid(text, insert_by(s, x, by_end)),
        insert_by(s, x, by_end).len() == s.len() + 1,
    decreases s.len(),
{
    if s.len() == 0 || err_key(s.last(), by_end) <= err_key(x, by_end) {
        assert forall|k: int| 0 <= k < s.len() + 1 implies span_valid(text, #[trigger] s.push(x)[k]) by {
            if k < s.len() {
                assert(s.push(x)[k] == s[k]);
            }
        }
    } else {
        let p = s.drop_last();
        assert forall|k: int| 0 <= k < p.len() implies span_valid(text, #[trigger] p[k]) by {
            assert(p[k] == s[k]);
        }
        lemma_insert_valid(text, p, x, by_end);
        let q = insert_by(p, x, by_end);
        assert forall|k: int| 0 <= k < q.len() + 1 implies span_valid(text, #[trigger] q.push(s.last())[k]) by {
            if k < q.len() {
                assert(q.push(s.last())[k] == q[k]);
            }
        }
    }
}

proof fn lemma_sort_valid(text: Seq<char>, s: Seq<ErrMarkV>, by_end: bool)
    requires
        all_valid(text, s),
    ensures
        all_valid(text, sort_by(s, by_end)),
        sort_by(s, by_end).len() == s.len(),
    decreases s.len(),
{
    if s.len() > 0 {
        let p = s.drop_last();
        assert forall|k: int| 0 <= k < p.len() implies span_valid(text, #[trigger] p[k]) by {
            assert(p[k] == s[k]);
        }
        lemma_sort_valid(text, p, by_end);
        lemma_insert_valid(text, sort_by(p, by_end), s.last(), by_end);
    }
}

/// The error's form is the text of its span.
pub open spec fn form_ok(text: Seq<char>, e: ErrMarkV) -> bool {
    str_get(text, e.beg as int, e.end as int) == Some(e.form)
}

/// Every error's form is the text of its span.
pub open spec fn forms_match(text: Seq<char>, s: Seq<ErrMarkV>) -> bool {
    forall|k: int| 0 <= k < s.len() ==> form_ok(text, #[trigger] s[k])
}

/// Adjacent spans join: the text from `a` to `c` is that from `a` to `b`
/// then that from `b` to `c`.
pub proof fn lemma_str_get_join(text: Seq<char>, a: int, b: int, c: int)
    requires
        0 <= a && 0 <= b && 0 <= c,
        str_get(text, a, b) is Some,
        str_get(text, b, c) is Some,
    ensures
        str_get(text, a, c) == Some(str_get(text, a, b)->Some_0 + str_get(text, b, c)->Some_0),
{
    lemma_boundary(text, a);
    lemma_boundary(text, b);
    lemma_boundary(text, c);
    let i = boundary(text, a)->Some_0;
    let j = boundary(text, b)->Some_0;
    let k = boundary(text, c)->Some_0;
    assert(text.subrange(i, j) + text.subrange(j, k) =~= text.subrange(i, k));
}

proof fn lemma_insert_forms(text: Seq<char>, s: Seq<ErrMarkV>, x: ErrMarkV, by_end: bool)
    requires
        forms_match(text, s),
        form_ok(text, x),
    ensures
        forms_match(text, insert_by(s, x, by_end)),
    decreases s.len(),
{
    if s.len() == 0 || err_key(s.last(), by_end) <= err_key(x, by_end) {
        assert forall|k: int| 0 <= k < s.len() + 1 implies form_ok(text, #[trigger] s.push(x)[k]) by {
            if k < s.len() {
                assert(s.push(x)[k] == s[k]);
            }
        }
    } else {
        let p = s.drop_last();
        assert forall|k: int| 0 <= k < p.len() implies form_ok(text, #[trigger] p[k]) by {
            assert(p[k] == s[k]);
        }
        lemma_insert_forms(text, p, x, by_end);
        let q = insert_by(p, x, by_end);
        assert forall|k: int| 0 <= k < q.len() + 1 implies form_ok(text, #[trigger] q.push(s.last())[k]) by {
            if k < q.len() {
                assert(q.push(s.last())[k] == q[k]);
            }
        }
    }
}

proof fn lemma_sort_forms(text: Seq<char>, s: Seq<ErrMarkV>, by_end: bool)
    requires
        forms_match(text, s),
    ensures
        forms_match(text, sort_by(s, by_end)),
    decreases s.len(),
{
    if s.len() > 0 {
        let p = s.drop_last();
        assert forall|k: int| 0 <= k < p.len() implies form_ok(text, #[trigger] p[k]) by {
            assert(p[k] == s[k]);
        }
        lemma_sort_forms(text, p, by_end);
        lemma_insert_forms(text, sort_by(p, by_end), s.last(), by_end);
    }
}

/// Sorts the errors by start or by end, keeping the order of equal keys.
pub fn sort_errs_by(errs: Vec<ErrMark>, by_end: bool) -> (r: Vec<ErrMark>)
    ensures
        errs_v(r@) == sort_by(errs_v(errs@), by_end),
{
    let ghost ev = errs_v(errs@);
    let mut rest = errs;
    let total = rest.len();
    let mut out: Vec<ErrMark> = Vec::new();
    let mut k: usize = 0;
    let ghost n = ev.len();
    assert(ev.take(0) =~= Seq::<ErrMarkV>::empty());
    assert(errs_v(out@) =~= Seq::<ErrMarkV>::empty());
    assert(errs_v(rest@) =~= ev.skip(0));
    while rest.len() > 0
        invariant
            k <= n,
            n == ev.len(),
            n == total,
            errs_v(rest@) == ev.skip(k as int),
            errs_v(out@) == sort_by(ev.take(k as int), by_end),
        decreases rest@.len(),
    {
        let ghost before_rest = rest@;
        let x = rest.remove(0);
        assert(errs_v(before_rest)[0] == before_rest[0]@);
        assert(ev.skip(k as int)[0] == x@);
        assert(errs_v(rest@) =~= errs_v(before_rest).skip(1));
        assert(errs_v(rest@) =~= ev.skip(k + 1));
        let ghost ov = errs_v(out@);
        let mut j = out.len();
        assert(ov.take(j as int) =~= ov);
        assert(ov.skip(j as int) =~= Seq::<ErrMarkV>::empty());
        while j > 0 && err_key_exec(&out[j - 1], by_end) > err_key_exec(&x, by_end)
            invariant
                j <= out@.len(),
                ov == errs_v(out@),
                insert_by(ov, x@, by_end) == insert_by(ov.take(j as int), x@, by_end) + ov.skip(j as int),
            decreases j,
        {
            assert(ov.take(j as int).last() == out@[j - 1]@);
            assert(ov.take(j as int).drop_last() =~= ov.take(j - 1));
            assert(ov.skip(j - 1) =~= seq![ov[j - 1]] + ov.skip(j as int));
            j = j - 1;
        }
        proof {
            if j > 0 {
                assert(ov.take(j as int).last() == out@[j - 1]@);
            }
        }
        let ghost xv = x@;
        let ghost before_out = out@;
        out.insert(j, x);
        assert(out@ == before_out.insert(j as int, x));
        assert(errs_v(out@) =~= ov.insert(j as int, xv));
        assert(errs_v(out@) =~= ov.take(j as int).push(xv) + ov.skip(j as int));
        assert(ev.skip(k as int).len() > 0);
        assert(k < n);
        assert(ev.take(k + 1).drop_last() =~= ev.take(k as int));
        assert(ev.take(k + 1).last() == xv);
        k = k + 1;
    }
    assert(ev.take(k as int) =~= ev);
    out
}

fn err_key_exec(e: &ErrMark, by_end: bool) -> (k: usize)
    ensures
        k == err_key(e@, by_end),
{
    if by_end {
        e.end
    } else {
        e.beg
    }
}

/// `add` put before each of `reps`.
pub fn prepend_all(reps: &Vec<String>, add: &str) -> (r: Vec<String>)
    ensures
        strings_view(r@) == strings_view(reps@).map_values(|x: Seq<char>| add@ + x),
{
    let ghost rv = strings_view(reps@);
    let mut out: Vec<String> = Vec::new();
    let mut k: usize = 0;
    while k < reps.len()
        invariant
            k <= reps@.len(),
            rv == strings_view(reps@),
            strings_view(out@) == rv.take(k as int).map_values(|x: Seq<char>| add@ + x),
        decreases reps@.len() - k,
    {
        let mut y = add.to_string();
        push_str(&mut y, reps[k].as_str());
        assert(rv[k as int] == reps@[k as int]@);
        let ghost before = strings_view(out@);
        out.push(y);
        assert(strings_view(out@) =~= before.push(y@));
        assert(rv.take(k + 1).map_values(|x: Seq<char>| add@ + x) =~= rv.take(k as int).map_values(
            |x: Seq<char>| add@ + x,
        ).push(add@ + rv[k as int]));
        k = k + 1;
    }
    assert(rv.take(reps@.len() as int) =~= rv);
    out
}

/// `add` put after each of `reps`.
pub fn append_all(reps: &Vec<String>, add: &str) -> (r: Vec<String>)
    ensures
        strings_view(r@) == strings_view(reps@).map_values(|x: Seq<char>| x + add@),
{
    let ghost rv = strings_view(reps@);
    let mut out: Vec<String> = Vec::new();
    let mut k: usize = 0;
    while k < reps.len()
        invariant
            k <= reps@.len(),
            rv == strings_view(reps@),
            strings_view(out@) == rv.take(k as int).map_values(|x: Seq<char>| x + add@),
        decreases reps@.len() - k,
    {
        let mut y = reps[k].clone();
        push_str(&mut y, add);
        assert(rv[k as int] == reps@[k as int]@);
        let ghost before = strings_view(out@);
        out.push(y);
        assert(strings_view(out@) =~= before.push(y@));
        assert(rv.take(k + 1).map_values(|x: Seq<char>| x + add@) =~= rv.take(k as int).map_values(
            |x: Seq<char>| x + add@,
        ).push(rv[k as int] + add@));
        k = k + 1;
    }
    assert(rv.take(reps@.len() as int) =~= rv);
    out
}

/// Stretches `e` back over `f` where they overlap.
fn step_left_exec(e: ErrMark, f: &ErrMark, text: &Vec<char>) -> (r: ErrMark)
    requires
        span_valid(text@, e@),
        span_valid(text@, f@),
    ensures
        r@ == step_left(e@, f@, text@),
        span_valid(text@, r@),
        form_ok(text@, e@) ==> form_ok(text@, r@),
{
    if f.beg < e.beg && f.end >= e.beg {
        proof {
            assert(boundary(text@, f.beg as int) is Some);
            assert(boundary(text@, e.beg as int) is Some);
            assert(boundary(text@, e.end as int) is Some);
            lemma_get_some(text@, f.beg as int, e.beg as int);
            assert(e.beg <= e.end) by {
                lemma_boundary_order_rev(text@, e.beg as int, e.end as int);
            }
            lemma_get_some(text@, f.beg as int, e.end as int);
        }
        let (a, b) = match get_range(text, f.beg, e.beg) {
            Some(p) => p,
            None => {
                return e;
            },
        };
        let add = string_of(text, a, b);
        proof {
            if form_ok(text@, e@) {
                lemma_str_get_join(text@, f.beg as int, e.beg as int, e.end as int);
            }
        }
        let mut form = add.clone();
        push_str(&mut form, e.form.as_str());
        let rep = prepend_all(&e.rep, add.as_str());
        ErrMark { form, beg: f.beg, end: e.end, err: e.err, msg: e.msg, rep }
    } else {
        e
    }
}

/// Stretches `e` on over `f` where they overlap.
fn step_right_exec(e: ErrMark, f: &ErrMark, text: &Vec<char>) -> (r: ErrMark)
    requires
        span_valid(text@, e@),
        span_valid(text@, f@),
    ensures
        r@ == step_right(e@, f@, text@),
        span_valid(text@, r@),
        form_ok(text@, e@) ==> form_ok(text@, r@),
{
    if f.end > e.end && f.beg <= e.end {
        proof {
            assert(boundary(text@, f.end as int) is Some);
            assert(boundary(text@, e.beg as int) is Some);
            assert(boundary(text@, e.end as int) is Some);
            lemma_get_some(text@, e.end as int, f.end as int);
            assert(e.beg <= e.end) by {
                lemma_boundary_order_rev(text@, e.beg as int, e.end as int);
            }
            lemma_get_some(text@, e.beg as int, f.end as int);
        }
        let (a, b) = match get_range(text, e.end, f.end) {
            Some(p) => p,
            None => {
                return e;
            },
        };
        let add = string_of(text, a, b);
        proof {
            if form_ok(text@, e@) {
                lemma_str_get_join(text@, e.beg as int, e.end as int, f.end as int);
            }
        }
        let mut form = e.form.clone();
        push_str(&mut form, add.as_str());
        let rep = append_all(&e.rep, add.as_str());
        ErrMark { form, beg: e.beg, end: f.end, err: e.err, msg: e.msg, rep }
    } else {
        e
    }
}

proof fn lemma_back_len(s: Seq<ErrMarkV>, k: nat, text: Seq<char>)
    requires
        k <= s.len(),
    ensures
        back_fold(s, k, text).len() == s.len(),
    decreases k,
{
    if k > 1 {
        lemma_back_len(s, (k - 1) as nat, text);
    }
}

/// Stretches overlapping errors over each other: sorted by start, each is
/// stretched back over those before it; then sorted by end, each is
/// stretched on over those after it. The errors stay as many, each span
/// stays a character range of the text, and where each error's form was the
/// text of its span, each still is.
pub fn expand_errs(errs: &mut Vec<ErrMark>, text: &str)
    requires
        all_valid(text@, errs_v(old(errs)@)),
    ensures
        errs_v(final(errs)@) == expanded(errs_v(old(errs)@), text@),
        final(errs)@.len() == old(errs)@.len(),
        all_valid(text@, errs_v(final(errs)@)),
        forms_match(text@, errs_v(old(errs)@)) ==> forms_match(text@, errs_v(final(errs)@)),
{
    let ghost e0 = errs_v(errs@);
    let ghost fm = forms_match(text@, e0);
    let n = errs.len();
    if n < 2 {
        return;
    }
    let tv = chars_of(text);
    let mut v: Vec<ErrMark> = Vec::new();
    std::mem::swap(&mut v, errs);
    v = sort_errs_by(v, false);
    let ghost sorted = errs_v(v@);
    proof {
        lemma_sort_valid(text@, e0, false);
        if fm {
            lemma_sort_forms(text@, e0, false);
        }
    }
    let mut i: usize = 1;
    while i < n
        invariant
            fm == forms_match(text@, e0),
            fm ==> forms_match(text@, errs_v(v@)),
            1 <= i <= n,
            n == e0.len(),
            sorted == sort_by(e0, false),
            sorted.len() == n,
            tv@ == text@,
            errs_v(v@) == back_fold(sorted, i as nat, text@),
            v@.len() == n,
            all_valid(text@, errs_v(v@)),
        decreases n - i,
    {
        let ghost t = errs_v(v@);
        let mut e = v.remove(i);
        assert(t[i as int] == e@);
        assert(span_valid(text@, t[i as int]));
        let ghost ev0 = e@;
        let mut j = i;
        assert(t.take(i as int) =~= t.take(j as int));
        while j > 0
            invariant
                j <= i < n,
                v@.len() == n - 1,
                forall|q: int| 0 <= q < i ==> #[trigger] v@[q]@ == t[q],
                all_valid(text@, t),
                t.len() == n,
                tv@ == text@,
                span_valid(text@, e@),
                fm ==> forms_match(text@, t) && form_ok(text@, e@),
                extend_left(ev0, t.take(i as int), text@) == extend_left(e@, t.take(j as int), text@),
            decreases j,
        {
            assert(v@[j - 1]@ == t[j - 1]);
            assert(span_valid(text@, t[j - 1]));
            assert(fm ==> form_ok(text@, t[j - 1]));
            let ghost before = e@;
            e = step_left_exec(e, &v[j - 1], &tv);
            assert(t.take(j as int).last() == t[j - 1]);
            assert(t.take(j as int).drop_last() =~= t.take(j - 1));
            j = j - 1;
        }
        assert(t.take(0) =~= Seq::<ErrMarkV>::empty());
        let ghost ev = e@;
        v.insert(i, e);
        proof {
            lemma_back_len(sorted, i as nat, text@);
            assert(errs_v(v@) =~= t.update(i as int, ev));
            assert forall|q: int| 0 <= q < n implies span_valid(text@, #[trigger] errs_v(v@)[q]) by {
                if q != i {
                    assert(errs_v(v@)[q] == t[q]);
                }
            }
            if fm {
                assert forall|q: int| 0 <= q < n implies form_ok(text@, #[trigger] errs_v(v@)[q]) by {
                    if q != i {
                        assert(errs_v(v@)[q] == t[q]);
                    }
                }
            }
        }
        i = i + 1;
    }
    let ghost back = errs_v(v@);
    proof {
        lemma_back_len(sorted, n as nat, text@);
        lemma_sort_valid(text@, back, true);
        if fm {
            lemma_sort_forms(text@, back, true);
        }
    }
    v = sort_errs_by(v, true);
    let ghost sorted2 = errs_v(v@);
    let mut m: usize = 0;
    while m < n - 1
        invariant
            fm == forms_match(text@, e0),
            fm ==> forms_match(text@, errs_v(v@)),
            m <= n - 1,
            n >= 2,
            n == e0.len(),
            sorted2 == sort_by(back, true),
            sorted2.len() == n,
            tv@ == text@,
            errs_v(v@) == fwd_fold(sorted2, m as nat, text@),
            v@.len() == n,
            all_valid(text@, errs_v(v@)),
        decreases n - 1 - m,
    {
        let i = n - 2 - m;
        let ghost t = errs_v(v@);
        let mut e = v.remove(i);
        assert(t[i as int] == e@);
        assert(span_valid(text@, t[i as int]));
        let ghost ev0 = e@;
        let ghost fs = t.skip(i + 1);
        let mut j = i;
        assert(fs.take(0) =~= Seq::<ErrMarkV>::empty());
        while j < n - 1
            invariant
                i <= j <= n - 1,
                v@.len() == n - 1,
                forall|q: int| i <= q < n - 1 ==> #[trigger] v@[q]@ == t[q + 1],
                all_valid(text@, t),
                t.len() == n,
                fs == t.skip(i + 1),
                tv@ == text@,
                span_valid(text@, e@),
                fm ==> forms_match(text@, t) && form_ok(text@, e@),
                e@ == extend_right(ev0, fs.take(j - i), text@),
            decreases n - 1 - j,
        {
            assert(v@[j as int]@ == t[j + 1]);
            assert(span_valid(text@, t[j + 1]));
            assert(fm ==> form_ok(text@, t[j + 1]));
            e = step_right_exec(e, &v[j], &tv);
            assert(fs.take(j + 1 - i).drop_last() =~= fs.take(j - i));
            assert(fs.take(j + 1 - i).last() == t[j + 1]);
            j = j + 1;
        }
        assert(fs.take(j - i) =~= fs);
        let ghost ev = e@;
        v.insert(i, e);
        proof {
            assert(errs_v(v@) =~= t.update(i as int, ev));
            assert((n - 1 - (m + 1)) as int == i as int);
            assert forall|q: int| 0 <= q < n implies span_valid(text@, #[trigger] errs_v(v@)[q]) by {
                if q != i {
                    assert(errs_v(v@)[q] == t[q]);
                }
            }
            if fm {
                assert forall|q: int| 0 <= q < n implies form_ok(text@, #[trigger] errs_v(v@)[q]) by {
                    if q != i {
                        assert(errs_v(v@)[q] == t[q]);
                    }
                }
            }
        }
        m = m + 1;
    }
    *errs = v;
}

/// When a sentence is complete: at the end of the input only, or also at
/// a delimiter cohort (or after too many cohorts).
#[derive(Debug, PartialEq, Eq, Structural, Clone, Copy)]
pub enum FlushOn {
    Nul,
    NulAndDelimiters,
}

/// The forms of the cohorts that end a sentence: `.`, `?` and `!`.
pub fn default_delimiters() -> (d: Vec<String>)
    ensures
        strings_view(d@) == seq![".".view(), "?".view(), "!".view()],
{
    let mut d: Vec<String> = Vec::new();
    d.push(".".to_string());
    d.push("?".to_string());
    d.push("!".to_string());
    assert(strings_view(d@) =~= seq![".".view(), "?".view(), "!".view()]);
    d
}

/// The cohort built from a CG-3 cohort at byte position `pos`: its one
/// reading is the merged reading of its subreadings (`generated[i]` are the
/// forms generated for subreading `i`); its id, error types and added status
/// are the reading's.
pub open spec fn cohort_of(
    c: CgCohortV,
    pos: nat,
    raw: Seq<char>,
    generate_all: bool,
    generated: Seq<Seq<Seq<char>>>,
) -> CohortV {
    let r = reading_of(subs_of(c.readings, generate_all), generate_all, generated);
    CohortV {
        form: c.word_form,
        pos,
        id: r.id,
        readings: seq![r],
        errtypes: set_extend(Seq::empty(), r.errtypes),
        coerrtypes: set_extend(Seq::empty(), r.coerrtypes),
        added: r.added,
        raw_pre_blank: raw,
    }
}

/// Reading a CG-3 stream into a sentence: the cohorts saved so far, the
/// text so far, the blank since the last cohort, the cohort being read, the
/// number of cohorts read, whether the sentence ended early, and whether
/// every byte position so far fits in a `usize`.
pub struct RunV {
    pub cohorts: Seq<CohortV>,
    pub text: Seq<char>,
    pub raw_blank: Seq<char>,
    pub current: Option<CohortV>,
    pub k: nat,
    pub done: bool,
    pub ok: bool,
}

/// Saves the cohort being read: it is placed at the end of the text so far,
/// takes the blank before it, and its form joins the text unless it is an
/// added word.
pub open spec fn save(st: RunV) -> RunV {
    match st.current {
        None => st,
        Some(c) => {
            let pos = utf8_len(st.text);
            RunV {
                cohorts: st.cohorts.push(CohortV { pos, raw_pre_blank: st.raw_blank, ..c }),
                text: if c.added == AddedStatus::NotAdded {
                    st.text + c.form
                } else {
                    st.text
                },
                raw_blank: Seq::empty(),
                current: None,
                ok: st.ok && pos + utf8_len(c.form) <= usize::MAX,
                ..st
            }
        },
    }
}

/// One item of the stream: a cohort saves the one being read and starts a
/// new one (which may end the sentence); a blank joins the blank and, in
/// its text form, the sentence text; an error is skipped.
pub open spec fn run_step(
    st: RunV,
    item: ItemV,
    flush_on: FlushOn,
    delimiters: Seq<Seq<char>>,
    hard_limit: nat,
    generate_all: bool,
    generated: Seq<Seq<Seq<Seq<char>>>>,
) -> RunV {
    if st.done {
        st
    } else {
        match item {
            Err(_) => st,
            Ok(BlockV::Cohort(cg)) => {
                let s1 = save(st);
                let cur = cohort_of(
                    cg,
                    utf8_len(s1.text),
                    Seq::empty(),
                    generate_all,
                    if st.k < generated.len() {
                        generated[st.k as int]
                    } else {
                        Seq::empty()
                    },
                );
                RunV {
                    current: Some(cur),
                    k: st.k + 1,
                    done: flush_on == FlushOn::NulAndDelimiters && (delimiters.contains(cur.form)
                        || s1.cohorts.len() >= hard_limit),
                    ..s1
                }
            },
            Ok(BlockV::Text(t)) => blank_step_run(st, t),
            Ok(BlockV::StreamCmd(t)) => blank_step_run(st, t),
            Ok(BlockV::Escaped(t)) => blank_step_run(st, t),
        }
    }
}

pub open spec fn blank_step_run(st: RunV, t: Seq<char>) -> RunV {
    let text = st.text + cleaned_blank(t);
    RunV { raw_blank: st.raw_blank + t, text, ok: st.ok && utf8_len(text) <= usize::MAX, ..st }
}

pub open spec fn run_fold(
    items: Seq<ItemV>,
    flush_on: FlushOn,
    delimiters: Seq<Seq<char>>,
    hard_limit: nat,
    generate_all: bool,
    generated: Seq<Seq<Seq<Seq<char>>>>,
) -> RunV
    decreases items.len(),
{
    if items.len() == 0 {
        RunV {
            cohorts: Seq::empty(),
            text: Seq::empty(),
            raw_blank: Seq::empty(),
            current: None,
            k: 0,
            done: false,
            ok: true,
        }
    } else {
        run_step(
            run_fold(items.drop_last(), flush_on, delimiters, hard_limit, generate_all, generated),
            items.last(),
            flush_on,
            delimiters,
            hard_limit,
            generate_all,
            generated,
        )
    }
}

/// A sentence read from the items of a stream, the last cohort saved.
pub open spec fn read_run(
    items: Seq<ItemV>,
    flush_on: FlushOn,
    delimiters: Seq<Seq<char>>,
    hard_limit: nat,
    generate_all: bool,
    generated: Seq<Seq<Seq<Seq<char>>>>,
) -> RunV {
    save(run_fold(items, flush_on, delimiters, hard_limit, generate_all, generated))
}

/// Cohort `c` stands at character `j` of `text`: `j` is where its byte
/// position falls, and its form is there unless it is an added word.
pub open spec fn placed_at(text: Seq<char>, c: CohortV, j: int) -> bool {
    &&& 0 <= j <= text.len()
    &&& utf8_len(text.take(j)) == c.pos
    &&& c.added == AddedStatus::NotAdded ==> j + c.form.len() <= text.len() && text.subrange(
        j,
        j + c.form.len(),
    ) == c.form
}

/// Cohort `c` stands somewhere in `text`.
pub open spec fn has_place(text: Seq<char>, c: CohortV) -> bool {
    exists|j: int| #[trigger] placed_at(text, c, j)
}

/// Every cohort stands at its byte position in the text, and the positions
/// never go down.
pub open spec fn cohorts_placed(cs: Seq<CohortV>, text: Seq<char>) -> bool {
    &&& forall|i: int| 0 <= i < cs.len() ==> #[trigger] has_place(text, cs[i])
    &&& forall|i: int, k: int| 0 <= i < k < cs.len() ==> #[trigger] cs[i].pos <= #[trigger] cs[k].pos
    &&& forall|i: int| 0 <= i < cs.len() ==> #[trigger] cs[i].pos <= utf8_len(text)
}

proof fn lemma_placed_extend(text: Seq<char>, e: Seq<char>, c: CohortV, j: int)
    requires
        placed_at(text, c, j),
    ensures
        placed_at(text + e, c, j),
{
    assert((text + e).take(j) =~= text.take(j));
    if c.added == AddedStatus::NotAdded {
        assert((text + e).subrange(j, j + c.form.len()) =~= text.subrange(j, j + c.form.len()));
    }
}

proof fn lemma_cohorts_placed_extend(cs: Seq<CohortV>, text: Seq<char>, e: Seq<char>)
    requires
        cohorts_placed(cs, text),
    ensures
        cohorts_placed(cs, text + e),
{
    assert forall|i: int| 0 <= i < cs.len() implies #[trigger] has_place(text + e, cs[i]) by {
        assert(has_place(text, cs[i]));
        let j = choose|j: int| placed_at(text, cs[i], j);
        lemma_placed_extend(text, e, cs[i], j);
    }
    lemma_utf8_len_concat(text, e);
    assert forall|i: int| 0 <= i < cs.len() implies #[trigger] cs[i].pos <= utf8_len(text + e) by {}
}

proof fn lemma_save_placed(st: RunV)
    requires
        cohorts_placed(st.cohorts, st.text),
    ensures
        cohorts_placed(save(st).cohorts, save(st).text),
{
    if let Some(c) = st.current {
        let pos = utf8_len(st.text);
        let c2 = CohortV { pos, raw_pre_blank: st.raw_blank, ..c };
        let e = if c.added == AddedStatus::NotAdded {
            c.form
        } else {
            Seq::empty()
        };
        assert(save(st).text =~= st.text + e);
        lemma_cohorts_placed_extend(st.cohorts, st.text, e);
        let t2 = st.text + e;
        let cs2 = st.cohorts.push(c2);
        assert(save(st).cohorts == cs2);
        assert(save(st).text == t2);
        assert(t2.take(st.text.len() as int) =~= st.text);
        if c.added == AddedStatus::NotAdded {
            assert(t2.subrange(st.text.len() as int, (st.text.len() + c.form.len()) as int) =~= c.form);
        }
        assert(placed_at(t2, c2, st.text.len() as int));
        lemma_utf8_len_concat(st.text, e);
        assert forall|i: int| 0 <= i < cs2.len() implies #[trigger] has_place(t2, cs2[i]) by {
            if i == st.cohorts.len() {
                assert(placed_at(t2, cs2[i], st.text.len() as int));
            } else {
                assert(cs2[i] == st.cohorts[i]);
                assert(has_place(t2, st.cohorts[i]));
            }
        }
        assert forall|i: int, k: int| 0 <= i < k < cs2.len() implies #[trigger] cs2[i].pos <= #[trigger] cs2[k].pos by {
            if k == st.cohorts.len() {
                assert(cs2[i] == st.cohorts[i]);
            } else {
                assert(cs2[i] == st.cohorts[i] && cs2[k] == st.cohorts[k]);
            }
        }
        assert forall|i: int| 0 <= i < cs2.len() implies #[trigger] cs2[i].pos <= utf8_len(t2) by {
            if i < st.cohorts.len() {
                assert(cs2[i] == st.cohorts[i]);
            }
        }
    }
}

proof fn lemma_run_fold_placed(
    items: Seq<ItemV>,
    flush_on: FlushOn,
    delimiters: Seq<Seq<char>>,
    hard_limit: nat,
    generate_all: bool,
    generated: Seq<Seq<Seq<Seq<char>>>>,
)
    ensures
        ({
            let st = run_fold(items, flush_on, delimiters, hard_limit, generate_all, generated);
            cohorts_placed(st.cohorts, st.text)
        }),
    decreases items.len(),
{
    if items.len() > 0 {
        lemma_run_fold_placed(items.drop_last(), flush_on, delimiters, hard_limit, generate_all, generated);
        let st = run_fold(items.drop_last(), flush_on, delimiters, hard_limit, generate_all, generated);
        if !st.done {
            match items.last() {
                Ok(BlockV::Cohort(_)) => {
                    lemma_save_placed(st);
                },
                Ok(BlockV::Text(t)) => {
                    lemma_cohorts_placed_extend(st.cohorts, st.text, cleaned_blank(t));
                },
                Ok(BlockV::StreamCmd(t)) => {
                    lemma_cohorts_placed_extend(st.cohorts, st.text, cleaned_blank(t));
                },
                Ok(BlockV::Escaped(t)) => {
                    lemma_cohorts_placed_extend(st.cohorts, st.text, cleaned_blank(t));
                },
                Err(_) => {},
            }
        }
    }
}

/// In a sentence read from a stream, every cohort stands at its byte
/// position in the sentence text, its form there unless it is an added
/// word, and the positions of the cohorts never go down.
pub proof fn lemma_read_run_positions(
    items: Seq<ItemV>,
    flush_on: FlushOn,
    delimiters: Seq<Seq<char>>,
    hard_limit: nat,
    generate_all: bool,
    generated: Seq<Seq<Seq<Seq<char>>>>,
)
    ensures
        ({
            let st = read_run(items, flush_on, delimiters, hard_limit, generate_all, generated);
            cohorts_placed(st.cohorts, st.text)
        }),
{
    lemma_run_fold_placed(items, flush_on, delimiters, hard_limit, generate_all, generated);
    lemma_save_placed(run_fold(items, flush_on, delimiters, hard_limit, generate_all, generated));
}

pub open spec fn nested2_view(v: Seq<Vec<Vec<String>>>) -> Seq<Seq<Seq<Seq<char>>>> {
    v.map_values(|x: Vec<Vec<String>>| nested_view(x@))
}

/// The settings of error markup: the message language, the error ids to
/// ignore or (where not empty) to keep only, the forms that end a sentence
/// and the most cohorts a sentence may have, and whether every reading gets
/// generated suggestions.
#[derive(Debug)]
pub struct Suggester {
    pub locale: String,
    pub ignores: IdSet,
    pub includes: IdSet,
    pub delimiters: Vec<String>,
    pub hard_limit: usize,
    pub generate_all_readings: bool,
}

impl Suggester {
    /// A suggester with the default delimiters and a limit of 1000 cohorts.
    pub fn new(locale: String, generate_all_readings: bool, ignores: Option<IdSet>, includes: Option<IdSet>) -> (s: Suggester)
        ensures
            s.locale@ == locale@,
            s.generate_all_readings == generate_all_readings,
            s.hard_limit == 1000,
            strings_view(s.delimiters@) == seq![".".view(), "?".view(), "!".view()],
            s.ignores.ids@ == (match ignores {
                Some(i) => i.ids@,
                None => Seq::empty(),
            }),
            s.includes.ids@ == (match includes {
                Some(i) => i.ids@,
                None => Seq::empty(),
            }),
    {
        Suggester {
            locale,
            ignores: match ignores {
                Some(i) => i,
                None => IdSet::new(),
            },
            includes: match includes {
                Some(i) => i,
                None => IdSet::new(),
            },
            delimiters: default_delimiters(),
            hard_limit: 1000,
            generate_all_readings,
        }
    }

    /// The cohort of a CG-3 cohort at byte position `pos`, with the blank
    /// `raw_pre_blank` before it; `generated[i]` are the forms generated for
    /// its subreading `i`.
    pub fn process_cohort(&self, cg_cohort: &CgCohort, pos: usize, raw_pre_blank: String, generated: &Vec<Vec<String>>) -> (c: Cohort)
        ensures
            c@ == cohort_of(
                cg_cohort@,
                pos as nat,
                raw_pre_blank@,
                self.generate_all_readings,
                nested_view(generated@),
            ),
    {
        let reading = proc_reading(cg_cohort, self.generate_all_readings, generated);
        let mut errtypes: Vec<String> = Vec::new();
        assert(strings_view(errtypes@) =~= Seq::<Seq<char>>::empty());
        extend_names(&mut errtypes, &reading.errtypes);
        let mut coerrtypes: Vec<String> = Vec::new();
        assert(strings_view(coerrtypes@) =~= Seq::<Seq<char>>::empty());
        extend_names(&mut coerrtypes, &reading.coerrtypes);
        let id = reading.id;
        let added = reading.added;
        let mut readings: Vec<Reading> = Vec::new();
        readings.push(reading);
        let c = Cohort {
            form: cg_cohort.word_form.clone(),
            pos,
            id,
            readings,
            errtypes,
            coerrtypes,
            added,
            raw_pre_blank,
        };
        assert(c@.readings =~= seq![c.readings@[0]@]);
        c
    }
}

/// A position moved on by the UTF-8 length of `s`, where that fits.
pub fn add_len(pos: usize, s: &str) -> (r: Option<usize>)
    ensures
        r matches Some(n) ==> n == pos + utf8_len(s@),
        r is None ==> pos + utf8_len(s@) > usize::MAX,
{
    let v = chars_of(s);
    let mut n = pos;
    let mut i: usize = 0;
    assert(s@.take(0) =~= Seq::<char>::empty());
    while i < v.len()
        invariant
            i <= v@.len(),
            v@ == s@,
            n == pos + utf8_len(s@.take(i as int)),
        decreases v@.len() - i,
    {
        let w = char_len_utf8(v[i]);
        assert(s@.take(i + 1).drop_last() =~= s@.take(i as int));
        assert(s@.take(i + 1).last() == v@[i as int]);
        match n.checked_add(w) {
            Some(m) => {
                n = m;
            },
            None => {
                proof {
                    lemma_utf8_len_prefix(s@, i + 1);
                }
                return None;
            },
        }
        i = i + 1;
    }
    assert(s@.take(v@.len() as int) =~= s@);
    Some(n)
}

/// Once a position does not fit, the reading fails.
proof fn lemma_run_ok_mono(
    items: Seq<ItemV>,
    n: int,
    flush_on: FlushOn,
    delimiters: Seq<Seq<char>>,
    hard_limit: nat,
    generate_all: bool,
    generated: Seq<Seq<Seq<Seq<char>>>>,
)
    requires
        0 <= n <= items.len(),
        !run_fold(items.take(n), flush_on, delimiters, hard_limit, generate_all, generated).ok,
    ensures
        !read_run(items, flush_on, delimiters, hard_limit, generate_all, generated).ok,
    decreases items.len() - n,
{
    if n < items.len() {
        assert(items.take(n + 1).drop_last() =~= items.take(n));
        lemma_run_ok_mono(items, n + 1, flush_on, delimiters, hard_limit, generate_all, generated);
    } else {
        assert(items.take(n) =~= items);
    }
}

pub open spec fn opt_cohort_view(c: Option<Cohort>) -> Option<CohortV> {
    match c {
        Some(x) => Some(x@),
        None => None,
    }
}

/// The cohort being read saved into the sentence; `false` where its byte
/// span does not fit.
fn save_exec(
    cohorts: &mut Vec<Cohort>,
    text: &mut String,
    raw_blank: &mut String,
    current: &mut Option<Cohort>,
    pos: &mut usize,
) -> (ok: bool)
    requires
        *old(pos) == utf8_len(old(text)@),
    ensures
        ({
            let st = RunV {
                cohorts: cohorts_v(old(cohorts)@),
                text: old(text)@,
                raw_blank: old(raw_blank)@,
                current: opt_cohort_view(*old(current)),
                k: 0,
                done: false,
                ok: true,
            };
            let s2 = save(st);
            &&& ok == s2.ok
            &&& ok ==> cohorts_v(final(cohorts)@) == s2.cohorts && final(text)@ == s2.text
                && final(raw_blank)@ == s2.raw_blank && (*final(current)) is None && *final(pos)
                == utf8_len(final(text)@)
            &&& ok ==> (positions_fit(cohorts_v(old(cohorts)@)) ==> positions_fit(
                cohorts_v(final(cohorts)@),
            ))
        }),
{
    let cur = current.take();
    match cur {
        None => {
            true
        },
        Some(mut c) => {
            let end = add_len(*pos, c.form.as_str());
            match end {
                None => false,
                Some(e) => {
                    c.pos = *pos;
                    let mut blank = String::new();
                    std::mem::swap(&mut blank, raw_blank);
                    c.raw_pre_blank = blank;
                    if c.added == AddedStatus::NotAdded {
                        proof {
                            crate::text::lemma_utf8_len_concat(text@, c.form@);
                        }
                        push_str(text, c.form.as_str());
                        *pos = e;
                    }
                    let ghost cv = c@;
                    let ghost before = cohorts_v(cohorts@);
                    assert(cv.pos + utf8_len(cv.form) <= usize::MAX);
                    cohorts.push(c);
                    assert(cohorts_v(cohorts@) =~= before.push(cv));
                    assert(positions_fit(before) ==> positions_fit(cohorts_v(cohorts@))) by {
                        if positions_fit(before) {
                            assert forall|i: int| 0 <= i < cohorts_v(cohorts@).len() implies #[trigger] cohorts_v(cohorts@)[i].pos
                                + utf8_len(cohorts_v(cohorts@)[i].form) <= usize::MAX by {
                                if i < before.len() {
                                    assert(cohorts_v(cohorts@)[i] == before[i]);
                                }
                            }
                        }
                    }
                    true
                },
            }
        },
    }
}

impl Suggester {
    /// Reads a sentence from a CG-3 stream (trimmed first): its cohorts,
    /// each at its byte position in the sentence text, with the blank before
    /// it; the text of its blanks and of its words (but added ones); and the
    /// blank after its last cohort. `generated[k][i]` are the forms generated
    /// for subreading `i` of the stream's cohort `k`. `None` where a byte
    /// position would not fit in a `usize`. Its errors are marked by
    /// `mk_errs`. A stream that stops at a cohort header it cannot read is
    /// left out: its reading would not end.
    pub fn run_sentence(&self, reader: &str, flush_on: FlushOn, generated: &Vec<Vec<Vec<String>>>) -> (r: Option<Sentence>)
        requires
            !stream_panics(crate::text::trim(reader@)),
            !scan(crate::text::lines(crate::text::trim(reader@))).stopped,
            lines_fit(crate::text::trim(reader@)),
        ensures
            ({
                let st = read_run(
                    blocks(crate::text::trim(reader@)),
                    flush_on,
                    strings_view(self.delimiters@),
                    self.hard_limit as nat,
                    self.generate_all_readings,
                    nested2_view(generated@),
                );
                match r {
                    Some(s) => st.ok && cohorts_v(s.cohorts@) == st.cohorts && s.text@ == st.text
                        && s.raw_final_blank@ == st.raw_blank && s.errs@.len() == 0 && positions_fit(
                        cohorts_v(s.cohorts@),
                    ) && cohorts_placed(cohorts_v(s.cohorts@), s.text@) && ids_indexed(
                        s.ids_cohorts@,
                        cohorts_v(s.cohorts@),
                    ),
                    None => !st.ok,
                }
            }),
    {
        let trimmed = crate::text::trimmed(reader);
        let input = Output::new(trimmed.as_str());
        let items = input.iter();
        let ghost iv = items_view(items@);
        let ghost dv = strings_view(self.delimiters@);
        let ghost gv = nested2_view(generated@);
        let mut cohorts: Vec<Cohort> = Vec::new();
        let mut text = String::new();
        let mut raw_blank = String::new();
        let mut current: Option<Cohort> = None;
        let mut pos: usize = 0;
        let mut k: usize = 0;
        let mut done = false;
        let mut j: usize = 0;
        assert(iv.take(0) =~= Seq::<ItemV>::empty());
        assert(cohorts_v(cohorts@) =~= Seq::<CohortV>::empty());
        while j < items.len()
            invariant
                j <= items@.len(),
                iv == items_view(items@),
                iv == blocks(crate::text::trim(reader@)),
                dv == strings_view(self.delimiters@),
                gv == nested2_view(generated@),
                pos == utf8_len(text@),
                positions_fit(cohorts_v(cohorts@)),
                k <= j,
                run_fold(iv.take(j as int), flush_on, dv, self.hard_limit as nat, self.generate_all_readings, gv) == (
                RunV {
                    cohorts: cohorts_v(cohorts@),
                    text: text@,
                    raw_blank: raw_blank@,
                    current: opt_cohort_view(current),
                    k: k as nat,
                    done,
                    ok: true,
                }),
            decreases items@.len() - j,
        {
            assert(iv.take(j + 1).drop_last() =~= iv.take(j as int));
            assert(iv.take(j + 1).last() == iv[j as int]);
            assert(iv[j as int] == crate::cg3::item_view(items@[j as int]));
            if !done {
                match &items[j] {
                    Err(_) => {},
                    Ok(Block::Cohort(cg)) => {
                        assert(iv[j as int] == Ok::<BlockV, crate::cg3::ParseErrorV>(BlockV::Cohort(cg@)));
                        let ghost st0 = RunV {
                            cohorts: cohorts_v(cohorts@),
                            text: text@,
                            raw_blank: raw_blank@,
                            current: opt_cohort_view(current),
                            k: k as nat,
                            done,
                            ok: true,
                        };
                        let ghost st00 = RunV { k: 0, done: false, ..st0 };
                        assert(save(st00).ok == save(st0).ok);
                        let ok = save_exec(&mut cohorts, &mut text, &mut raw_blank, &mut current, &mut pos);
                        if !ok {
                            proof {
                                assert(!run_step(st0, iv[j as int], flush_on, dv, self.hard_limit as nat, self.generate_all_readings, gv).ok);
                                lemma_run_ok_mono(
                                    iv,
                                    j + 1,
                                    flush_on,
                                    dv,
                                    self.hard_limit as nat,
                                    self.generate_all_readings,
                                    gv,
                                );
                            }
                            return None;
                        }
                        let empty: Vec<Vec<String>> = Vec::new();
                        let gen = if k < generated.len() {
                            &generated[k]
                        } else {
                            &empty
                        };
                        assert(nested_view(empty@) =~= Seq::<Seq<Seq<char>>>::empty());
                        let c = self.process_cohort(cg, pos, String::new(), gen);
                        if flush_on == FlushOn::NulAndDelimiters {
                            if contains_string(&self.delimiters, c.form.as_str())
                                || cohorts.len() >= self.hard_limit {
                                done = true;
                            }
                        }
                        current = Some(c);
                        k = k + 1;
                    },
                    Ok(Block::Text(t)) | Ok(Block::StreamCmd(t)) | Ok(Block::Escaped(t)) => {
                        push_str(&mut raw_blank, t.as_str());
                        let clean = clean_blank(t.as_str());
                        match add_len(pos, clean.as_str()) {
                            None => {
                                proof {
                                    crate::text::lemma_utf8_len_concat(text@, clean@);
                                    assert(!run_fold(iv.take(j + 1), flush_on, dv, self.hard_limit as nat, self.generate_all_readings, gv).ok);
                                    lemma_run_ok_mono(
                                        iv,
                                        j + 1,
                                        flush_on,
                                        dv,
                                        self.hard_limit as nat,
                                        self.generate_all_readings,
                                        gv,
                                    );
                                }
                                return None;
                            },
                            Some(p) => {
                                proof {
                                    crate::text::lemma_utf8_len_concat(text@, clean@);
                                }
                                push_str(&mut text, clean.as_str());
                                pos = p;
                            },
                        }
                    },
                }
            }
            j = j + 1;
        }
        assert(iv.take(items@.len() as int) =~= iv);
        let ok = save_exec(&mut cohorts, &mut text, &mut raw_blank, &mut current, &mut pos);
        if !ok {
            return None;
        }
        proof {
            lemma_read_run_positions(
                blocks(crate::text::trim(reader@)),
                flush_on,
                dv,
                self.hard_limit as nat,
                self.generate_all_readings,
                gv,
            );
        }
        let ids_cohorts = index_ids(&cohorts);
        Some(Sentence { cohorts, ids_cohorts, text, raw_final_blank: raw_blank, errs: Vec::new() })
    }
}

pub open spec fn msgs_view(v: Seq<(String, String)>) -> Seq<(Seq<char>, Seq<char>)> {
    v.map_values(|m: (String, String)| (m.0@, m.1@))
}

/// The message of slot `j`: the one given, or the error id as title and
/// description where none is.
pub open spec fn msg_of(msgs: Seq<(Seq<char>, Seq<char>)>, j: int, e: Seq<char>) -> (Seq<char>, Seq<char>) {
    if j < msgs.len() {
        msgs[j]
    } else {
        (e, e)
    }
}

/// The errors marked for the slots (cohort index, error id), in order, with
/// their messages; the skipped ones leave no error.
pub open spec fn marks_of(
    slots: Seq<(int, Seq<char>)>,
    msgs: Seq<(Seq<char>, Seq<char>)>,
    cohorts: Seq<CohortV>,
    text: Seq<char>,
    ignores: Seq<Id>,
    includes: Seq<Id>,
) -> Seq<ErrMarkV>
    decreases slots.len(),
{
    if slots.len() == 0 {
        Seq::empty()
    } else {
        let j = slots.len() - 1;
        let (i_c, e) = slots.last();
        marks_of(slots.drop_last(), msgs, cohorts, text, ignores, includes) + if skipped(
            e,
            cohorts[i_c],
            ignores,
            includes,
        ) {
            Seq::empty()
        } else {
            seq![err_mark(e, i_c, cohorts, text, msg_of(msgs, j, e))]
        }
    }
}

/// Every slot that is marked has a span that is a character range of the
/// text.
pub open spec fn slots_ok(
    slots: Seq<(int, Seq<char>)>,
    cohorts: Seq<CohortV>,
    text: Seq<char>,
    ignores: Seq<Id>,
    includes: Seq<Id>,
) -> bool {
    forall|j: int|
        0 <= j < slots.len() ==> (skipped(slots[j].1, cohorts[slots[j].0], ignores, includes) || str_get(
            text,
            err_span(slots[j].1, slots[j].0, cohorts).0.0,
            err_span(slots[j].1, slots[j].0, cohorts).0.1,
        ) is Some)
}

impl Suggester {
    /// Whether error `err_id` of cohort `i_c` is skipped or has a span that
    /// is a character range of the text.
    pub fn slot_ok(&self, sentence: &Sentence, i_c: usize, err_id: &str) -> (b: bool)
        requires
            ids_indexed(sentence.ids_cohorts@, cohorts_v(sentence.cohorts@)),
            i_c < sentence.cohorts@.len(),
            positions_fit(cohorts_v(sentence.cohorts@)),
        ensures
            b == (skipped(err_id@, sentence.cohorts@[i_c as int]@, self.ignores.ids@, self.includes.ids@)
                || str_get(
                sentence.text@,
                err_span(err_id@, i_c as int, cohorts_v(sentence.cohorts@)).0.0,
                err_span(err_id@, i_c as int, cohorts_v(sentence.cohorts@)).0.1,
            ) is Some),
    {
        let c = &sentence.cohorts[i_c];
        if c.is_empty() || c.added != AddedStatus::NotAdded || self.ignores.matches(err_id) || (
        !self.includes.is_empty() && !self.includes.matches(err_id)) {
            return true;
        }
        let ((beg, end), _rep) = cohort_span(err_id, i_c, sentence);
        let tv = chars_of(sentence.text.as_str());
        get_range(&tv, beg, end).is_some()
    }

    /// Marks the errors of a sentence: each slot (cohort index, error id)
    /// with its message `msgs[j]` (its id where there is none), then the
    /// overlapping errors stretched over each other.
    pub fn mk_errs(&self, sentence: &mut Sentence, slots: &Vec<(usize, String)>, msgs: &Vec<(String, String)>)
        requires
            ids_indexed(old(sentence).ids_cohorts@, cohorts_v(old(sentence).cohorts@)),
            positions_fit(cohorts_v(old(sentence).cohorts@)),
            forall|j: int| 0 <= j < slots@.len() ==> #[trigger] slots@[j].0 < old(sentence).cohorts@.len(),
            slots_ok(
                slots_view(slots@),
                cohorts_v(old(sentence).cohorts@),
                old(sentence).text@,
                self.ignores.ids@,
                self.includes.ids@,
            ),
            all_valid(old(sentence).text@, errs_v(old(sentence).errs@)),
        ensures
            cohorts_v(final(sentence).cohorts@) == cohorts_v(old(sentence).cohorts@),
            final(sentence).ids_cohorts@ == old(sentence).ids_cohorts@,
            final(sentence).text@ == old(sentence).text@,
            final(sentence).raw_final_blank@ == old(sentence).raw_final_blank@,
            errs_v(final(sentence).errs@) == expanded(
                errs_v(old(sentence).errs@) + marks_of(
                    slots_view(slots@),
                    msgs_view(msgs@),
                    cohorts_v(old(sentence).cohorts@),
                    old(sentence).text@,
                    self.ignores.ids@,
                    self.includes.ids@,
                ),
                old(sentence).text@,
            ),
    {
        let ghost sv = slots_view(slots@);
        let ghost mv = msgs_view(msgs@);
        let ghost cv = cohorts_v(sentence.cohorts@);
        let ghost e0 = errs_v(sentence.errs@);
        let mut errs: Vec<ErrMark> = Vec::new();
        std::mem::swap(&mut errs, &mut sentence.errs);
        let mut j: usize = 0;
        assert(sv.take(0) =~= Seq::<(int, Seq<char>)>::empty());
        assert(e0 + marks_of(sv.take(0), mv, cv, sentence.text@, self.ignores.ids@, self.includes.ids@) =~= e0);
        while j < slots.len()
            invariant
                j <= slots@.len(),
                sv == slots_view(slots@),
                mv == msgs_view(msgs@),
                cv == cohorts_v(sentence.cohorts@),
                positions_fit(cv),
                forall|q: int| 0 <= q < slots@.len() ==> #[trigger] slots@[q].0 < sentence.cohorts@.len(),
                slots_ok(sv, cv, sentence.text@, self.ignores.ids@, self.includes.ids@),
                errs_v(errs@) == e0 + marks_of(sv.take(j as int), mv, cv, sentence.text@, self.ignores.ids@, self.includes.ids@),
                all_valid(sentence.text@, errs_v(errs@)),
                sentence.text@ == old(sentence).text@,
                sentence.raw_final_blank@ == old(sentence).raw_final_blank@,
                cohorts_v(sentence.cohorts@) == cohorts_v(old(sentence).cohorts@),
                sentence.ids_cohorts@ == old(sentence).ids_cohorts@,
                ids_indexed(sentence.ids_cohorts@, cohorts_v(sentence.cohorts@)),
            decreases slots@.len() - j,
        {
            let (i_c, e) = (slots[j].0, slots[j].1.as_str());
            assert(sv[j as int] == (i_c as int, e@));
            assert(slots@[j as int].0 < sentence.cohorts@.len());
            assert(cv[i_c as int] == sentence.cohorts@[i_c as int]@);
            let msg = if j < msgs.len() {
                assert(mv[j as int] == (msgs@[j as int].0@, msgs@[j as int].1@));
                (msgs[j].0.clone(), msgs[j].1.clone())
            } else {
                (e.to_string(), e.to_string())
            };
            assert((msg.0@, msg.1@) == msg_of(mv, j as int, e@));
            let r = cohort_errs(e, i_c, sentence, &self.ignores, &self.includes, msg);
            let ghost before = errs_v(errs@);
            match r {
                Some(m) => {
                    errs.push(m);
                    assert(errs_v(errs@) =~= before.push(m@));
                    assert forall|q: int| 0 <= q < errs@.len() implies span_valid(sentence.text@, #[trigger] errs_v(errs@)[q]) by {
                        if q < before.len() {
                            assert(errs_v(errs@)[q] == before[q]);
                        }
                    }
                },
                None => {},
            }
            assert(sv.take(j + 1).drop_last() =~= sv.take(j as int));
            assert(sv.take(j + 1).last() == sv[j as int]);
            assert(errs_v(errs@) =~= e0 + marks_of(sv.take(j + 1), mv, cv, sentence.text@, self.ignores.ids@, self.includes.ids@));
            j = j + 1;
        }
        assert(sv.take(slots@.len() as int) =~= sv);
        let t = sentence.text.clone();
        expand_errs(&mut errs, t.as_str());
        sentence.errs = errs;
    }

    /// Marks the errors of a sentence as `mk_errs` does, once every slot has
    /// been found skipped or on character boundaries; where one is not, the
    /// sentence is left as it is and `false` comes back.
    pub fn mk_errs_checked(
        &self,
        sentence: &mut Sentence,
        slots: &Vec<(usize, String)>,
        msgs: &Vec<(String, String)>,
    ) -> (b: bool)
        requires
            ids_indexed(old(sentence).ids_cohorts@, cohorts_v(old(sentence).cohorts@)),
            positions_fit(cohorts_v(old(sentence).cohorts@)),
            forall|j: int| 0 <= j < slots@.len() ==> #[trigger] slots@[j].0 < old(sentence).cohorts@.len(),
            all_valid(old(sentence).text@, errs_v(old(sentence).errs@)),
        ensures
            b == slots_ok(
                slots_view(slots@),
                cohorts_v(old(sentence).cohorts@),
                old(sentence).text@,
                self.ignores.ids@,
                self.includes.ids@,
            ),
            !b ==> *final(sentence) == *old(sentence),
            b ==> cohorts_v(final(sentence).cohorts@) == cohorts_v(old(sentence).cohorts@),
            b ==> final(sentence).ids_cohorts@ == old(sentence).ids_cohorts@,
            b ==> final(sentence).text@ == old(sentence).text@,
            b ==> errs_v(final(sentence).errs@) == expanded(
                errs_v(old(sentence).errs@) + marks_of(
                    slots_view(slots@),
                    msgs_view(msgs@),
                    cohorts_v(old(sentence).cohorts@),
                    old(sentence).text@,
                    self.ignores.ids@,
                    self.includes.ids@,
                ),
                old(sentence).text@,
            ),
    {
        let ghost sv = slots_view(slots@);
        let ghost cv = cohorts_v(sentence.cohorts@);
        let mut j: usize = 0;
        while j < slots.len()
            invariant
                j <= slots@.len(),
                sv == slots_view(slots@),
                cv == cohorts_v(sentence.cohorts@),
                positions_fit(cv),
                ids_indexed(sentence.ids_cohorts@, cohorts_v(sentence.cohorts@)),
                forall|q: int| 0 <= q < slots@.len() ==> #[trigger] slots@[q].0 < sentence.cohorts@.len(),
                forall|q: int|
                    0 <= q < j ==> (skipped(sv[q].1, cv[sv[q].0], self.ignores.ids@, self.includes.ids@)
                        || str_get(
                        sentence.text@,
                        err_span(sv[q].1, sv[q].0, cv).0.0,
                        err_span(sv[q].1, sv[q].0, cv).0.1,
                    ) is Some),
            decreases slots@.len() - j,
        {
            let ok = self.slot_ok(sentence, slots[j].0, slots[j].1.as_str());
            if !ok {
                assert(sv[j as int] == (slots@[j as int].0 as int, slots@[j as int].1@));
                assert(!(skipped(sv[j as int].1, cv[sv[j as int].0], self.ignores.ids@, self.includes.ids@)
                    || str_get(
                    sentence.text@,
                    err_span(sv[j as int].1, sv[j as int].0, cv).0.0,
                    err_span(sv[j as int].1, sv[j as int].0, cv).0.1,
                ) is Some));
                return false;
            }
            assert(sv[j as int] == (slots@[j as int].0 as int, slots@[j as int].1@));
            j = j + 1;
        }
        self.mk_errs(sentence, slots, msgs);
        true
    }
}

/// An error as it is reported: its text, its span (in bytes or in UTF-16
/// code units), its id, its message and its replacements.
#[derive(Debug)]
pub struct ErrOutput {
    pub form: String,
    pub beg: usize,
    pub end: usize,
    pub err: String,
    pub msg: (String, String),
    pub rep: Vec<String>,
}

impl ErrOutput {
    /// The error reported with byte positions.
    pub fn from_err_bytes(err: &ErrMark) -> (o: ErrOutput)
        ensures
            o.form@ == err.form@,
            o.beg == err.beg,
            o.end == err.end,
            o.err@ == err.err@,
            o.msg.0@ == err.msg.0@,
            o.msg.1@ == err.msg.1@,
            strings_view(o.rep@) == strings_view(err.rep@),
    {
        ErrOutput {
            form: err.form.clone(),
            beg: err.beg,
            end: err.end,
            err: err.err.clone(),
            msg: (err.msg.0.clone(), err.msg.1.clone()),
            rep: copy_strings(&err.rep),
        }
    }

    /// The error reported with UTF-16 positions in `text`.
    pub fn from_err_utf16(err: &ErrMark, text: &str) -> (o: ErrOutput)
        requires
            span_valid(text@, err@),
        ensures
            o.form@ == err.form@,
            o.beg == utf16_len(text@.take(boundary(text@, err.beg as int)->Some_0)),
            o.end == utf16_len(text@.take(boundary(text@, err.end as int)->Some_0)),
            o.err@ == err.err@,
            o.msg.0@ == err.msg.0@,
            o.msg.1@ == err.msg.1@,
            strings_view(o.rep@) == strings_view(err.rep@),
    {
        proof {
            lemma_boundary(text@, err.beg as int);
            lemma_boundary(text@, err.end as int);
        }
        let beg = byte_to_utf16_offset(text, err.beg);
        let end = byte_to_utf16_offset(text, err.end);
        proof {
            lemma_utf8_take_unique(text@, boundary(text@, err.beg as int)->Some_0, err.beg as int);
            lemma_utf8_take_unique(text@, boundary(text@, err.end as int)->Some_0, err.end as int);
        }
        ErrOutput {
            form: err.form.clone(),
            beg,
            end,
            err: err.err.clone(),
            msg: (err.msg.0.clone(), err.msg.1.clone()),
            rep: copy_strings(&err.rep),
        }
    }
}

/// Only one prefix of `s` has a given UTF-8 length.
proof fn lemma_utf8_take_unique(s: Seq<char>, i: int, b: int)
    requires
        0 <= i <= s.len(),
        utf8_len(s.take(i)) == b,
    ensures
        forall|k: int| 0 <= k <= s.len() && utf8_len(#[trigger] s.take(k)) == b ==> k == i,
{
    assert forall|k: int| 0 <= k <= s.len() && utf8_len(#[trigger] s.take(k)) == b implies k == i by {
        if k < i {
            lemma_utf8_len_prefix(s.take(i), k);
            assert(s.take(i).take(k) =~= s.take(k));
        } else if k > i {
            lemma_utf8_len_prefix(s.take(k), i);
            assert(s.take(k).take(i) =~= s.take(i));
        }
    }
}

/// Whether the regular expression `pattern` compiles (`regex::Regex::new`).
pub uninterp spec fn regex_valid(pattern: Seq<char>) -> bool;

/// `regex::Regex::new(pattern).is_ok()`; the contract names the answer by
/// the pattern.
#[verifier::external_body]
pub fn regex_compiles(pattern: &str) -> (b: bool)
    ensures
        b == regex_valid(pattern@),
{
    regex::Regex::new(pattern).is_ok()
}

pub open spec fn entries_view(v: Seq<(Option<String>, Option<String>)>) -> Seq<(Option<Seq<char>>, Option<Seq<char>>)> {
    v.map_values(|e: (Option<String>, Option<String>)| (opt_view(e.0), opt_view(e.1)))
}

pub open spec fn id_view(i: Id) -> (bool, Seq<char>) {
    match i {
        Id::Explicit(v) => (true, v@),
        Id::Regex(p) => (false, p@),
    }
}

pub open spec fn ids_view(v: Seq<Id>) -> Seq<(bool, Seq<char>)> {
    v.map_values(|i: Id| id_view(i))
}

/// The ids of the entries of one `errors.json` key (`id` and `re`): an
/// explicit id where an entry gives one, else its regular expression where
/// it compiles (one that does not is left out); an entry with neither gives
/// nothing. Ids are (explicit, text).
pub open spec fn ids_of(entries: Seq<(Option<Seq<char>>, Option<Seq<char>>)>) -> Seq<(bool, Seq<char>)>
    decreases entries.len(),
{
    if entries.len() == 0 {
        Seq::empty()
    } else {
        ids_of(entries.drop_last()) + match entries.last() {
            (Some(id), _) => seq![(true, id)],
            (None, Some(re)) => if regex_valid(re) {
                seq![(false, re)]
            } else {
                Seq::empty()
            },
            (None, None) => Seq::empty(),
        }
    }
}

/// The ids of the entries of one `errors.json` key.
pub fn ids_of_entries(entries: &Vec<(Option<String>, Option<String>)>) -> (ids: Vec<Id>)
    ensures
        ids_view(ids@) == ids_of(entries_view(entries@)),
{
    let ghost ev = entries_view(entries@);
    let mut ids: Vec<Id> = Vec::new();
    let mut k: usize = 0;
    assert(ev.take(0) =~= Seq::<(Option<Seq<char>>, Option<Seq<char>>)>::empty());
    assert(ids_view(ids@) =~= Seq::<(bool, Seq<char>)>::empty());
    while k < entries.len()
        invariant
            k <= entries@.len(),
            ev == entries_view(entries@),
            ids_view(ids@) == ids_of(ev.take(k as int)),
        decreases entries@.len() - k,
    {
        assert(ev.take(k + 1).drop_last() =~= ev.take(k as int));
        assert(ev.take(k + 1).last() == ev[k as int]);
        assert(ev[k as int] == (opt_view(entries@[k as int].0), opt_view(entries@[k as int].1)));
        let ghost before = ids_view(ids@);
        match &entries[k].0 {
            Some(id) => {
                ids.push(Id::Explicit(id.clone()));
                assert(ids_view(ids@) =~= before.push((true, id@)));
            },
            None => match &entries[k].1 {
                Some(re) => {
                    if regex_compiles(re.as_str()) {
                        ids.push(Id::Regex(re.clone()));
                        assert(ids_view(ids@) =~= before.push((false, re@)));
                    }
                },
                None => {},
            },
        }
        k = k + 1;
    }
    assert(ev.take(entries@.len() as int) =~= ev);
    ids
}

/// The ids of the error keys `tags` in the mappings (key, ids), joined in
/// the order of the tags; a tag with no mapping adds nothing.
pub open spec fn ids_for_tags(tags: Seq<Seq<char>>, mappings: Seq<(Seq<char>, Seq<(bool, Seq<char>)>)>) -> Seq<(bool, Seq<char>)>
    decreases tags.len(),
{
    if tags.len() == 0 {
        Seq::empty()
    } else {
        ids_for_tags(tags.drop_last(), mappings) + match mapping_index(mappings, tags.last()) {
            Some(i) => mappings[i].1,
            None => Seq::empty(),
        }
    }
}

/// The first mapping with key `k`.
pub open spec fn mapping_index(m: Seq<(Seq<char>, Seq<(bool, Seq<char>)>)>, k: Seq<char>) -> Option<int>
    decreases m.len(),
{
    if m.len() == 0 {
        None
    } else {
        match mapping_index(m.drop_last(), k) {
            Some(i) => Some(i),
            None => if m.last().0 == k {
                Some(m.len() - 1)
            } else {
                None
            },
        }
    }
}

pub open spec fn mappings_view(v: Seq<(String, Vec<Id>)>) -> Seq<(Seq<char>, Seq<(bool, Seq<char>)>)> {
    v.map_values(|p: (String, Vec<Id>)| (p.0@, ids_view(p.1@)))
}

proof fn lemma_mapping_index(m: Seq<(Seq<char>, Seq<(bool, Seq<char>)>)>, k: Seq<char>)
    ensures
        mapping_index(m, k) matches Some(i) ==> 0 <= i < m.len() && m[i].0 == k && forall|j: int|
            0 <= j < i ==> m[j].0 != k,
        mapping_index(m, k) is None ==> forall|j: int| 0 <= j < m.len() ==> m[j].0 != k,
    decreases m.len(),
{
    if m.len() > 0 {
        let p = m.drop_last();
        lemma_mapping_index(p, k);
        assert forall|j: int| 0 <= j < p.len() implies m[j] == p[j] by {}
    }
}

fn copy_id(i: &Id) -> (r: Id)
    ensures
        id_view(r) == id_view(*i),
{
    match i {
        Id::Explicit(v) => Id::Explicit(v.clone()),
        Id::Regex(p) => Id::Regex(p.clone()),
    }
}

/// The ids to ignore: those the error keys `tags` map to.
pub fn ids_for(tags: &Vec<String>, mappings: &Vec<(String, Vec<Id>)>) -> (s: IdSet)
    ensures
        ids_view(s.ids@) == ids_for_tags(strings_view(tags@), mappings_view(mappings@)),
{
    let ghost tv = strings_view(tags@);
    let ghost mv = mappings_view(mappings@);
    let mut ids: Vec<Id> = Vec::new();
    let mut k: usize = 0;
    assert(tv.take(0) =~= Seq::<Seq<char>>::empty());
    assert(ids_view(ids@) =~= Seq::<(bool, Seq<char>)>::empty());
    while k < tags.len()
        invariant
            k <= tags@.len(),
            tv == strings_view(tags@),
            mv == mappings_view(mappings@),
            ids_view(ids@) == ids_for_tags(tv.take(k as int), mv),
        decreases tags@.len() - k,
    {
        assert(tv.take(k + 1).drop_last() =~= tv.take(k as int));
        assert(tv.take(k + 1).last() == tags@[k as int]@);
        proof {
            lemma_mapping_index(mv, tags@[k as int]@);
        }
        let mut m: usize = 0;
        while m < mappings.len() && !str_eq(mappings[m].0.as_str(), tags[k].as_str())
            invariant
                m <= mappings@.len(),
                k < tags@.len(),
                mv == mappings_view(mappings@),
                forall|j: int| 0 <= j < m ==> mv[j].0 != tags@[k as int]@,
            decreases mappings@.len() - m,
        {
            assert(mv[m as int] == (mappings@[m as int].0@, ids_view(mappings@[m as int].1@)));
            m = m + 1;
        }
        let ghost before = ids_view(ids@);
        if m < mappings.len() {
            assert(mv[m as int] == (mappings@[m as int].0@, ids_view(mappings@[m as int].1@)));
            assert(mapping_index(mv, tags@[k as int]@) == Some(m as int)) by {
                match mapping_index(mv, tags@[k as int]@) {
                    Some(i) => {
                        assert(!(i < m));
                        assert(!(m < i));
                    },
                    None => {},
                }
            }
            let list = &mappings[m].1;
            let mut q: usize = 0;
            while q < list.len()
                invariant
                    q <= list@.len(),
                    ids_view(ids@) == before + ids_view(list@).take(q as int),
                decreases list@.len() - q,
            {
                let x = copy_id(&list[q]);
                let ghost b2 = ids_view(ids@);
                ids.push(x);
                assert(ids_view(ids@) =~= b2.push(id_view(x)));
                assert(ids_view(list@).take(q + 1) =~= ids_view(list@).take(q as int).push(id_view(list@[q as int])));
                q = q + 1;
            }
            assert(ids_view(list@).take(list@.len() as int) =~= ids_view(list@));
        } else {
            assert(mapping_index(mv, tags@[k as int]@) is None) by {
                match mapping_index(mv, tags@[k as int]@) {
                    Some(i) => {},
                    None => {},
                }
            }
            assert(ids_view(ids@) =~= before + Seq::<(bool, Seq<char>)>::empty());
        }
        k = k + 1;
    }
    assert(tv.take(tags@.len() as int) =~= tv);
    IdSet { ids }
}

/// The last title found among the languages, in their order.
pub open spec fn last_found(titles: Seq<Option<Seq<char>>>) -> Option<Seq<char>>
    decreases titles.len(),
{
    if titles.len() == 0 {
        None
    } else {
        match titles.last() {
            Some(t) => Some(t),
            None => last_found(titles.drop_last()),
        }
    }
}

/// The title an error key is shown with: the one found for the last of the
/// preferred languages that has it, else the one in the default language,
/// else the key itself.
pub open spec fn preferred(key: Seq<char>, titles: Seq<Option<Seq<char>>>, default: Option<Seq<char>>) -> Seq<char> {
    match last_found(titles) {
        Some(t) => t,
        None => match default {
            Some(t) => t,
            None => key,
        },
    }
}

pub open spec fn opts_view(v: Seq<Option<String>>) -> Seq<Option<Seq<char>>> {
    v.map_values(|o: Option<String>| opt_view(o))
}

/// The title an error key is shown with, from the titles found for it in
/// the preferred languages (`None` where a language has none) and in the
/// default language.
pub fn preferred_title(key: &str, titles: &Vec<Option<String>>, default: &Option<String>) -> (t: String)
    ensures
        t@ == preferred(key@, opts_view(titles@), opt_view(*default)),
{
    let ghost tv = opts_view(titles@);
    let mut best: Option<String> = None;
    let mut k: usize = 0;
    assert(tv.take(0) =~= Seq::<Option<Seq<char>>>::empty());
    while k < titles.len()
        invariant
            k <= titles@.len(),
            tv == opts_view(titles@),
            opt_view(best) == last_found(tv.take(k as int)),
        decreases titles@.len() - k,
    {
        assert(tv.take(k + 1).drop_last() =~= tv.take(k as int));
        assert(tv.take(k + 1).last() == opt_view(titles@[k as int]));
        match &titles[k] {
            Some(t) => {
                best = Some(t.clone());
            },
            None => {},
        }
        k = k + 1;
    }
    assert(tv.take(titles@.len() as int) =~= tv);
    match best {
        Some(t) => t,
        None => match default {
            Some(t) => t.clone(),
            None => key.to_string(),
        },
    }
}

} // verus!
