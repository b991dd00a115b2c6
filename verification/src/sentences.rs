//! Sentences for speech synthesis out of a CG-3 stream: each sentence is the
//! text of its cohorts joined by spaces, prefixed with the `<DRT-*:..>`
//! overrides of its first cohort (`\x1FOPTS:k=v;..\x1F`); a
//! `<DRT-BREAK-AFTER:ms>` tag ends a sentence and adds a pause sentinel
//! (`\x1FBREAK:ms\x1F`).
use vstd::prelude::*;
use crate::cg3::{
    blocks, items_view, readings_view, BlockV, Block, Cohort, CohortV, ItemV,
    Output, ReadingV, scan,
};
use crate::cg3_util::{is_sentence_boundary, sentence_boundary};
use crate::num::{dec_digits, hex_digit, hex_val, parse_u32, parse_u32_chars, push_dec};
use crate::order::{insert_absent, ins_sorted, keys_sorted, pairs_view};
use crate::text::{
    chars_of, join_by, join_strings, lines, strings_view, lower_ascii, push_char, push_lower, push_str, starts_with_at, str_eq,
    string_from_utf8_lossy, string_of, string_of_all, utf8_lossy, vec_eq,
};

verus! {

broadcast use vstd::string::group_string_axioms;

#[derive(Debug, PartialEq, Eq, Structural, Clone, Copy)]
pub enum SentenceMode {
    /// Each cohort's word form.
    SurfaceForm,
    /// Each cohort's `"form"phon` tag, where its first reading has one.
    PhonologicalForm,
}

pub open spec fn mode_of(s: Seq<char>) -> Result<SentenceMode, ()> {
    if s == "surface"@ {
        Ok(SentenceMode::SurfaceForm)
    } else if s == "phonological"@ {
        Ok(SentenceMode::PhonologicalForm)
    } else {
        Err(())
    }
}

impl SentenceMode {
    pub fn from_str(s: &str) -> (r: Result<SentenceMode, ()>)
        ensures
            r == mode_of(s@),
    {
        if str_eq(s, "surface") {
            Ok(SentenceMode::SurfaceForm)
        } else if str_eq(s, "phonological") {
            Ok(SentenceMode::PhonologicalForm)
        } else {
            Err(())
        }
    }
}

// ---------------------------------------------------------------------------
// Percent decoding.

pub open spec fn hex_byte(b: u8) -> Option<nat> {
    hex_val(b as char)
}

/// `%XX` with two hex digits becomes byte `XX`; anything else stays.
pub open spec fn percent_decode_bytes(b: Seq<u8>) -> Seq<u8>
    decreases b.len(),
{
    if b.len() == 0 {
        Seq::empty()
    } else if b[0] == 0x25 && b.len() > 2 && hex_byte(b[1]) is Some && hex_byte(b[2]) is Some {
        seq![(hex_byte(b[1]).unwrap() * 16 + hex_byte(b[2]).unwrap()) as u8]
            + percent_decode_bytes(b.skip(3))
    } else {
        seq![b[0]] + percent_decode_bytes(b.skip(1))
    }
}

/// The text whose UTF-8 bytes are those of `s` with `%XX` escapes decoded.
pub open spec fn percent_decoded(s: Seq<char>) -> Seq<char> {
    utf8_lossy(percent_decode_bytes(vstd::utf8::encode_utf8(s)))
}

/// Decodes `%XX` escapes; other bytes pass through. A result that is not
/// valid UTF-8 is converted lossily.
pub fn percent_decode(s: &str) -> (r: String)
    ensures
        r@ == percent_decoded(s@),
        vstd::utf8::valid_utf8(percent_decode_bytes(vstd::utf8::encode_utf8(s@))) ==> r@
            == vstd::utf8::decode_utf8(percent_decode_bytes(vstd::utf8::encode_utf8(s@))),
{
    let bytes = s.as_bytes();
    let ghost b = bytes@;
    let mut out: Vec<u8> = Vec::new();
    let mut i: usize = 0;
    assert(b.skip(0) =~= b);
    while i < bytes.len()
        invariant
            i <= b.len(),
            b == bytes@,
            out@ + percent_decode_bytes(b.skip(i as int)) == percent_decode_bytes(b),
        decreases b.len() - i,
    {
        let ghost rest = b.skip(i as int);
        if bytes[i] == 0x25 && bytes.len() - i > 2 {
            let h = hex_digit(bytes[i + 1] as char);
            let l = hex_digit(bytes[i + 2] as char);
            match (h, l) {
                (Some(h), Some(l)) => {
                    let byte = (h * 16 + l) as u8;
                    out.push(byte);
                    proof {
                        assert(rest[1] == b[i + 1] && rest[2] == b[i + 2]);
                        assert(rest.skip(3) =~= b.skip(i + 3));
                        assert(out@ + percent_decode_bytes(b.skip(i + 3)) =~= out@.drop_last()
                            + percent_decode_bytes(rest));
                    }
                    i = i + 3;
                    continue;
                },
                _ => {
                    proof {
                        assert(rest[1] == b[i + 1] && rest[2] == b[i + 2]);
                    }
                },
            }
        }
        out.push(bytes[i]);
        proof {
            assert(rest.skip(1) =~= b.skip(i + 1));
            assert(out@ + percent_decode_bytes(b.skip(i + 1)) =~= out@.drop_last()
                + percent_decode_bytes(rest));
        }
        i = i + 1;
    }
    assert(out@ =~= percent_decode_bytes(b));
    string_from_utf8_lossy(out.as_slice())
}

// ---------------------------------------------------------------------------
// What a cohort contributes.

pub open spec fn phon_suffix() -> Seq<char> {
    seq!['"', 'p', 'h', 'o', 'n']
}

pub open spec fn is_phon_tag(t: Seq<char>) -> bool {
    t.len() >= 5 && t.skip(t.len() - 5) == phon_suffix()
}

/// Index of the first tag of the form `.."phon`.
pub open spec fn first_phon(ts: Seq<Seq<char>>) -> Option<int>
    decreases ts.len(),
{
    if ts.len() == 0 {
        None
    } else {
        match first_phon(ts.drop_last()) {
            Some(j) => Some(j),
            None => if is_phon_tag(ts.last()) {
                Some(ts.len() - 1)
            } else {
                None
            },
        }
    }
}

pub proof fn lemma_first_phon(ts: Seq<Seq<char>>)
    ensures
        first_phon(ts) matches Some(j) ==> 0 <= j < ts.len() && is_phon_tag(ts[j]),
    decreases ts.len(),
{
    if ts.len() > 0 {
        lemma_first_phon(ts.drop_last());
    }
}

/// The `"form"phon` tag of the cohort's first reading, where the mode asks
/// for it and there is one.
pub open spec fn phon_tag_of(c: CohortV, mode: SentenceMode) -> Option<Seq<char>> {
    if mode == SentenceMode::PhonologicalForm && c.readings.len() > 0 {
        match first_phon(c.readings[0].tags) {
            Some(j) => Some(c.readings[0].tags[j]),
            None => None,
        }
    } else {
        None
    }
}

/// The text a cohort contributes to its sentence: the word form, or in
/// phonological mode the `form` of the first reading's first `"form"phon`
/// tag, if it has one.
pub open spec fn cohort_text_spec(c: CohortV, mode: SentenceMode) -> Seq<char> {
    match phon_tag_of(c, mode) {
        Some(t) => t.subrange(1, t.len() - 5),
        None => c.word_form,
    }
}

/// Slicing the phon tag would panic: it is `"phon` alone, or it starts with a
/// multi-byte character.
pub open spec fn phon_panics(c: CohortV, mode: SentenceMode) -> bool {
    match phon_tag_of(c, mode) {
        Some(t) => t.len() < 6 || crate::text::char_width(t[0]) != 1,
        None => false,
    }
}

fn ends_with_phon(v: &Vec<char>) -> (b: bool)
    ensures
        b == is_phon_tag(v@),
{
    let n = v.len();
    if n < 5 {
        return false;
    }
    let b = v[n - 5] == '"' && v[n - 4] == 'p' && v[n - 3] == 'h' && v[n - 2] == 'o' && v[n - 1]
        == 'n';
    assert(b == (v@.skip(n - 5) =~= phon_suffix()));
    b
}

pub fn cohort_text(cohort: &Cohort, mode: SentenceMode) -> (s: String)
    requires
        !phon_panics(cohort@, mode),
    ensures
        s@ == cohort_text_spec(cohort@, mode),
{
    if mode == SentenceMode::SurfaceForm || cohort.readings.len() == 0 {
        return cohort.word_form.clone();
    }
    let tags = &cohort.readings[0].tags;
    let ghost tv = strings_view(tags@);
    assert(tv == cohort@.readings[0].tags);
    let mut k: usize = 0;
    while k < tags.len()
        invariant
            k <= tags@.len(),
            tv == strings_view(tags@),
            tv == cohort@.readings[0].tags,
            mode == SentenceMode::PhonologicalForm,
            cohort@.readings.len() > 0,
            !phon_panics(cohort@, mode),
            first_phon(tv.take(k as int)) is None,
        decreases tags@.len() - k,
    {
        let v = chars_of(tags[k].as_str());
        proof {
            assert(tv.take(k + 1).drop_last() =~= tv.take(k as int));
        }
        if ends_with_phon(&v) {
            proof {
                assert(tv.take(k + 1).last() == v@);
                assert(first_phon(tv.take(k + 1)) == Some(k as int));
                lemma_first_phon(tv);
                first_phon_prefix(tv, k + 1);
                assert(phon_tag_of(cohort@, mode) == Some(v@));
            }
            return string_of(&v, 1, v.len() - 5);
        }
        k = k + 1;
    }
    proof {
        assert(tv.take(tags@.len() as int) =~= tv);
    }
    cohort.word_form.clone()
}

pub proof fn first_phon_prefix(ts: Seq<Seq<char>>, n: int)
    requires
        0 <= n <= ts.len(),
        first_phon(ts.take(n)) is Some,
    ensures
        first_phon(ts) == first_phon(ts.take(n)),
    decreases ts.len() - n,
{
    if n < ts.len() {
        assert(ts.take(n + 1).drop_last() =~= ts.take(n));
        first_phon_prefix(ts, n + 1);
    } else {
        assert(ts.take(n) =~= ts);
    }
}

/// All tags of the readings, in order.
pub open spec fn all_tags(rs: Seq<ReadingV>) -> Seq<Seq<char>>
    decreases rs.len(),
{
    if rs.len() == 0 {
        Seq::empty()
    } else {
        all_tags(rs.drop_last()) + rs.last().tags
    }
}

/// The tags of all readings of the cohort, in order.
pub fn cohort_tags(cohort: &Cohort) -> (v: Vec<String>)
    ensures
        strings_view(v@) == all_tags(cohort@.readings),
{
    let ghost rv = readings_view(cohort.readings@);
    let mut v: Vec<String> = Vec::new();
    let mut r: usize = 0;
    while r < cohort.readings.len()
        invariant
            r <= cohort.readings@.len(),
            rv == readings_view(cohort.readings@),
            strings_view(v@) == all_tags(rv.take(r as int)),
        decreases cohort.readings@.len() - r,
    {
        let tags = &cohort.readings[r].tags;
        let ghost base = strings_view(v@);
        let mut k: usize = 0;
        while k < tags.len()
            invariant
                k <= tags@.len(),
                strings_view(v@) == base + strings_view(tags@).take(k as int),
            decreases tags@.len() - k,
        {
            let ghost v0 = v@;
            v.push(tags[k].clone());
            proof {
                assert(strings_view(v@) =~= strings_view(v0).push(tags@[k as int]@));
                assert(strings_view(tags@).take(k + 1) =~= strings_view(tags@).take(k as int).push(
                    tags@[k as int]@,
                ));
            }
            k = k + 1;
        }
        proof {
            assert(strings_view(tags@).take(tags@.len() as int) =~= strings_view(tags@));
            assert(rv.take(r + 1).drop_last() =~= rv.take(r as int));
            assert(rv.take(r + 1).last() == rv[r as int]);
        }
        r = r + 1;
    }
    proof {
        assert(rv.take(cohort.readings@.len() as int) =~= rv);
    }
    v
}

// ---------------------------------------------------------------------------
// Pauses.

pub open spec fn break_prefix() -> Seq<char> {
    "<DRT-BREAK-AFTER:"@
}

/// The pause of a `<DRT-BREAK-AFTER:ms>` tag whose `ms` reads as a `u32`.
pub open spec fn break_tag_ms(t: Seq<char>) -> Option<u32> {
    let p = break_prefix();
    if t.len() > p.len() && t.take(p.len() as int) == p && t.last() == '>' {
        parse_u32(t.subrange(p.len() as int, t.len() - 1))
    } else {
        None
    }
}

/// The first pause among the tags.
pub open spec fn first_break(ts: Seq<Seq<char>>) -> Option<u32>
    decreases ts.len(),
{
    if ts.len() == 0 {
        None
    } else {
        match first_break(ts.drop_last()) {
            Some(m) => Some(m),
            None => break_tag_ms(ts.last()),
        }
    }
}

pub open spec fn after_break(c: CohortV) -> Option<u32> {
    first_break(all_tags(c.readings))
}

fn break_tag_exec(t: &String, prefix: &Vec<char>) -> (r: Option<u32>)
    requires
        prefix@ == break_prefix(),
    ensures
        r == break_tag_ms(t@),
{
    let v = chars_of(t.as_str());
    if v.len() > prefix.len() && starts_with_at(&v, 0, prefix) && v[v.len() - 1] == '>' {
        assert(v@.subrange(0, prefix@.len() as int) =~= v@.take(prefix@.len() as int));
        parse_u32_chars(&v, prefix.len(), v.len() - 1)
    } else {
        proof {
            if v@.len() > prefix@.len() {
                assert(v@.subrange(0, prefix@.len() as int) =~= v@.take(prefix@.len() as int));
            }
        }
        None
    }
}

pub fn after_break_ms(cohort: &Cohort) -> (r: Option<u32>)
    ensures
        r == after_break(cohort@),
{
    let tags = cohort_tags(cohort);
    let prefix = chars_of("<DRT-BREAK-AFTER:");
    let ghost tv = strings_view(tags@);
    let mut k: usize = 0;
    while k < tags.len()
        invariant
            k <= tags@.len(),
            tv == strings_view(tags@),
            tv == all_tags(cohort@.readings),
            prefix@ == break_prefix(),
            first_break(tv.take(k as int)) is None,
        decreases tags@.len() - k,
    {
        proof {
            assert(tv.take(k + 1).drop_last() =~= tv.take(k as int));
        }
        let r = break_tag_exec(&tags[k], &prefix);
        proof {
            assert(tv.take(k + 1).last() == tags@[k as int]@);
            assert(first_break(tv.take(k + 1)) == r);
        }
        if r.is_some() {
            proof {
                first_break_prefix(tv, k + 1);
            }
            return r;
        }
        k = k + 1;
    }
    proof {
        assert(tv.take(tags@.len() as int) =~= tv);
    }
    None
}

pub proof fn first_break_prefix(ts: Seq<Seq<char>>, n: int)
    requires
        0 <= n <= ts.len(),
        first_break(ts.take(n)) is Some,
    ensures
        first_break(ts) == first_break(ts.take(n)),
    decreases ts.len() - n,
{
    if n < ts.len() {
        assert(ts.take(n + 1).drop_last() =~= ts.take(n));
        first_break_prefix(ts, n + 1);
    } else {
        assert(ts.take(n) =~= ts);
    }
}


// ---------------------------------------------------------------------------
// Overrides.

pub open spec fn drt_prefix() -> Seq<char> {
    "<DRT-"@
}

pub open spec fn break_after_name() -> Seq<char> {
    "BREAK-AFTER"@
}

/// Index of the first `c` in `s`.
pub open spec fn first_index(s: Seq<char>, c: char) -> Option<int>
    decreases s.len(),
{
    if s.len() == 0 {
        None
    } else {
        match first_index(s.drop_last(), c) {
            Some(j) => Some(j),
            None => if s.last() == c {
                Some(s.len() - 1)
            } else {
                None
            },
        }
    }
}

pub proof fn lemma_first_index(s: Seq<char>, c: char)
    ensures
        first_index(s, c) matches Some(j) ==> 0 <= j < s.len() && s[j] == c && forall|i: int|
            0 <= i < j ==> s[i] != c,
        first_index(s, c) is None ==> forall|i: int| 0 <= i < s.len() ==> s[i] != c,
    decreases s.len(),
{
    if s.len() > 0 {
        lemma_first_index(s.drop_last(), c);
        assert forall|i: int| 0 <= i < s.len() - 1 implies s.drop_last()[i] == s[i] by {}
    }
}

/// The name and raw value of a `<DRT-NAME:value>` tag, other than
/// `<DRT-BREAK-AFTER:..>`; the name lower-cased (ASCII).
pub open spec fn drt_entry(t: Seq<char>) -> Option<(Seq<char>, Seq<char>)> {
    let p = drt_prefix();
    if t.len() > p.len() && t.take(p.len() as int) == p && t.last() == '>' {
        let inner = t.subrange(p.len() as int, t.len() - 1);
        match first_index(inner, ':') {
            Some(j) => if inner.take(j) == break_after_name() {
                None
            } else {
                Some((lower_ascii(inner.take(j)), inner.skip(j + 1)))
            },
            None => None,
        }
    } else {
        None
    }
}

/// The overrides carried by the tags, sorted by name; the first value of a
/// name wins, and values are percent-decoded.
pub open spec fn opts_of_tags(ts: Seq<Seq<char>>) -> Seq<(Seq<char>, Seq<char>)>
    decreases ts.len(),
{
    if ts.len() == 0 {
        Seq::empty()
    } else {
        let p = opts_of_tags(ts.drop_last());
        match drt_entry(ts.last()) {
            Some((k, raw)) => ins_sorted(p, k, percent_decoded(raw)),
            None => p,
        }
    }
}

pub open spec fn cohort_opts_spec(c: CohortV) -> Seq<(Seq<char>, Seq<char>)> {
    opts_of_tags(all_tags(c.readings))
}

fn first_colon(v: &Vec<char>, from: usize, to: usize) -> (r: Option<usize>)
    requires
        from <= to <= v@.len(),
    ensures
        r matches Some(c) ==> from <= c < to,
        match first_index(v@.subrange(from as int, to as int), ':') {
            Some(j) => r == Some((from + j) as usize),
            None => r is None,
        },
{
    let ghost s = v@.subrange(from as int, to as int);
    let mut i = from;
    while i < to
        invariant
            from <= i <= to <= v@.len(),
            s == v@.subrange(from as int, to as int),
            forall|j: int| from <= j < i ==> v@[j] != ':',
        decreases to - i,
    {
        if v[i] == ':' {
            proof {
                lemma_first_index(s, ':');
                match first_index(s, ':') {
                    Some(j) => {
                        assert(s[i - from] == ':');
                        if j < i - from {
                            assert(v@[from + j] == ':');
                        }
                    },
                    None => {
                        assert(s[i - from] == ':');
                    },
                }
            }
            return Some(i);
        }
        i = i + 1;
    }
    proof {
        lemma_first_index(s, ':');
        match first_index(s, ':') {
            Some(j) => {
                assert(v@[from + j] == ':');
            },
            None => {},
        }
    }
    None
}

fn drt_entry_exec(t: &String, prefix: &Vec<char>, ba: &Vec<char>) -> (r: Option<(String, String)>)
    requires
        prefix@ == drt_prefix(),
        ba@ == break_after_name(),
    ensures
        match drt_entry(t@) {
            Some((k, raw)) => r matches Some(e) && e.0@ == k && e.1@ == percent_decoded(raw),
            None => r is None,
        },
{
    let v = chars_of(t.as_str());
    let pl = prefix.len();
    if !(v.len() > pl && starts_with_at(&v, 0, prefix) && v[v.len() - 1] == '>') {
        proof {
            if v@.len() > pl {
                assert(v@.subrange(0, pl as int) =~= v@.take(pl as int));
            }
        }
        return None;
    }
    assert(v@.subrange(0, pl as int) =~= v@.take(pl as int));
    let end = v.len() - 1;
    let ghost inner = v@.subrange(pl as int, end as int);
    proof {
        lemma_first_index(inner, ':');
    }
    match first_colon(&v, pl, end) {
        None => {
            assert(first_index(inner, ':') is None);
            None
        },
        Some(c) => {
            assert(first_index(inner, ':') == Some((c - pl) as int));
            let name = string_of(&v, pl, c);
            assert(name@ =~= inner.take(c - pl));
            let nv = chars_of(name.as_str());
            if vec_eq(&nv, ba) {
                return None;
            }
            let mut key = String::new();
            push_lower(&mut key, &v, pl, c);
            let raw = string_of(&v, c + 1, end);
            assert(raw@ =~= inner.skip(c - pl + 1));
            assert(key@ =~= lower_ascii(inner.take(c - pl)));
            let value = percent_decode(raw.as_str());
            Some((key, value))
        },
    }
}

/// The `<DRT-*:V>` overrides of a cohort's readings, except the pause
/// (`<DRT-BREAK-AFTER>`), sorted by lower-cased name, values percent-decoded;
/// the first value of a name wins.
pub fn cohort_opts(cohort: &Cohort) -> (out: Vec<(String, String)>)
    ensures
        pairs_view(out@) == cohort_opts_spec(cohort@),
        keys_sorted(pairs_view(out@)),
{
    let tags = cohort_tags(cohort);
    let prefix = chars_of("<DRT-");
    let ba = chars_of("BREAK-AFTER");
    let ghost tv = strings_view(tags@);
    let mut out: Vec<(String, String)> = Vec::new();
    let mut k: usize = 0;
    assert(pairs_view(out@) =~= Seq::<(Seq<char>, Seq<char>)>::empty());
    while k < tags.len()
        invariant
            k <= tags@.len(),
            tv == strings_view(tags@),
            tv == all_tags(cohort@.readings),
            prefix@ == drt_prefix(),
            ba@ == break_after_name(),
            pairs_view(out@) == opts_of_tags(tv.take(k as int)),
            keys_sorted(pairs_view(out@)),
        decreases tags@.len() - k,
    {
        proof {
            assert(tv.take(k + 1).drop_last() =~= tv.take(k as int));
            assert(tv.take(k + 1).last() == tags@[k as int]@);
        }
        match drt_entry_exec(&tags[k], &prefix, &ba) {
            Some((key, value)) => {
                insert_absent(&mut out, key, value);
            },
            None => {},
        }
        k = k + 1;
    }
    proof {
        assert(tv.take(tags@.len() as int) =~= tv);
    }
    out
}

// ---------------------------------------------------------------------------
// Pace and the OPTS prefix.

/// The value of the first pair with key `k`.
pub open spec fn lookup(p: Seq<(Seq<char>, Seq<char>)>, k: Seq<char>) -> Option<Seq<char>>
    decreases p.len(),
{
    if p.len() == 0 {
        None
    } else if p[0].0 == k {
        Some(p[0].1)
    } else {
        lookup(p.drop_first(), k)
    }
}

fn lookup_exec(p: &Vec<(String, String)>, k: &str) -> (r: Option<String>)
    ensures
        match lookup(pairs_view(p@), k@) {
            Some(v) => r matches Some(x) && x@ == v,
            None => r is None,
        },
{
    let ghost pv = pairs_view(p@);
    let mut i: usize = 0;
    assert(pv.skip(0) =~= pv);
    while i < p.len()
        invariant
            i <= p@.len(),
            pv == pairs_view(p@),
            lookup(pv, k@) == lookup(pv.skip(i as int), k@),
        decreases p@.len() - i,
    {
        proof {
            assert(pv.skip(i as int).drop_first() =~= pv.skip(i + 1));
            assert(pv.skip(i as int)[0] == pv[i as int]);
        }
        if str_eq(p[i].0.as_str(), k) {
            return Some(p[i].1.clone());
        }
        i = i + 1;
    }
    None
}

/// SSML `<prosody rate>` as a multiplier of the synthesiser's pace, written
/// as a decimal: the named rates have fixed values; a percentage is looked up
/// in `paces`, where its value is computed in floating point (outside this
/// library); anything else has none.
pub open spec fn pace_of(rate: Seq<char>, paces: Seq<(Seq<char>, Seq<char>)>) -> Option<Seq<char>> {
    if rate == "x-slow"@ {
        Some("0.5"@)
    } else if rate == "slow"@ {
        Some("0.75"@)
    } else if rate == "medium"@ || rate == "default"@ {
        Some("1"@)
    } else if rate == "fast"@ {
        Some("1.25"@)
    } else if rate == "x-fast"@ {
        Some("1.5"@)
    } else if rate.len() > 0 && rate.last() == '%' {
        lookup(paces, rate)
    } else {
        None
    }
}

pub fn rate_to_pace(rate: &str, paces: &Vec<(String, String)>) -> (r: Option<String>)
    ensures
        match pace_of(rate@, pairs_view(paces@)) {
            Some(v) => r matches Some(x) && x@ == v,
            None => r is None,
        },
{
    if str_eq(rate, "x-slow") {
        Some("0.5".to_owned())
    } else if str_eq(rate, "slow") {
        Some("0.75".to_owned())
    } else if str_eq(rate, "medium") || str_eq(rate, "default") {
        Some("1".to_owned())
    } else if str_eq(rate, "fast") {
        Some("1.25".to_owned())
    } else if str_eq(rate, "x-fast") {
        Some("1.5".to_owned())
    } else {
        let v = chars_of(rate);
        if v.len() > 0 && v[v.len() - 1] == '%' {
            lookup_exec(paces, rate)
        } else {
            None
        }
    }
}

/// The named SSML rates have fixed paces, whatever percentages are known:
/// `x-slow` half the normal pace, `slow` three quarters, `medium` and
/// `default` the normal pace, `fast` a quarter faster and `x-fast` half
/// again as fast; and a sentence whose `prosody-rate` is a named rate opens
/// its OPTS prefix with that pace.
pub proof fn lemma_named_rate_paces(opts: Seq<(Seq<char>, Seq<char>)>, paces: Seq<(Seq<char>, Seq<char>)>)
    ensures
        pace_of("x-slow"@, paces) == Some("0.5"@),
        pace_of("slow"@, paces) == Some("0.75"@),
        pace_of("medium"@, paces) == Some("1"@),
        pace_of("default"@, paces) == Some("1"@),
        pace_of("fast"@, paces) == Some("1.25"@),
        pace_of("x-fast"@, paces) == Some("1.5"@),
        lookup(opts, "prosody-rate"@) == Some("x-slow"@) ==> opts_kvs(opts, paces)[0] == ("pace"@, "0.5"@),
        lookup(opts, "prosody-rate"@) == Some("slow"@) ==> opts_kvs(opts, paces)[0] == ("pace"@, "0.75"@),
        lookup(opts, "prosody-rate"@) == Some("medium"@) ==> opts_kvs(opts, paces)[0] == ("pace"@, "1"@),
        lookup(opts, "prosody-rate"@) == Some("default"@) ==> opts_kvs(opts, paces)[0] == ("pace"@, "1"@),
        lookup(opts, "prosody-rate"@) == Some("fast"@) ==> opts_kvs(opts, paces)[0] == ("pace"@, "1.25"@),
        lookup(opts, "prosody-rate"@) == Some("x-fast"@) ==> opts_kvs(opts, paces)[0] == ("pace"@, "1.5"@),
{
    reveal_strlit("x-slow");
    reveal_strlit("slow");
    reveal_strlit("medium");
    reveal_strlit("default");
    reveal_strlit("fast");
    reveal_strlit("x-fast");
    reveal_strlit("0.5");
    reveal_strlit("0.75");
    reveal_strlit("1");
    reveal_strlit("1.25");
    reveal_strlit("1.5");
    reveal_strlit("prosody-rate");
    reveal_strlit("pace");
    assert("slow"@ != "x-slow"@) by { assert("slow"@.len() != "x-slow"@.len()); }
    assert("medium"@ != "x-slow"@) by { assert("medium"@[0] != "x-slow"@[0]); }
    assert("medium"@ != "slow"@) by { assert("medium"@.len() != "slow"@.len()); }
    assert("default"@ != "x-slow"@) by { assert("default"@.len() != "x-slow"@.len()); }
    assert("default"@ != "slow"@) by { assert("default"@.len() != "slow"@.len()); }
    assert("default"@ != "medium"@) by { assert("default"@.len() != "medium"@.len()); }
    assert("fast"@ != "x-slow"@) by { assert("fast"@.len() != "x-slow"@.len()); }
    assert("fast"@ != "slow"@) by { assert("fast"@[0] != "slow"@[0]); }
    assert("fast"@ != "medium"@) by { assert("fast"@.len() != "medium"@.len()); }
    assert("fast"@ != "default"@) by { assert("fast"@.len() != "default"@.len()); }
    assert("x-fast"@ != "x-slow"@) by { assert("x-fast"@[2] != "x-slow"@[2]); }
    assert("x-fast"@ != "slow"@) by { assert("x-fast"@.len() != "slow"@.len()); }
    assert("x-fast"@ != "medium"@) by { assert("x-fast"@[0] != "medium"@[0]); }
    assert("x-fast"@ != "default"@) by { assert("x-fast"@.len() != "default"@.len()); }
    assert("x-fast"@ != "fast"@) by { assert("x-fast"@.len() != "fast"@.len()); }
}

pub open spec fn kv_text(p: (Seq<char>, Seq<char>)) -> Seq<char> {
    p.0 + seq!['='] + p.1
}

/// `k=v` pairs joined by `;`.
pub open spec fn join_kvs(kvs: Seq<(Seq<char>, Seq<char>)>) -> Seq<char>
    decreases kvs.len(),
{
    if kvs.len() == 0 {
        Seq::empty()
    } else if kvs.len() == 1 {
        kv_text(kvs[0])
    } else {
        join_kvs(kvs.drop_last()) + seq![';'] + kv_text(kvs.last())
    }
}

/// The pairs of the OPTS prefix: a synthesised `pace` first, when the
/// `prosody-rate` has one, then the overrides in order.
pub open spec fn opts_kvs(opts: Seq<(Seq<char>, Seq<char>)>, paces: Seq<(Seq<char>, Seq<char>)>) -> Seq<
    (Seq<char>, Seq<char>),
> {
    let pace = match lookup(opts, "prosody-rate"@) {
        Some(r) => pace_of(r, paces),
        None => None,
    };
    match pace {
        Some(p) => seq![("pace"@, p)] + opts,
        None => opts,
    }
}

/// The sentence text, prefixed with `\x1FOPTS:k=v;..\x1F` when it has overrides.
pub open spec fn formatted(
    text: Seq<char>,
    opts: Seq<(Seq<char>, Seq<char>)>,
    paces: Seq<(Seq<char>, Seq<char>)>,
) -> Seq<char> {
    if opts.len() == 0 {
        text
    } else {
        seq!['\x1F'] + "OPTS:"@ + join_kvs(opts_kvs(opts, paces)) + seq!['\x1F'] + text
    }
}

proof fn lemma_join_kvs_first(kvs: Seq<(Seq<char>, Seq<char>)>)
    requires
        kvs.len() > 0,
    ensures
        join_kvs(kvs).len() >= kv_text(kvs[0]).len(),
        join_kvs(kvs).take(kv_text(kvs[0]).len() as int) == kv_text(kvs[0]),
    decreases kvs.len(),
{
    if kvs.len() > 1 {
        let d = kvs.drop_last();
        lemma_join_kvs_first(d);
        assert(d[0] == kvs[0]);
        let n = kv_text(kvs[0]).len() as int;
        assert(join_kvs(kvs).take(n) =~= join_kvs(d).take(n));
    } else {
        assert(join_kvs(kvs).take(kv_text(kvs[0]).len() as int) =~= kv_text(kvs[0]));
    }
}

proof fn lemma_lookup_some(p: Seq<(Seq<char>, Seq<char>)>, k: Seq<char>)
    ensures
        lookup(p, k) is Some ==> p.len() > 0,
{
}

/// A sentence whose `prosody-rate` has a pace is written with its OPTS
/// prefix opening on that pace: `\x1FOPTS:pace=` and the pace.
pub proof fn lemma_pace_opens_opts(
    text: Seq<char>,
    opts: Seq<(Seq<char>, Seq<char>)>,
    paces: Seq<(Seq<char>, Seq<char>)>,
    rate: Seq<char>,
    pace: Seq<char>,
)
    requires
        lookup(opts, "prosody-rate"@) == Some(rate),
        pace_of(rate, paces) == Some(pace),
    ensures
        ({
            let head = seq!['\x1F'] + "OPTS:pace="@ + pace;
            formatted(text, opts, paces).len() >= head.len() && formatted(text, opts, paces).take(
                head.len() as int,
            ) == head
        }),
{
    reveal_strlit("OPTS:");
    reveal_strlit("OPTS:pace=");
    reveal_strlit("pace");
    lemma_lookup_some(opts, "prosody-rate"@);
    let kvs = opts_kvs(opts, paces);
    assert(kvs[0] == ("pace"@, pace));
    lemma_join_kvs_first(kvs);
    let head = seq!['\x1F'] + "OPTS:pace="@ + pace;
    let f = formatted(text, opts, paces);
    assert(f == seq!['\x1F'] + "OPTS:"@ + join_kvs(kvs) + seq!['\x1F'] + text);
    assert(kv_text(kvs[0]) == "pace"@ + seq!['='] + pace);
    assert(seq!['\x1F'] + "OPTS:"@ + kv_text(kvs[0]) =~= head);
    assert(f.take(head.len() as int) =~= head);
}

fn push_kvs(out: &mut String, kvs: &Vec<(String, String)>)
    ensures
        final(out)@ == old(out)@ + join_kvs(pairs_view(kvs@)),
{
    let ghost kv = pairs_view(kvs@);
    let mut i: usize = 0;
    while i < kvs.len()
        invariant
            i <= kvs@.len(),
            kv == pairs_view(kvs@),
            out@ == old(out)@ + join_kvs(kv.take(i as int)),
        decreases kvs@.len() - i,
    {
        if i > 0 {
            push_char(out, ';');
        }
        push_str(out, kvs[i].0.as_str());
        push_char(out, '=');
        push_str(out, kvs[i].1.as_str());
        proof {
            assert(kv.take(i + 1).drop_last() =~= kv.take(i as int));
            if i == 0 {
                assert(kv.take(1) =~= seq![kv[0]]);
            }
        }
        i = i + 1;
    }
    assert(kv.take(kvs@.len() as int) =~= kv);
}

pub fn format_sentence(text: String, opts: &Vec<(String, String)>, paces: &Vec<(String, String)>) -> (s: String)
    ensures
        s@ == formatted(text@, pairs_view(opts@), pairs_view(paces@)),
{
    if opts.len() == 0 {
        return text;
    }
    let mut kvs: Vec<(String, String)> = Vec::new();
    match lookup_exec(opts, "prosody-rate") {
        Some(rate) => match rate_to_pace(rate.as_str(), paces) {
            Some(p) => {
                kvs.push(("pace".to_owned(), p));
            },
            None => {},
        },
        None => {},
    }
    let ghost k0 = pairs_view(kvs@);
    let mut i: usize = 0;
    while i < opts.len()
        invariant
            i <= opts@.len(),
            pairs_view(kvs@) == k0 + pairs_view(opts@).take(i as int),
        decreases opts@.len() - i,
    {
        let ghost kk = kvs@;
        kvs.push((opts[i].0.clone(), opts[i].1.clone()));
        proof {
            assert(pairs_view(kvs@) =~= pairs_view(kk).push((opts@[i as int].0@, opts@[i as int].1@)));
            assert(pairs_view(opts@).take(i + 1) =~= pairs_view(opts@).take(i as int).push(
                pairs_view(opts@)[i as int],
            ));
        }
        i = i + 1;
    }
    proof {
        assert(pairs_view(opts@).take(opts@.len() as int) =~= pairs_view(opts@));
        assert(pairs_view(kvs@) =~= opts_kvs(pairs_view(opts@), pairs_view(paces@)));
    }
    let mut s = String::new();
    push_char(&mut s, '\x1F');
    push_str(&mut s, "OPTS:");
    push_kvs(&mut s, &kvs);
    push_char(&mut s, '\x1F');
    push_str(&mut s, text.as_str());
    s
}


// ---------------------------------------------------------------------------
// Sentences.

/// Parts joined by single spaces.
pub open spec fn join_sp(parts: Seq<Seq<char>>) -> Seq<char> {
    join_by(parts, ' ')
}

pub fn join_space(parts: &Vec<String>) -> (s: String)
    ensures
        s@ == join_sp(strings_view(parts@)),
{
    join_strings(parts, ' ')
}

/// The pause sentinel `\x1FBREAK:ms\x1F`.
pub open spec fn break_sentinel(ms: u32) -> Seq<char> {
    seq!['\x1F'] + "BREAK:"@ + dec_digits(ms as nat) + seq!['\x1F']
}

pub fn break_sentinel_string(ms: u32) -> (s: String)
    ensures
        s@ == break_sentinel(ms),
{
    let mut s = String::new();
    push_char(&mut s, '\x1F');
    push_str(&mut s, "BREAK:");
    push_dec(&mut s, ms as u64);
    push_char(&mut s, '\x1F');
    s
}

/// The state of sentence extraction: the finished sentences, the texts of the
/// cohorts of the current one, and the overrides of its first cohort.
pub struct ExV {
    pub out: Seq<Seq<char>>,
    pub cur: Seq<Seq<char>>,
    pub opts: Seq<(Seq<char>, Seq<char>)>,
}

pub open spec fn ex_step(
    st: ExV,
    item: ItemV,
    mode: SentenceMode,
    breakers: Seq<Seq<char>>,
    paces: Seq<(Seq<char>, Seq<char>)>,
) -> ExV {
    match item {
        Ok(BlockV::Cohort(c)) => {
            let opts = if st.cur.len() == 0 {
                cohort_opts_spec(c)
            } else {
                st.opts
            };
            let cur = st.cur.push(cohort_text_spec(c, mode));
            match after_break(c) {
                Some(ms) => ExV {
                    out: st.out.push(formatted(join_sp(cur), opts, paces)).push(break_sentinel(ms)),
                    cur: Seq::empty(),
                    opts: Seq::empty(),
                },
                None => if sentence_boundary(c, breakers) {
                    ExV {
                        out: st.out.push(formatted(join_sp(cur), opts, paces)),
                        cur: Seq::empty(),
                        opts: Seq::empty(),
                    }
                } else {
                    ExV { out: st.out, cur, opts }
                },
            }
        },
        _ => st,
    }
}

pub open spec fn ex_scan(
    items: Seq<ItemV>,
    mode: SentenceMode,
    breakers: Seq<Seq<char>>,
    paces: Seq<(Seq<char>, Seq<char>)>,
) -> ExV
    decreases items.len(),
{
    if items.len() == 0 {
        ExV { out: Seq::empty(), cur: Seq::empty(), opts: Seq::empty() }
    } else {
        ex_step(ex_scan(items.drop_last(), mode, breakers, paces), items.last(), mode, breakers, paces)
    }
}

/// The sentences of a parsed stream: cohort texts joined by spaces, cut at
/// sentence boundaries and at pauses (each pause followed by its sentinel),
/// each formatted with the overrides of its first cohort.
pub open spec fn extracted(
    items: Seq<ItemV>,
    mode: SentenceMode,
    breakers: Seq<Seq<char>>,
    paces: Seq<(Seq<char>, Seq<char>)>,
) -> Seq<Seq<char>> {
    let st = ex_scan(items, mode, breakers, paces);
    if st.cur.len() > 0 {
        st.out.push(formatted(join_sp(st.cur), st.opts, paces))
    } else {
        st.out
    }
}

/// The stream can be read, it does not end in an unreadable cohort header
/// (which would be yielded forever, and skipped forever), and no phonological
/// form would be sliced off a character boundary.
pub open spec fn extractable(input: Seq<char>, mode: SentenceMode) -> bool {
    &&& !crate::cg3::stream_panics(input)
    &&& crate::cg3::lines_fit(input)
    &&& !scan(lines(input)).stopped
    &&& forall|i: int|
        0 <= i < blocks(input).len() ==> (#[trigger] blocks(input)[i] matches Ok(BlockV::Cohort(c))
            ==> !phon_panics(c, mode))
}

/// No cohort of the stream asks for a pace in percent.
pub open spec fn no_percent_rate(input: Seq<char>) -> bool {
    forall|i: int|
        0 <= i < blocks(input).len() ==> (#[trigger] blocks(input)[i] matches Ok(BlockV::Cohort(c))
            ==> match lookup(cohort_opts_spec(c), "prosody-rate"@) {
            Some(r) => !(r.len() > 0 && r.last() == '%'),
            None => true,
        })
}

pub open spec fn strings_seq(v: Seq<String>) -> Seq<Seq<char>> {
    strings_view(v)
}

/// The sentences of a CG-3 stream (see [`extracted`]), where the pace of
/// each percentage rate is given in `paces`.
pub fn extract_sentences_with_paces(
    input: &str,
    mode: SentenceMode,
    breakers: &Vec<String>,
    paces: &Vec<(String, String)>,
) -> (v: Vec<String>)
    requires
        extractable(input@, mode),
    ensures
        strings_view(v@) == extracted(
            blocks(input@),
            mode,
            strings_view(breakers@),
            pairs_view(paces@),
        ),
{
    let output = Output::new(input);
    let items = output.iter();
    let ghost iv = items_view(items@);
    let ghost all = items@;
    let ghost bv = strings_view(breakers@);
    let ghost pv = pairs_view(paces@);
    let n = items.len();
    let mut items = crate::text::reversed(items);
    let mut out: Vec<String> = Vec::new();
    let mut cur: Vec<String> = Vec::new();
    let mut opts: Vec<(String, String)> = Vec::new();
    let mut k: usize = 0;
    assert(iv =~= blocks(input@));
    while k < n
        invariant
            k <= n == all.len(),
            items@ == all.subrange(k as int, n as int).reverse(),
            iv == items_view(all),
            iv == blocks(input@),
            bv == strings_view(breakers@),
            pv == pairs_view(paces@),
            extractable(input@, mode),
            ({
                let st = ex_scan(iv.take(k as int), mode, bv, pv);
                &&& strings_view(out@) == st.out
                &&& strings_view(cur@) == st.cur
                &&& pairs_view(opts@) == st.opts
            }),
        decreases n - k,
    {
        proof {
            assert(iv.take(k + 1).drop_last() =~= iv.take(k as int));
            assert(iv.take(k + 1).last() == iv[k as int]);
        }
        let item = match items.pop() {
            Some(x) => x,
            None => Ok(Block::Text(String::new())),
        };
        proof {
            assert(item == all[k as int]);
            assert(items@ =~= all.subrange(k + 1, n as int).reverse());
            assert(iv[k as int] == crate::cg3::item_view(item));
        }
        match item {
            Ok(Block::Cohort(c)) => {
                proof {
                    assert(blocks(input@)[k as int] matches Ok(BlockV::Cohort(cv)) && cv == c@);
                }
                if cur.len() == 0 {
                    opts = cohort_opts(&c);
                }
                let t = cohort_text(&c, mode);
                let ghost c0 = cur@;
                cur.push(t);
                proof {
                    assert(strings_view(cur@) =~= strings_view(c0).push(
                        cohort_text_spec(c@, mode),
                    ));
                }
                match after_break_ms(&c) {
                    Some(ms) => {
                        let joined = join_space(&cur);
                        let sent = format_sentence(joined, &opts, paces);
                        let ghost o0 = out@;
                        out.push(sent);
                        let sentinel = break_sentinel_string(ms);
                        out.push(sentinel);
                        proof {
                            assert(strings_view(out@) =~= strings_view(o0).push(
                                formatted(join_sp(strings_view(cur@)), pairs_view(opts@), pv),
                            ).push(break_sentinel(ms)));
                        }
                        cur = Vec::new();
                        opts = Vec::new();
                        proof {
                            assert(strings_view(cur@) =~= Seq::<Seq<char>>::empty());
                            assert(pairs_view(opts@) =~= Seq::<(Seq<char>, Seq<char>)>::empty());
                        }
                    },
                    None => {
                        if is_sentence_boundary(&c, breakers) {
                            let joined = join_space(&cur);
                            let sent = format_sentence(joined, &opts, paces);
                            let ghost o0 = out@;
                            out.push(sent);
                            proof {
                                assert(strings_view(out@) =~= strings_view(o0).push(
                                    formatted(join_sp(strings_view(cur@)), pairs_view(opts@), pv),
                                ));
                            }
                            cur = Vec::new();
                            opts = Vec::new();
                            proof {
                                assert(strings_view(cur@) =~= Seq::<Seq<char>>::empty());
                                assert(pairs_view(opts@) =~= Seq::<(Seq<char>, Seq<char>)>::empty());
                            }
                        }
                    },
                }
            },
            _ => {},
        }
        k = k + 1;
    }
    proof {
        assert(iv.take(n as int) =~= iv);
    }
    if cur.len() > 0 {
        let joined = join_space(&cur);
        let sent = format_sentence(joined, &opts, paces);
        let ghost o0 = out@;
        out.push(sent);
        proof {
            assert(strings_view(out@) =~= strings_view(o0).push(
                formatted(join_sp(strings_view(cur@)), pairs_view(opts@), pv),
            ));
        }
    }
    out
}

/// The sentences of a CG-3 stream in which no cohort asks for a percentage
/// rate (see [`extracted`]).
pub fn extract_sentences(input: &str, mode: SentenceMode, breakers: &Vec<String>) -> (v: Vec<String>)
    requires
        extractable(input@, mode),
        no_percent_rate(input@),
    ensures
        strings_view(v@) == extracted(
            blocks(input@),
            mode,
            strings_view(breakers@),
            Seq::empty(),
        ),
{
    let paces: Vec<(String, String)> = Vec::new();
    assert(pairs_view(paces@) =~= Seq::<(Seq<char>, Seq<char>)>::empty());
    extract_sentences_with_paces(input, mode, breakers, &paces)
}

/// Whether cutting the phonological form of the cohort would panic.
fn phon_cut_panics(cohort: &Cohort, mode: SentenceMode) -> (b: bool)
    ensures
        b == phon_panics(cohort@, mode),
{
    if mode == SentenceMode::SurfaceForm || cohort.readings.len() == 0 {
        return false;
    }
    let tags = &cohort.readings[0].tags;
    let ghost tv = strings_view(tags@);
    assert(tv == cohort@.readings[0].tags);
    let mut k: usize = 0;
    while k < tags.len()
        invariant
            k <= tags@.len(),
            tv == strings_view(tags@),
            tv == cohort@.readings[0].tags,
            mode == SentenceMode::PhonologicalForm,
            cohort@.readings.len() > 0,
            first_phon(tv.take(k as int)) is None,
        decreases tags@.len() - k,
    {
        let v = chars_of(tags[k].as_str());
        proof {
            assert(tv.take(k + 1).drop_last() =~= tv.take(k as int));
        }
        if ends_with_phon(&v) {
            proof {
                assert(tv.take(k + 1).last() == v@);
                assert(first_phon(tv.take(k + 1)) == Some(k as int));
                lemma_first_phon(tv);
                first_phon_prefix(tv, k + 1);
                assert(phon_tag_of(cohort@, mode) == Some(v@));
            }
            return v.len() < 6 || crate::text::char_len_utf8(v[0]) != 1;
        }
        k = k + 1;
    }
    proof {
        assert(tv.take(tags@.len() as int) =~= tv);
    }
    false
}

/// Whether sentences can be taken out of `input` in `mode`.
pub fn extractable_stream(input: &str, mode: SentenceMode) -> (b: bool)
    ensures
        b == extractable(input@, mode),
{
    if !crate::cg3::stream_readable(input) || crate::cg3::stream_stops(input) {
        return false;
    }
    let output = Output::new(input);
    let items = output.iter();
    let ghost iv = items_view(items@);
    let mut j: usize = 0;
    while j < items.len()
        invariant
            j <= items@.len(),
            iv == items_view(items@),
            iv == blocks(input@),
            forall|t: int| 0 <= t < j ==> (#[trigger] iv[t] matches Ok(BlockV::Cohort(c)) ==> !phon_panics(c, mode)),
        decreases items@.len() - j,
    {
        assert(iv[j as int] == crate::cg3::item_view(items@[j as int]));
        match &items[j] {
            Ok(Block::Cohort(c)) => {
                if phon_cut_panics(c, mode) {
                    assert(!(iv[j as int] matches Ok(BlockV::Cohort(cv)) ==> !phon_panics(cv, mode)));
                    return false;
                }
            },
            _ => {},
        }
        j = j + 1;
    }
    true
}

/// The `prosody-rate` overrides of the cohorts of the stream.
pub open spec fn rates_of(items: Seq<ItemV>) -> Seq<Seq<char>>
    decreases items.len(),
{
    if items.len() == 0 {
        Seq::empty()
    } else {
        rates_of(items.drop_last()) + match items.last() {
            Ok(BlockV::Cohort(c)) => match lookup(cohort_opts_spec(c), "prosody-rate"@) {
                Some(r) => seq![r],
                None => Seq::empty(),
            },
            _ => Seq::empty(),
        }
    }
}

/// The `prosody-rate` overrides of the cohorts of `input`, in order: what
/// the paces given to [`extract_sentences_with_paces`] are for.
pub fn prosody_rates(input: &str) -> (rates: Vec<String>)
    requires
        !crate::cg3::stream_panics(input@),
        crate::cg3::lines_fit(input@),
    ensures
        strings_view(rates@) == rates_of(blocks(input@)),
{
    let output = Output::new(input);
    let items = output.iter();
    let ghost iv = items_view(items@);
    let mut rates: Vec<String> = Vec::new();
    let mut j: usize = 0;
    assert(iv.take(0) =~= Seq::<ItemV>::empty());
    while j < items.len()
        invariant
            j <= items@.len(),
            iv == items_view(items@),
            iv == blocks(input@),
            strings_view(rates@) == rates_of(iv.take(j as int)),
        decreases items@.len() - j,
    {
        assert(iv.take(j + 1).drop_last() =~= iv.take(j as int));
        assert(iv.take(j + 1).last() == iv[j as int]);
        assert(iv[j as int] == crate::cg3::item_view(items@[j as int]));
        let ghost r0 = strings_view(rates@);
        match &items[j] {
            Ok(Block::Cohort(c)) => {
                let opts = cohort_opts(c);
                proof {
                    reveal_strlit("prosody-rate");
                }
                match lookup_exec(&opts, "prosody-rate") {
                    Some(r) => {
                        rates.push(r);
                        assert(strings_view(rates@) =~= r0 + seq![rates@.last()@]);
                    },
                    None => {
                        assert(r0 + Seq::<Seq<char>>::empty() =~= r0);
                    },
                }
            },
            _ => {
                assert(r0 + Seq::<Seq<char>>::empty() =~= r0);
            },
        }
        j = j + 1;
    }
    assert(iv.take(j as int) =~= iv);
    rates
}

} // verus!
