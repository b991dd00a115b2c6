//! What the speech synthesizer reads off a sentence: the pause sentinel
//! `\x1FBREAK:ms\x1F` and the overrides prefix `\x1FOPTS:k=v;..\x1F`, both
//! written by sentence extraction; and the CG-3 lines of normalised readings.
use vstd::prelude::*;
use vstd::string::StrSliceExecFns;
use crate::num::{all_digits, dec_digits, dec_value, digit_val, is_digit, parse_u32, parse_u32_chars};
use crate::sentences::break_sentinel;
use crate::text::{chars_of, join_by, push_char, push_chars, push_str, string_of, strings_view};

verus! {

broadcast use vstd::string::group_string_axioms;

/// The pause length of a break sentinel `\x1FBREAK:ms\x1F`, where `s` is one.
pub open spec fn break_sentinel_ms(s: Seq<char>) -> Option<u32> {
    let p = seq!['\x1F'] + "BREAK:"@;
    if s.len() >= p.len() + 1 && s.take(p.len() as int) == p && s.last() == '\x1F' {
        parse_u32(s.subrange(p.len() as int, s.len() - 1))
    } else {
        None
    }
}

fn has_prefix_at(v: &Vec<char>, p: &str) -> (r: bool)
    ensures
        r == (v@.len() >= p@.len() && v@.take(p@.len() as int) == p@),
{
    let pv = chars_of(p);
    if v.len() < pv.len() {
        return false;
    }
    let mut i: usize = 0;
    while i < pv.len()
        invariant
            i <= pv@.len() <= v@.len(),
            pv@ == p@,
            v@.take(i as int) == pv@.take(i as int),
        decreases pv@.len() - i,
    {
        if v[i] != pv[i] {
            assert(v@.take(pv@.len() as int)[i as int] != pv@[i as int]);
            return false;
        }
        assert(v@.take(i + 1) =~= v@.take(i as int).push(v@[i as int]));
        assert(pv@.take(i + 1) =~= pv@.take(i as int).push(pv@[i as int]));
        i = i + 1;
    }
    assert(pv@.take(pv@.len() as int) =~= pv@);
    true
}

/// The milliseconds of a `\x1FBREAK:ms\x1F` sentinel; `None` for any other
/// string.
pub fn parse_break_sentinel(s: &str) -> (r: Option<u32>)
    ensures
        r == break_sentinel_ms(s@),
{
    let v = chars_of(s);
    let ghost p = seq!['\x1F'] + "BREAK:"@;
    let mut pre = String::new();
    push_char(&mut pre, '\x1F');
    push_str(&mut pre, "BREAK:");
    assert(pre@ == p);
    let n = pre.as_str().unicode_len();
    if v.len() <= n {
        return None;
    }
    if !has_prefix_at(&v, pre.as_str()) {
        return None;
    }
    if v[v.len() - 1] != '\x1F' {
        return None;
    }
    parse_u32_chars(&v, n, v.len() - 1)
}

proof fn lemma_dec_digits(n: nat)
    ensures
        dec_digits(n).len() > 0,
        all_digits(dec_digits(n)),
        dec_value(dec_digits(n)) == n,
    decreases n,
{
    let d = (('0' as u32) + (n % 10)) as char;
    assert(d as u32 == ('0' as u32) + n % 10);
    assert(digit_val(d) == n % 10);
    if n < 10 {
        assert(n % 10 == n);
        assert(dec_digits(n) =~= seq![d]);
        assert(seq![d].drop_last() =~= Seq::<char>::empty());
        assert(dec_value(seq![d]) == dec_value(seq![d].drop_last()) * 10 + digit_val(d));
    } else {
        lemma_dec_digits(n / 10);
        let s = dec_digits(n);
        assert(s == dec_digits(n / 10).push(d));
        assert(s.drop_last() =~= dec_digits(n / 10));
        assert forall|i: int| 0 <= i < s.len() implies is_digit(#[trigger] s[i]) by {
            if i < s.len() - 1 {
                assert(s[i] == dec_digits(n / 10)[i]);
            }
        }
        assert(dec_value(s) == dec_value(s.drop_last()) * 10 + digit_val(s.last()));
        assert(n == (n / 10) * 10 + n % 10);
    }
}

/// The pause sentinel that sentence extraction writes reads back as its
/// pause length.
pub proof fn lemma_break_sentinel_round_trip(ms: u32)
    ensures
        break_sentinel_ms(break_sentinel(ms)) == Some(ms),
{
    let p = seq!['\x1F'] + "BREAK:"@;
    let s = break_sentinel(ms);
    let d = dec_digits(ms as nat);
    lemma_dec_digits(ms as nat);
    assert(s =~= p + d + seq!['\x1F']);
    assert(s.take(p.len() as int) =~= p);
    assert(s.subrange(p.len() as int, s.len() - 1) =~= d);
    assert(d[0] != '+');
}

/// The overrides read off a sentence's prefix: the raw `pace` value, where a
/// `pace=` entry is given (the last one counts).
#[derive(Debug)]
pub struct SentenceOpts {
    pub pace: Option<String>,
}

/// The parts of `s` between the separators `sep` (`str::split`).
pub open spec fn split_on(s: Seq<char>, sep: char) -> Seq<Seq<char>>
    decreases s.len(),
{
    if s.len() == 0 {
        seq![Seq::empty()]
    } else {
        let prev = split_on(s.drop_last(), sep);
        if s.last() == sep {
            prev.push(Seq::empty())
        } else {
            prev.update(prev.len() - 1, prev.last().push(s.last()))
        }
    }
}

proof fn lemma_split_on_len(s: Seq<char>, sep: char)
    ensures
        split_on(s, sep).len() > 0,
    decreases s.len(),
{
    if s.len() > 0 {
        lemma_split_on_len(s.drop_last(), sep);
    }
}

/// The parts of `s` between the separators `sep`, each as a string.
pub fn split_at_char(s: &str, sep: char) -> (parts: Vec<String>)
    ensures
        strings_view(parts@) == split_on(s@, sep),
{
    let v = chars_of(s);
    let mut parts: Vec<String> = Vec::new();
    let mut cur = String::new();
    let mut i: usize = 0;
    assert(v@.take(0) =~= Seq::<char>::empty());
    while i < v.len()
        invariant
            i <= v@.len(),
            v@ == s@,
            strings_view(parts@).push(cur@) == split_on(v@.take(i as int), sep),
        decreases v@.len() - i,
    {
        let ghost p0 = strings_view(parts@);
        let ghost c0 = cur@;
        assert(v@.take(i + 1).drop_last() =~= v@.take(i as int));
        assert(v@.take(i + 1).last() == v@[i as int]);
        if v[i] == sep {
            parts.push(cur);
            cur = String::new();
            assert(strings_view(parts@) =~= p0.push(c0));
        } else {
            push_char(&mut cur, v[i]);
            assert(p0.push(c0).update(p0.len() as int, c0.push(v@[i as int])) =~= p0.push(cur@));
        }
        i = i + 1;
    }
    assert(v@.take(v@.len() as int) =~= v@);
    parts.push(cur);
    parts
}

/// The index of the first `c` in `s`.
pub open spec fn first_of(s: Seq<char>, c: char) -> Option<int>
    decreases s.len(),
{
    if s.len() == 0 {
        None
    } else if s[0] == c {
        Some(0)
    } else {
        match first_of(s.drop_first(), c) {
            Some(i) => Some(i + 1),
            None => None,
        }
    }
}

pub proof fn lemma_first_of_bound(s: Seq<char>, c: char)
    ensures
        first_of(s, c) matches Some(i) ==> 0 <= i < s.len() && s[i] == c,
    decreases s.len(),
{
    if s.len() > 0 {
        lemma_first_of_bound(s.drop_first(), c);
    }
}

/// The `pace` value among `k=v` entries: that of the last entry whose key
/// (up to the first `=`) is `pace`.
pub open spec fn pace_of_entries(kvs: Seq<Seq<char>>) -> Option<Seq<char>>
    decreases kvs.len(),
{
    if kvs.len() == 0 {
        None
    } else {
        let kv = kvs.last();
        match first_of(kv, '=') {
            Some(i) => if kv.take(i) == "pace"@ {
                Some(kv.skip(i + 1))
            } else {
                pace_of_entries(kvs.drop_last())
            },
            None => pace_of_entries(kvs.drop_last()),
        }
    }
}

/// The overrides prefix of `s`, if it has a complete one: the text between
/// `\x1FOPTS:` and the next `\x1F`, and the position of that `\x1F`.
pub open spec fn opts_prefix(s: Seq<char>) -> Option<(Seq<char>, int)> {
    let p = seq!['\x1F'] + "OPTS:"@;
    if s.len() >= p.len() && s.take(p.len() as int) == p {
        match first_of(s.skip(p.len() as int), '\x1F') {
            Some(e) => Some((s.subrange(p.len() as int, p.len() + e), p.len() + e)),
            None => None,
        }
    } else {
        None
    }
}

/// The pace override and the sentence text of `s`: without a complete
/// prefix, no override and all of `s`.
pub open spec fn opts_split(s: Seq<char>) -> (Option<Seq<char>>, Seq<char>) {
    match opts_prefix(s) {
        Some((kvs, end)) => (pace_of_entries(split_on(kvs, ';')), s.skip(end + 1)),
        None => (None, s),
    }
}

fn find_char(v: &Vec<char>, from: usize, to: usize, c: char) -> (r: Option<usize>)
    requires
        from <= to <= v@.len(),
    ensures
        r matches Some(k) ==> from <= k < to && first_of(v@.subrange(from as int, to as int), c)
            == Some(k - from),
        r is None ==> first_of(v@.subrange(from as int, to as int), c) is None,
    decreases to - from,
{
    if from == to {
        return None;
    }
    let ghost s = v@.subrange(from as int, to as int);
    assert(s.drop_first() =~= v@.subrange(from + 1, to as int));
    if v[from] == c {
        Some(from)
    } else {
        find_char(v, from + 1, to, c)
    }
}

fn equals_pace(v: &Vec<char>, from: usize, to: usize) -> (r: bool)
    requires
        from <= to <= v@.len(),
    ensures
        r == (v@.subrange(from as int, to as int) == "pace"@),
{
    let t = string_of(v, from, to);
    crate::text::str_eq(t.as_str(), "pace")
}

/// Strips the `\x1FOPTS:k=v;..\x1F` prefix off a sentence, if it has a
/// complete one, and reads the overrides out of it; unknown keys are ignored.
pub fn parse_opts_prefix(s: &str) -> (r: (SentenceOpts, String))
    ensures
        ({
            let (pace, text) = opts_split(s@);
            &&& opt_string_view(r.0.pace) == pace
            &&& r.1@ == text
        }),
{
    let v = chars_of(s);
    let ghost p = seq!['\x1F'] + "OPTS:"@;
    let mut pre = String::new();
    push_char(&mut pre, '\x1F');
    push_str(&mut pre, "OPTS:");
    assert(pre@ == p);
    let n = pre.as_str().unicode_len();
    if !has_prefix_at(&v, pre.as_str()) {
        return (SentenceOpts { pace: None }, string_of_vec(&v));
    }
    assert(v@.skip(n as int) =~= v@.subrange(n as int, v@.len() as int));
    let end = match find_char(&v, n, v.len(), '\x1F') {
        Some(e) => e,
        None => {
            return (SentenceOpts { pace: None }, string_of_vec(&v));
        },
    };
    let ghost kvs = v@.subrange(n as int, end as int);
    // Walk the `;`-separated entries of v[n..end].
    let mut pace: Option<String> = None;
    let mut start = n;
    let mut i = n;
    let ghost mut done: Seq<Seq<char>> = Seq::empty();
    assert(kvs.take(0) =~= Seq::<char>::empty());
    assert(v@.subrange(n as int, n as int) =~= Seq::<char>::empty());
    assert(split_on(Seq::<char>::empty(), ';') == seq![Seq::<char>::empty()]);
    assert(done.push(Seq::<char>::empty()) =~= seq![Seq::<char>::empty()]);
    while i <= end
        invariant
            n <= start <= i <= end + 1,
            end < v@.len(),
            kvs == v@.subrange(n as int, end as int),
            i <= end ==> split_on(kvs.take(i - n), ';') == done.push(
                v@.subrange(start as int, i as int),
            ),
            opt_string_view(pace) == pace_of_entries(done),
            i == end + 1 ==> split_on(kvs, ';') == done,
        decreases end + 1 - i,
    {
        if i == end || v[i] == ';' {
            // An entry ends at i.
            let ghost entry = v@.subrange(start as int, i as int);
            match find_char(&v, start, i, '=') {
                Some(eq) => {
                    assert(first_of(entry, '=') == Some(eq - start));
                    if equals_pace(&v, start, eq) {
                        pace = Some(string_of(&v, eq + 1, i));
                        assert(entry.take(eq - start) =~= v@.subrange(start as int, eq as int));
                        assert(entry.skip(eq - start + 1) =~= v@.subrange(eq + 1, i as int));
                    } else {
                        assert(entry.take(eq - start) =~= v@.subrange(start as int, eq as int));
                    }
                },
                None => {
                    assert(first_of(entry, '=') is None);
                },
            }
            proof {
                let ghost d0 = done;
                done = done.push(entry);
                assert(done.drop_last() =~= d0);
                assert(done.last() == entry);
                if i < end {
                    assert(kvs.take(i + 1 - n) =~= kvs.take(i - n).push(';'));
                    assert(kvs.take(i + 1 - n).drop_last() =~= kvs.take(i - n));
                } else {
                    assert(kvs.take(i - n) =~= kvs);
                }
            }
            assert(i < v.len());
            start = i + 1;
            i = i + 1;
            proof {
                if i <= end {
                    assert(v@.subrange(start as int, i as int) =~= Seq::<char>::empty());
                }
            }
        } else {
            proof {
                let ghost k0 = kvs.take(i - n);
                assert(kvs.take(i + 1 - n) =~= k0.push(v@[i as int]));
                assert(kvs.take(i + 1 - n).drop_last() =~= k0);
                lemma_split_on_len(k0, ';');
                assert(v@.subrange(start as int, i + 1) =~= v@.subrange(start as int, i as int).push(
                    v@[i as int],
                ));
            }
            i = i + 1;
        }
    }
    let text = string_of(&v, end + 1, v.len());
    assert(v@.skip(end + 1) =~= v@.subrange(end + 1, v@.len() as int));
    (SentenceOpts { pace }, text)
}

pub open spec fn opt_string_view(o: Option<String>) -> Option<Seq<char>> {
    match o {
        Some(s) => Some(s@),
        None => None,
    }
}

fn string_of_vec(v: &Vec<char>) -> (s: String)
    ensures
        s@ == v@,
{
    crate::text::string_of_all(v)
}

/// A reading after normalisation.
#[derive(Debug)]
pub struct NormalizedReading {
    pub base_form: String,
    pub tags: Vec<String>,
    pub phonological_form: String,
    pub old_lemma: String,
    pub depth: usize,
}

/// `n` tabs.
pub open spec fn tabs(n: nat) -> Seq<char> {
    Seq::new(n, |i: int| '\t')
}

/// `TAB*depth "base" tags "phon"phon "old"oldlemma`.
pub open spec fn normalized_line(r: NormalizedReading) -> Seq<char> {
    tabs(r.depth as nat) + seq!['"'] + r.base_form@ + seq!['"', ' '] + join_by(
        strings_view(r.tags@),
        ' ',
    ) + seq![' ', '"'] + r.phonological_form@ + "\"phon \""@ + r.old_lemma@ + "\"oldlemma"@
}

impl NormalizedReading {
    /// The reading as a CG-3 reading line, indented by its depth.
    pub fn to_cg3_format(&self) -> (s: String)
        ensures
            s@ == normalized_line(*self),
    {
        let mut s = String::new();
        let mut i: usize = 0;
        while i < self.depth
            invariant
                i <= self.depth,
                s@ == tabs(i as nat),
            decreases self.depth - i,
        {
            push_char(&mut s, '\t');
            assert(s@ =~= tabs((i + 1) as nat));
            i = i + 1;
        }
        push_char(&mut s, '"');
        push_str(&mut s, self.base_form.as_str());
        push_char(&mut s, '"');
        push_char(&mut s, ' ');
        let t = crate::text::join_strings(&self.tags, ' ');
        push_str(&mut s, t.as_str());
        push_char(&mut s, ' ');
        push_char(&mut s, '"');
        push_str(&mut s, self.phonological_form.as_str());
        push_str(&mut s, "\"phon \"");
        push_str(&mut s, self.old_lemma.as_str());
        push_str(&mut s, "\"oldlemma");
        assert(s@ =~= normalized_line(*self));
        s
    }
}

/// The normalised readings of a cohort.
#[derive(Debug)]
pub struct NormalizedCohort {
    pub readings: Vec<NormalizedReading>,
}

impl NormalizedCohort {
    /// The cohort's reading lines, joined by newlines.
    pub fn to_cg3_format(&self) -> (s: String)
        ensures
            s@ == join_by(self.readings@.map_values(|r: NormalizedReading| normalized_line(r)), '\n'),
    {
        let mut lines: Vec<String> = Vec::new();
        let mut i: usize = 0;
        while i < self.readings.len()
            invariant
                i <= self.readings@.len(),
                strings_view(lines@) == self.readings@.take(i as int).map_values(
                    |r: NormalizedReading| normalized_line(r),
                ),
            decreases self.readings@.len() - i,
        {
            let l = self.readings[i].to_cg3_format();
            let ghost l0 = lines@;
            lines.push(l);
            assert(strings_view(lines@) =~= strings_view(l0).push(l@));
            assert(strings_view(lines@) =~= self.readings@.take(i + 1).map_values(
                |r: NormalizedReading| normalized_line(r),
            ));
            i = i + 1;
        }
        assert(self.readings@.take(self.readings@.len() as int) =~= self.readings@);
        crate::text::join_strings(&lines, '\n')
    }
}

} // verus!
