//! Spelling inside a CG-3 stream: the readings of unknown cohorts are
//! replaced by readings of the speller's suggestions. An analysis reaches the
//! stream as one joined string (`viessu N Sg Nom`), so telling a tag from
//! lemma text is done against the acceptor's own symbol table: every symbol
//! longer than one character is a tag, and the lemma ends where the rest of
//! the analysis parses entirely as tags.
use vstd::prelude::*;
use vstd::string::StrSliceExecFns;
use crate::cg3::{
    blocks, readings_text, reading_text, BlockV, Block, CohortV, ItemV, Output, ParseError,
    ParseErrorV, ReadingV, readings_view, tabs,
};
use crate::speech::{split_at_char, split_on};
use crate::ssml::concat_all;
use crate::unicode::{char_lowercased, char_to_lowercase, is_lower, is_upper, lower, lowercased, to_lowercase, upper};
use crate::text::{
    chars_of, push_char, push_chars, push_str, string_of, string_of_all, strings_view, trim,
    trimmed,
};

verus! {

broadcast use vstd::string::group_string_axioms;

/// The tag symbols of an acceptor: its multi-character symbols.
#[derive(Debug)]
pub struct TagSymbols {
    symbols: Vec<String>,
}

impl View for TagSymbols {
    type V = Seq<Seq<char>>;

    closed spec fn view(&self) -> Seq<Seq<char>> {
        strings_view(self.symbols@)
    }
}

/// Whether `a[i..]` is nothing but tags.
pub open spec fn is_tail(a: Seq<char>, syms: Seq<Seq<char>>, i: int) -> bool
    decreases a.len() - i, 1int, 0int,
{
    if i >= a.len() {
        true
    } else if i < 0 {
        false
    } else {
        longest_tag_end(a, syms, i, a.len() as int) is Some
    }
}

/// The largest `e` in `(i, hi]` such that `a[i..e]` is a tag and `a[e..]` is
/// nothing but tags.
pub open spec fn longest_tag_end(a: Seq<char>, syms: Seq<Seq<char>>, i: int, hi: int) -> Option<
    int,
>
    decreases a.len() - i, 0int, hi - i,
{
    if hi <= i || hi > a.len() || i < 0 {
        None
    } else if is_tail(a, syms, hi) && syms.contains(a.subrange(i, hi)) {
        Some(hi)
    } else {
        longest_tag_end(a, syms, i, hi - 1)
    }
}

pub proof fn lemma_longest_tag_end(a: Seq<char>, syms: Seq<Seq<char>>, i: int, hi: int)
    ensures
        longest_tag_end(a, syms, i, hi) matches Some(e) ==> i < e <= hi && e <= a.len()
            && is_tail(a, syms, e) && syms.contains(a.subrange(i, e)),
    decreases hi - i,
{
    if !(hi <= i || hi > a.len() || i < 0) {
        if !(is_tail(a, syms, hi) && syms.contains(a.subrange(i, hi))) {
            lemma_longest_tag_end(a, syms, i, hi - 1);
        }
    }
}

/// Where the lemma ends: the first position from which the rest is all tags.
pub open spec fn lemma_end_from(a: Seq<char>, syms: Seq<Seq<char>>, i: int) -> int
    decreases a.len() - i,
{
    if i >= a.len() || is_tail(a, syms, i) {
        i
    } else {
        lemma_end_from(a, syms, i + 1)
    }
}

/// The tags of `a` from `pos` on, each the longest that leaves a tag tail.
pub open spec fn tags_from(a: Seq<char>, syms: Seq<Seq<char>>, pos: int) -> Seq<Seq<char>>
    decreases a.len() - pos,
{
    match longest_tag_end(a, syms, pos, a.len() as int) {
        Some(e) => {
            proof {
                lemma_longest_tag_end(a, syms, pos, a.len() as int);
            }
            seq![a.subrange(pos, e)] + tags_from(a, syms, e)
        },
        None => Seq::empty(),
    }
}

/// An analysis split into its lemma and its trailing tags.
pub open spec fn lemma_split(a: Seq<char>, syms: Seq<Seq<char>>) -> (Seq<char>, Seq<Seq<char>>) {
    let end = lemma_end_from(a, syms, 0);
    (a.take(end), tags_from(a, syms, end))
}

fn slice_eq(a: &Vec<char>, i: usize, j: usize, s: &String) -> (r: bool)
    requires
        i <= j <= a@.len(),
    ensures
        r == (a@.subrange(i as int, j as int) == s@),
{
    let sv = chars_of(s.as_str());
    if sv.len() != j - i {
        return false;
    }
    let mut k: usize = 0;
    while k < sv.len()
        invariant
            k <= sv@.len() == j - i,
            i <= j <= a@.len(),
            sv@ == s@,
            forall|m: int| 0 <= m < k ==> a@[i + m] == sv@[m],
        decreases sv@.len() - k,
    {
        if a[i + k] != sv[k] {
            assert(a@.subrange(i as int, j as int)[k as int] != s@[k as int]);
            return false;
        }
        k = k + 1;
    }
    assert(a@.subrange(i as int, j as int) =~= s@);
    true
}

impl TagSymbols {
    /// The tag symbols among an acceptor's symbols: those longer than one
    /// character.
    pub fn new(key_table: &[&str]) -> (t: TagSymbols)
        ensures
            t@ == key_table@.map_values(|s: &str| s@).filter(|s: Seq<char>| s.len() > 1),
    {
        let ghost kv = key_table@.map_values(|s: &str| s@);
        let mut symbols: Vec<String> = Vec::new();
        let mut i: usize = 0;
        while i < key_table.len()
            invariant
                i <= key_table@.len(),
                kv == key_table@.map_values(|s: &str| s@),
                strings_view(symbols@) == kv.take(i as int).filter(|s: Seq<char>| s.len() > 1),
            decreases key_table@.len() - i,
        {
            proof {
                assert(kv.take(i + 1).drop_last() =~= kv.take(i as int));
                reveal_with_fuel(Seq::filter, 1);
            }
            let sym = key_table[i];
            let ghost s0 = symbols@;
            if sym.unicode_len() > 1 {
                symbols.push(sym.to_string());
                assert(strings_view(symbols@) =~= strings_view(s0).push(sym@));
            }
            i = i + 1;
        }
        assert(kv.take(key_table@.len() as int) =~= kv);
        TagSymbols { symbols }
    }

    fn holds(&self, a: &Vec<char>, i: usize, j: usize) -> (r: bool)
        requires
            i <= j <= a@.len(),
        ensures
            r == self@.contains(a@.subrange(i as int, j as int)),
    {
        let mut k: usize = 0;
        while k < self.symbols.len()
            invariant
                k <= self.symbols@.len(),
                i <= j <= a@.len(),
                forall|m: int| 0 <= m < k ==> self.symbols@[m]@ != a@.subrange(i as int, j as int),
            decreases self.symbols@.len() - k,
        {
            if slice_eq(a, i, j, &self.symbols[k]) {
                assert(self@[k as int] == a@.subrange(i as int, j as int));
                return true;
            }
            k = k + 1;
        }
        proof {
            if self@.contains(a@.subrange(i as int, j as int)) {
                let m = choose|m: int|
                    0 <= m < self@.len() && self@[m] == a@.subrange(i as int, j as int);
                assert(self.symbols@[m]@ == self@[m]);
            }
        }
        false
    }

    /// The longest tag at `i` that leaves a tag tail, given which positions
    /// after `i` begin one.
    fn match_symbol(&self, a: &Vec<char>, i: usize, tail: &Vec<bool>) -> (r: Option<usize>)
        requires
            i < a@.len(),
            tail@.len() == a@.len() + 1,
            forall|k: int| i < k <= a@.len() ==> tail@[k] == is_tail(a@, self@, k),
        ensures
            r matches Some(e) ==> longest_tag_end(a@, self@, i as int, a@.len() as int) == Some(
                e as int,
            ),
            r is None ==> longest_tag_end(a@, self@, i as int, a@.len() as int) is None,
            r matches Some(e) ==> i < e <= a@.len(),
    {
        let mut hi = a.len();
        while hi > i
            invariant
                i <= hi <= a@.len(),
                tail@.len() == a@.len() + 1,
                forall|k: int| i < k <= a@.len() ==> tail@[k] == is_tail(a@, self@, k),
                longest_tag_end(a@, self@, i as int, a@.len() as int) == longest_tag_end(
                    a@,
                    self@,
                    i as int,
                    hi as int,
                ),
            decreases hi - i,
        {
            if tail[hi] && self.holds(a, i, hi) {
                return Some(hi);
            }
            hi = hi - 1;
        }
        None
    }

    /// Splits an analysis into its lemma and its trailing tags. Tags only
    /// ever follow the lemma, so the lemma ends at the first position from
    /// which the rest parses entirely as tags; lemmas may themselves hold
    /// spaces (multiword entries), which is why this cannot split on
    /// whitespace.
    pub fn split_lemma(&self, analysis: &str) -> (r: (String, Vec<String>))
        ensures
            r.0@ == lemma_split(analysis@, self@).0,
            strings_view(r.1@) == lemma_split(analysis@, self@).1,
    {
        let a = chars_of(analysis);
        let n = a.len();
        let mut tail: Vec<bool> = Vec::new();
        let mut k: usize = 0;
        while k < n
            invariant
                k <= n == a@.len(),
                tail@.len() == k,
            decreases n - k,
        {
            tail.push(false);
            k = k + 1;
        }
        tail.push(true);
        let mut start = n;
        while start > 0
            invariant
                start <= n == a@.len(),
                tail@.len() == n + 1,
                forall|k: int| start <= k <= n ==> tail@[k] == is_tail(a@, self@, k),
            decreases start,
        {
            start = start - 1;
            let m = self.match_symbol(&a, start, &tail);
            tail.set(start, m.is_some());
        }
        let mut end: usize = 0;
        while end < n && !tail[end]
            invariant
                end <= n == a@.len(),
                tail@.len() == n + 1,
                forall|k: int| 0 <= k <= n ==> tail@[k] == is_tail(a@, self@, k),
                lemma_end_from(a@, self@, 0) == lemma_end_from(a@, self@, end as int),
            decreases n - end,
        {
            end = end + 1;
        }
        let lemma = string_of(&a, 0, end);
        assert(a@.subrange(0, end as int) =~= a@.take(end as int));
        let mut tags: Vec<String> = Vec::new();
        let mut pos = end;
        loop
            invariant
                end <= pos <= n == a@.len(),
                tail@.len() == n + 1,
                forall|k: int| 0 <= k <= n ==> tail@[k] == is_tail(a@, self@, k),
                lemma_end_from(a@, self@, 0) == end,
                strings_view(tags@) + tags_from(a@, self@, pos as int) == tags_from(
                    a@,
                    self@,
                    end as int,
                ),
            ensures
                strings_view(tags@) + tags_from(a@, self@, pos as int) == tags_from(
                    a@,
                    self@,
                    end as int,
                ),
                tags_from(a@, self@, pos as int) == Seq::<Seq<char>>::empty(),
                lemma_end_from(a@, self@, 0) == end,
            decreases n - pos,
        {
            if pos >= n {
                assert(tags_from(a@, self@, pos as int) =~= Seq::<Seq<char>>::empty());
                break;
            }
            match self.match_symbol(&a, pos, &tail) {
                Some(e) => {
                    let ghost t0 = tags@;
                    tags.push(string_of(&a, pos, e));
                    assert(strings_view(tags@) =~= strings_view(t0).push(
                        a@.subrange(pos as int, e as int),
                    ));
                    assert(strings_view(tags@) + tags_from(a@, self@, e as int) =~= strings_view(
                        t0,
                    ) + tags_from(a@, self@, pos as int));
                    pos = e;
                },
                None => {
                    assert(tags_from(a@, self@, pos as int) =~= Seq::<Seq<char>>::empty());
                    break;
                },
            }
        }
        assert(strings_view(tags@) + Seq::<Seq<char>>::empty() =~= strings_view(tags@));
        (lemma, tags)
    }
}

/// A reading the grammar kept that marks its cohort as unknown (`?` or `+?`).
pub open spec fn unknown_reading(r: ReadingV) -> bool {
    !r.removed && (r.tags.contains(seq!['+', '?']) || r.tags.contains(seq!['?']))
}

/// The cohort is unknown to the analyser.
pub open spec fn is_unknown(c: CohortV) -> bool {
    exists|k: int| 0 <= k < c.readings.len() && #[trigger] unknown_reading(c.readings[k])
}

/// The word forms to spell: those of the unknown cohorts, in order, up to
/// the first error of the stream.
pub open spec fn targets_from(items: Seq<ItemV>) -> Seq<Seq<char>>
    decreases items.len(),
{
    if items.len() == 0 {
        Seq::empty()
    } else {
        match items[0] {
            Err(_) => Seq::empty(),
            Ok(BlockV::Cohort(c)) => (if is_unknown(c) {
                seq![c.word_form]
            } else {
                Seq::empty()
            }) + targets_from(items.drop_first()),
            Ok(_) => targets_from(items.drop_first()),
        }
    }
}

/// The next speller output, empty where none is left.
pub open spec fn next_spelled(spelled: Seq<Seq<char>>) -> Seq<char> {
    if spelled.len() > 0 {
        spelled[0]
    } else {
        Seq::empty()
    }
}

/// A block as the rewritten stream has it, and the speller outputs left: an
/// unknown cohort takes the next output in place of its readings, unless
/// that is blank (then it keeps its own readings).
pub open spec fn render_block(b: BlockV, spelled: Seq<Seq<char>>) -> (Seq<char>, Seq<Seq<char>>) {
    match b {
        BlockV::Cohort(c) => {
            let head = seq!['"', '<'] + c.word_form + seq!['>', '"', '\n'];
            if is_unknown(c) {
                let s = next_spelled(spelled);
                let rest = if spelled.len() > 0 {
                    spelled.drop_first()
                } else {
                    spelled
                };
                (
                    head + if trim(s).len() > 0 {
                        s
                    } else {
                        readings_text(c.readings)
                    },
                    rest,
                )
            } else {
                (head + readings_text(c.readings), spelled)
            }
        },
        BlockV::Escaped(x) => (seq![':'] + x + seq!['\n'], spelled),
        BlockV::StreamCmd(x) => (x + seq!['\n'], spelled),
        BlockV::Text(x) => (x + seq!['\n'], spelled),
    }
}

/// The rewritten stream, or the first error of the stream.
pub open spec fn render_from(items: Seq<ItemV>, spelled: Seq<Seq<char>>) -> Result<
    Seq<char>,
    ParseErrorV,
>
    decreases items.len(),
{
    if items.len() == 0 {
        Ok(Seq::empty())
    } else {
        match items[0] {
            Err(e) => Err(e),
            Ok(b) => {
                let (t, rest) = render_block(b, spelled);
                match render_from(items.drop_first(), rest) {
                    Ok(u) => Ok(t + u),
                    Err(e) => Err(e),
                }
            },
        }
    }
}

pub open spec fn prepend(p: Seq<char>, r: Result<Seq<char>, ParseErrorV>) -> Result<
    Seq<char>,
    ParseErrorV,
> {
    match r {
        Ok(t) => Ok(p + t),
        Err(e) => Err(e),
    }
}

pub open spec fn result_view(r: Result<String, ParseError>) -> Result<Seq<char>, ParseErrorV> {
    match r {
        Ok(s) => Ok(s@),
        Err(e) => Err(e@),
    }
}

fn cohort_unknown(c: &crate::cg3::Cohort) -> (r: bool)
    ensures
        r == is_unknown(c@),
{
    proof {
        reveal_strlit("+?");
        reveal_strlit("?");
        assert("+?"@ =~= seq!['+', '?']);
        assert("?"@ =~= seq!['?']);
    }
    let mut k: usize = 0;
    while k < c.readings.len()
        invariant
            k <= c.readings@.len(),
            "+?"@ == seq!['+', '?'],
            "?"@ == seq!['?'],
            forall|m: int| 0 <= m < k ==> !unknown_reading(#[trigger] c@.readings[m]),
        decreases c.readings@.len() - k,
    {
        let r = &c.readings[k];
        assert(c@.readings[k as int] == r@);
        if !r.removed {
            let mut t: usize = 0;
            while t < r.tags.len()
                invariant
                    t <= r.tags@.len(),
                    k < c.readings@.len(),
                    c@.readings[k as int] == r@,
                    !r.removed,
                    "+?"@ == seq!['+', '?'],
                    "?"@ == seq!['?'],
                    forall|m: int|
                        0 <= m < t ==> r@.tags[m] != seq!['+', '?'] && r@.tags[m] != seq!['?'],
                decreases r.tags@.len() - t,
            {
                if crate::text::str_eq(r.tags[t].as_str(), "+?") || crate::text::str_eq(
                    r.tags[t].as_str(),
                    "?",
                ) {
                    assert(r@.tags[t as int] == r.tags@[t as int]@);
                    assert(r@.tags[t as int] == seq!['+', '?'] || r@.tags[t as int] == seq!['?']);
                    assert(r@.tags.contains(r@.tags[t as int]));
                    assert(unknown_reading(c@.readings[k as int]));
                    return true;
                }
                t = t + 1;
            }
            assert(c@.readings[k as int] == r@);
            assert(!r@.tags.contains(seq!['+', '?']));
            assert(!r@.tags.contains(seq!['?']));
        }
        assert(!unknown_reading(c@.readings[k as int]));
        k = k + 1;
    }
    false
}

fn copy_error(e: &ParseError) -> (r: ParseError)
    ensures
        r@ == e@,
{
    match e {
        ParseError::InvalidInput { line, position, expected } => ParseError::InvalidInput {
            line: *line,
            position: *position,
            expected: expected.clone(),
        },
        ParseError::InvalidLine(s) => ParseError::InvalidLine(s.clone()),
        ParseError::InvalidReading(s) => ParseError::InvalidReading(s.clone()),
    }
}

/// The word forms a stream asks to spell: those of its unknown cohorts (a
/// kept reading tagged `?` or `+?`), in order, up to its first error.
pub fn spell_targets(input: &str) -> (v: Vec<String>)
    requires
        !crate::cg3::stream_panics(input@),
        crate::cg3::lines_fit(input@),
    ensures
        strings_view(v@) == targets_from(blocks(input@)),
{
    let output = Output::new(input);
    let items = output.iter();
    let ghost iv = crate::cg3::items_view(items@);
    let mut v: Vec<String> = Vec::new();
    let mut k: usize = 0;
    assert(iv.skip(0) =~= iv);
    while k < items.len()
        invariant
            k <= items@.len(),
            iv == crate::cg3::items_view(items@),
            iv == blocks(input@),
            strings_view(v@) + targets_from(iv.skip(k as int)) == targets_from(iv),
        decreases items@.len() - k,
    {
        let ghost t = iv.skip(k as int);
        assert(t[0] == crate::cg3::item_view(items@[k as int]));
        assert(t.drop_first() =~= iv.skip(k + 1));
        match &items[k] {
            Err(_) => {
                assert(t[0] is Err);
                assert(targets_from(t) =~= Seq::<Seq<char>>::empty());
                assert(strings_view(v@) + Seq::<Seq<char>>::empty() =~= strings_view(v@));
                return v;
            },
            Ok(Block::Cohort(c)) => {
                if cohort_unknown(c) {
                    let ghost v0 = v@;
                    v.push(c.word_form.clone());
                    assert(strings_view(v@) =~= strings_view(v0).push(c@.word_form));
                    assert(strings_view(v@) + targets_from(iv.skip(k + 1)) =~= strings_view(v0)
                        + targets_from(t));
                } else {
                    assert(strings_view(v@) + targets_from(iv.skip(k + 1)) =~= strings_view(v@)
                        + targets_from(t));
                }
            },
            Ok(_) => {},
        }
        k = k + 1;
    }
    assert(iv.skip(k as int) =~= Seq::<ItemV>::empty());
    assert(strings_view(v@) + Seq::<Seq<char>>::empty() =~= strings_view(v@));
    v
}

fn push_readings(out: &mut String, c: &crate::cg3::Cohort)
    ensures
        final(out)@ == old(out)@ + readings_text(c@.readings),
{
    let ghost rv = c@.readings;
    let mut k: usize = 0;
    while k < c.readings.len()
        invariant
            k <= c.readings@.len(),
            rv == c@.readings,
            out@ == old(out)@ + readings_text(rv.take(k as int)),
        decreases c.readings@.len() - k,
    {
        let line = c.readings[k].to_cg_string();
        push_str(out, line.as_str());
        push_char(out, '\n');
        assert(rv.take(k + 1).drop_last() =~= rv.take(k as int));
        assert(rv[k as int] == c.readings@[k as int]@);
        k = k + 1;
    }
    assert(rv.take(c.readings@.len() as int) =~= rv);
}

/// Rewrites a CG-3 stream, replacing the readings of each unknown cohort with
/// the speller's output for its word form: `spelled` holds those outputs, in
/// the order of [`spell_targets`]. An unknown cohort whose output is blank
/// keeps its own readings. Every line ends with one newline, so a cohort
/// stays flush against the blank line that follows it.
pub fn render_stream(input: &str, spelled: &Vec<String>) -> (r: Result<String, ParseError>)
    requires
        !crate::cg3::stream_panics(input@),
        crate::cg3::lines_fit(input@),
    ensures
        result_view(r) == render_from(blocks(input@), strings_view(spelled@)),
{
    let output = Output::new(input);
    let items = output.iter();
    let ghost iv = crate::cg3::items_view(items@);
    let ghost sv = strings_view(spelled@);
    let mut out = String::new();
    let mut k: usize = 0;
    let mut j: usize = 0;
    assert(iv.skip(0) =~= iv);
    assert(sv.skip(0) =~= sv);
    while k < items.len()
        invariant
            k <= items@.len(),
            j <= spelled@.len(),
            iv == crate::cg3::items_view(items@),
            iv == blocks(input@),
            sv == strings_view(spelled@),
            prepend(out@, render_from(iv.skip(k as int), sv.skip(j as int))) == render_from(iv, sv),
        decreases items@.len() - k,
    {
        let ghost t = iv.skip(k as int);
        let ghost o0 = out@;
        assert(t[0] == crate::cg3::item_view(items@[k as int]));
        assert(t.drop_first() =~= iv.skip(k + 1));
        match &items[k] {
            Err(e) => {
                assert(t[0] == Err::<BlockV, ParseErrorV>(e@));
                assert(render_from(t, sv.skip(j as int)) == Err::<Seq<char>, ParseErrorV>(e@));
                return Err(copy_error(e));
            },
            Ok(b) => {
                let ghost (bt, rest) = render_block(b@, sv.skip(j as int));
                match b {
                    Block::Cohort(c) => {
                        push_char(&mut out, '"');
                        push_char(&mut out, '<');
                        push_str(&mut out, c.word_form.as_str());
                        push_char(&mut out, '>');
                        push_char(&mut out, '"');
                        push_char(&mut out, '\n');
                        if cohort_unknown(c) {
                            let empty = String::new();
                            let s = if j < spelled.len() {
                                &spelled[j]
                            } else {
                                &empty
                            };
                            assert(s@ == next_spelled(sv.skip(j as int)));
                            let ts = trimmed(s.as_str());
                            if !ts.as_str().is_empty() {
                                push_str(&mut out, s.as_str());
                            } else {
                                push_readings(&mut out, c);
                            }
                            if j < spelled.len() {
                                assert(sv.skip(j as int).drop_first() =~= sv.skip(j + 1));
                                j = j + 1;
                            }
                        } else {
                            push_readings(&mut out, c);
                        }
                    },
                    Block::Escaped(x) => {
                        push_char(&mut out, ':');
                        push_str(&mut out, x.as_str());
                        push_char(&mut out, '\n');
                    },
                    Block::StreamCmd(x) => {
                        push_str(&mut out, x.as_str());
                        push_char(&mut out, '\n');
                    },
                    Block::Text(x) => {
                        push_str(&mut out, x.as_str());
                        push_char(&mut out, '\n');
                    },
                }
                assert(out@ =~= o0 + bt);
                assert(rest == sv.skip(j as int));
                proof {
                    match render_from(iv.skip(k + 1), sv.skip(j as int)) {
                        Ok(u) => {
                            assert(o0 + (bt + u) =~= out@ + u);
                        },
                        Err(_) => {},
                    }
                }
            },
        }
        k = k + 1;
    }
    assert(iv.skip(k as int) =~= Seq::<ItemV>::empty());
    assert(out@ + Seq::<char>::empty() =~= out@);
    Ok(out)
}

/// A form with its first character lower-cased, or lower-cased whole when
/// all of it is upper case; `None` when it does not start upper case.
pub open spec fn decapitalised(form: Seq<char>) -> Option<Seq<char>> {
    if form.len() == 0 || !upper(form[0]) {
        None
    } else {
        let rest = form.drop_first();
        if rest.len() > 0 && (forall|i: int| 0 <= i < rest.len() ==> !lower(#[trigger] rest[i])) {
            Some(lowercased(form))
        } else {
            Some(char_lowercased(form[0]) + rest)
        }
    }
}

/// Lower-cases the first character, or the whole string when it is all
/// upper case; `None` when the form does not start upper case. The acceptor
/// holds lower-case forms only, so a recased suggestion is analysed again
/// de-capitalised.
pub fn decapitalise(form: &str) -> (r: Option<String>)
    ensures
        match decapitalised(form@) {
            Some(d) => r matches Some(s) && s@ == d,
            None => r is None,
        },
{
    let v = chars_of(form);
    if v.len() == 0 || !is_upper(v[0]) {
        return None;
    }
    let ghost rest = v@.drop_first();
    let mut all_not_lower = true;
    let mut i: usize = 1;
    while i < v.len()
        invariant
            1 <= i <= v@.len(),
            rest == v@.drop_first(),
            all_not_lower <==> (forall|k: int| 0 <= k < i - 1 ==> !lower(#[trigger] rest[k])),
        decreases v@.len() - i,
    {
        if is_lower(v[i]) {
            all_not_lower = false;
        }
        assert(rest[i - 1] == v@[i as int]);
        i = i + 1;
    }
    if v.len() > 1 && all_not_lower {
        Some(to_lowercase(form))
    } else {
        let mut s = char_to_lowercase(v[0]);
        push_chars(&mut s, &v, 1, v.len());
        assert(v@.subrange(1, v@.len() as int) =~= rest);
        Some(s)
    }
}

/// An analysis of a suggestion, with the text of its weight.
#[derive(Debug)]
pub struct SpellAnalysis {
    pub value: String,
    pub weight: String,
}

/// What ends the top reading line of a suggestion: its weight, the lexicon
/// weight, the `<spelled>` mark and the suggested form.
pub open spec fn spelled_tail(weight: Seq<char>, wa: Seq<char>, form: Seq<char>) -> Seq<char> {
    " <W:"@ + weight + "> <WA:"@ + wa + "> <spelled> \""@ + form + "\"S"@
}

/// The line of one segment of an analysis at `depth`; none for an empty
/// segment.
pub open spec fn segment_line(seg: Seq<char>, depth: nat, tail: Seq<char>, syms: Seq<Seq<char>>) -> Seq<
    char,
> {
    if seg.len() == 0 {
        Seq::empty()
    } else {
        let (l, ts) = lemma_split(seg, syms);
        tabs(depth) + seq!['"'] + l + seq!['"'] + concat_all(ts) + (if depth == 1 {
            tail
        } else {
            Seq::empty()
        }) + seq!['\n']
    }
}

/// The lines of an analysis's `#`-separated segments, the last one first
/// (at depth 1) and each earlier one a level deeper.
pub open spec fn segments_lines(segs: Seq<Seq<char>>, depth: nat, tail: Seq<char>, syms: Seq<Seq<char>>) -> Seq<
    char,
>
    decreases segs.len(),
{
    if segs.len() == 0 {
        Seq::empty()
    } else {
        segment_line(segs.last(), depth, tail, syms) + segments_lines(
            segs.drop_last(),
            depth + 1,
            tail,
            syms,
        )
    }
}

/// The readings of a suggestion: for each analysis (value, weight) the
/// lines of its segments; the lexicon weight shown is the given one, else the
/// analysis's own.
pub open spec fn suggestion_readings(
    analyses: Seq<(Seq<char>, Seq<char>)>,
    form: Seq<char>,
    weight: Seq<char>,
    lexicon_weight: Option<Seq<char>>,
    syms: Seq<Seq<char>>,
) -> Seq<char>
    decreases analyses.len(),
{
    if analyses.len() == 0 {
        Seq::empty()
    } else {
        let (value, w) = analyses.last();
        let wa = match lexicon_weight {
            Some(x) => x,
            None => w,
        };
        suggestion_readings(analyses.drop_last(), form, weight, lexicon_weight, syms)
            + segments_lines(split_on(value, '#'), 1, spelled_tail(weight, wa, form), syms)
    }
}

pub open spec fn analyses_view(v: Seq<SpellAnalysis>) -> Seq<(Seq<char>, Seq<char>)> {
    v.map_values(|a: SpellAnalysis| (a.value@, a.weight@))
}

impl TagSymbols {
    fn segment(&self, out: &mut String, seg: &String, depth: usize, tail: &String)
        ensures
            final(out)@ == old(out)@ + segment_line(seg@, depth as nat, tail@, self@),
    {
        if seg.as_str().is_empty() {
            assert(old(out)@ + segment_line(seg@, depth as nat, tail@, self@) =~= old(out)@);
            return;
        }
        let (lemma, tags) = self.split_lemma(seg.as_str());
        let mut d: usize = 0;
        while d < depth
            invariant
                d <= depth,
                out@ == old(out)@ + tabs(d as nat),
            decreases depth - d,
        {
            push_char(out, '\t');
            d = d + 1;
            assert(out@ =~= old(out)@ + tabs(d as nat));
        }
        push_char(out, '"');
        push_str(out, lemma.as_str());
        push_char(out, '"');
        let ghost head = out@;
        let ghost tv = strings_view(tags@);
        let mut k: usize = 0;
        while k < tags.len()
            invariant
                k <= tags@.len(),
                tv == strings_view(tags@),
                out@ == head + concat_all(tv.take(k as int)),
            decreases tags@.len() - k,
        {
            push_str(out, tags[k].as_str());
            assert(tv.take(k + 1).drop_last() =~= tv.take(k as int));
            k = k + 1;
        }
        assert(tv.take(tags@.len() as int) =~= tv);
        if depth == 1 {
            push_str(out, tail.as_str());
        }
        push_char(out, '\n');
        assert(out@ =~= old(out)@ + segment_line(seg@, depth as nat, tail@, self@));
    }

    /// The CG-3 readings of a suggestion `form` (of weight text `weight`)
    /// from its analyses: each analysis's `#`-separated segments, the last
    /// as the reading (with weights, `<spelled>` and the form) and each
    /// earlier one as a subreading a level deeper. Tags are written back as
    /// the symbols they are, with their own separators.
    pub fn print_readings(
        &self,
        analyses: &Vec<SpellAnalysis>,
        form: &str,
        weight: &str,
        lexicon_weight: &Option<String>,
    ) -> (s: String)
        ensures
            s@ == suggestion_readings(
                analyses_view(analyses@),
                form@,
                weight@,
                match lexicon_weight {
                    Some(x) => Some(x@),
                    None => None,
                },
                self@,
            ),
    {
        let ghost av = analyses_view(analyses@);
        let ghost lw: Option<Seq<char>> = match lexicon_weight {
            Some(x) => Some(x@),
            None => None,
        };
        let mut out = String::new();
        let mut k: usize = 0;
        while k < analyses.len()
            invariant
                k <= analyses@.len(),
                av == analyses_view(analyses@),
                lw == (match lexicon_weight {
                    Some(x) => Some(x@),
                    None => None::<Seq<char>>,
                }),
                out@ == suggestion_readings(av.take(k as int), form@, weight@, lw, self@),
            decreases analyses@.len() - k,
        {
            let a = &analyses[k];
            let mut tail = String::new();
            push_str(&mut tail, " <W:");
            push_str(&mut tail, weight);
            push_str(&mut tail, "> <WA:");
            match lexicon_weight {
                Some(x) => push_str(&mut tail, x.as_str()),
                None => push_str(&mut tail, a.weight.as_str()),
            }
            push_str(&mut tail, "> <spelled> \"");
            push_str(&mut tail, form);
            push_str(&mut tail, "\"S");
            let ghost wa = match lw {
                Some(x) => x,
                None => a.weight@,
            };
            assert(tail@ =~= spelled_tail(weight@, wa, form@));
            let segs = split_at_char(a.value.as_str(), '#');
            let ghost sv = strings_view(segs@);
            let ghost o0 = out@;
            let mut j = segs.len();
            assert(sv.take(segs@.len() as int) =~= sv);
            while j > 0
                invariant
                    j <= segs@.len(),
                    sv == strings_view(segs@),
                    out@ + segments_lines(sv.take(j as int), (segs@.len() - j + 1) as nat, tail@, self@)
                        == o0 + segments_lines(sv, 1, tail@, self@),
                decreases j,
            {
                let ghost o1 = out@;
                self.segment(&mut out, &segs[j - 1], segs.len() - j + 1, &tail);
                assert(sv.take(j as int).last() == segs@[j - 1]@);
                assert(sv.take(j as int).drop_last() =~= sv.take(j - 1));
                j = j - 1;
            }
            assert(sv.take(0) =~= Seq::<Seq<char>>::empty());
            assert(sv.take(sv.len() as int) =~= sv);
            assert(av.take(k + 1).drop_last() =~= av.take(k as int));
            assert(av.take(k + 1).last() == (a.value@, a.weight@));
            k = k + 1;
        }
        assert(av.take(analyses@.len() as int) =~= av);
        out
    }
}

} // verus!
