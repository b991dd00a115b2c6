//! The VISL CG-3 stream format: a stream is a sequence of lines; a cohort
//! header `"<word form>"` starts a cohort, tab-indented lines are its readings
//! (a `;` before the tabs marks a reading that a traced grammar removed),
//! `:`-lines are escaped blanks (superblanks), `<STREAMCMD:..>` lines are
//! stream commands, and every other line is plain text.
use vstd::prelude::*;
use crate::text::{
    char_len_utf8, char_width, chars_of, is_whitespace, is_ws, lemma_utf8_len_concat,
    lemma_utf8_len_prefix, lemma_utf8_len_push, lines, push_char, push_str, split_lines, split_state,
    string_of, strip_cr, string_of_all, strings_view, trim, trimmed, utf8_len,
};

verus! {

/// One parsed reading line.
#[derive(Debug)]
pub struct Reading {
    /// The reading line after its indentation.
    pub raw_line: String,
    pub base_form: String,
    pub tags: Vec<String>,
    /// The UTF-8 offset of the last tab of the indentation, plus one.
    pub depth: usize,
    /// Whether the line was a `;`-marked reading (removed under `--trace`).
    pub removed: bool,
}

pub struct ReadingV {
    pub raw_line: Seq<char>,
    pub base_form: Seq<char>,
    pub tags: Seq<Seq<char>>,
    pub depth: nat,
    pub removed: bool,
}


impl View for Reading {
    type V = ReadingV;

    open spec fn view(&self) -> ReadingV {
        ReadingV {
            raw_line: self.raw_line@,
            base_form: self.base_form@,
            tags: strings_view(self.tags@),
            depth: self.depth as nat,
            removed: self.removed,
        }
    }
}

/// A cohort: a word form and its readings.
#[derive(Debug)]
pub struct Cohort {
    pub word_form: String,
    pub readings: Vec<Reading>,
}

pub struct CohortV {
    pub word_form: Seq<char>,
    pub readings: Seq<ReadingV>,
}

pub open spec fn readings_view(v: Seq<Reading>) -> Seq<ReadingV> {
    v.map_values(|r: Reading| r@)
}

impl View for Cohort {
    type V = CohortV;

    open spec fn view(&self) -> CohortV {
        CohortV { word_form: self.word_form@, readings: readings_view(self.readings@) }
    }
}

/// One unit of a parsed stream.
#[derive(Debug)]
pub enum Block {
    Cohort(Cohort),
    /// A `:`-line, without its colon.
    Escaped(String),
    /// A plain text line.
    Text(String),
    /// A `<STREAMCMD:..>` line.
    StreamCmd(String),
}

pub enum BlockV {
    Cohort(CohortV),
    Escaped(Seq<char>),
    Text(Seq<char>),
    StreamCmd(Seq<char>),
}

impl View for Block {
    type V = BlockV;

    open spec fn view(&self) -> BlockV {
        match self {
            Block::Cohort(c) => BlockV::Cohort(c@),
            Block::Escaped(s) => BlockV::Escaped(s@),
            Block::Text(s) => BlockV::Text(s@),
            Block::StreamCmd(s) => BlockV::StreamCmd(s@),
        }
    }
}

/// How a line of the stream is classified.
#[derive(Debug)]
pub enum Line {
    WordForm(String),
    Reading(String),
    Text(String),
}

#[derive(Debug)]
pub enum ParseError {
    InvalidInput { line: usize, position: usize, expected: String },
    /// A cohort header without `"<` or `>"`.
    InvalidLine(String),
    /// A reading outside a cohort, without a base form, or with an unquoted one.
    InvalidReading(String),
}

pub enum ParseErrorV {
    InvalidInput { line: nat, position: nat, expected: Seq<char> },
    InvalidLine(Seq<char>),
    InvalidReading(Seq<char>),
}

impl View for ParseError {
    type V = ParseErrorV;

    open spec fn view(&self) -> ParseErrorV {
        match self {
            ParseError::InvalidInput { line, position, expected } => ParseErrorV::InvalidInput {
                line: *line as nat,
                position: *position as nat,
                expected: expected@,
            },
            ParseError::InvalidLine(s) => ParseErrorV::InvalidLine(s@),
            ParseError::InvalidReading(s) => ParseErrorV::InvalidReading(s@),
        }
    }
}

pub type ItemV = Result<BlockV, ParseErrorV>;

pub open spec fn item_view(r: Result<Block, ParseError>) -> ItemV {
    match r {
        Ok(b) => Ok(b@),
        Err(e) => Err(e@),
    }
}

pub open spec fn items_view(v: Seq<Result<Block, ParseError>>) -> Seq<ItemV> {
    v.map_values(|r: Result<Block, ParseError>| item_view(r))
}

// ---------------------------------------------------------------------------
// Tokenizing the tags of a reading line.

#[derive(Debug)]
pub enum TokMode {
    Idle,
    Token,
    InString,
    EndOfString,
}

/// The tokenizer's state after a prefix of the line: the tokens so far, where
/// the current token starts, and whether that start is a UTF-8 boundary (a
/// start just past a multi-byte whitespace character is not, and slicing
/// from it would panic: `bad` records that).
pub struct TokState {
    pub mode: TokMode,
    pub cur: int,
    pub cur_ok: bool,
    pub tokens: Seq<Seq<char>>,
    pub bad: bool,
}

pub open spec fn tok_cut(st: TokState, s: Seq<char>, end: int) -> TokState {
    TokState {
        tokens: st.tokens.push(s.subrange(st.cur, end)),
        bad: st.bad || !st.cur_ok,
        ..st
    }
}

pub open spec fn tok_step(st: TokState, s: Seq<char>, i: int) -> TokState {
    let c = s[i];
    if c == '"' {
        if st.mode is Idle {
            TokState { mode: TokMode::InString, cur: i, cur_ok: true, ..st }
        } else if st.mode is InString {
            TokState { mode: TokMode::EndOfString, ..st }
        } else {
            st
        }
    } else if st.mode is EndOfString && is_ws(c) {
        TokState {
            mode: TokMode::Idle,
            cur: i + 1,
            cur_ok: char_width(c) == 1,
            ..tok_cut(st, s, i)
        }
    } else if is_ws(c) {
        if st.mode is Idle {
            TokState { cur: i + 1, cur_ok: char_width(c) == 1, ..st }
        } else if st.mode is Token {
            TokState {
                mode: TokMode::Idle,
                cur: i + 1,
                cur_ok: char_width(c) == 1,
                ..tok_cut(st, s, i)
            }
        } else {
            st
        }
    } else if st.mode is Idle {
        TokState { mode: TokMode::Token, ..st }
    } else {
        st
    }
}

/// The tokenizer's state after the first `n` characters of `s`.
pub open spec fn tok_prefix(s: Seq<char>, n: nat) -> TokState
    decreases n,
{
    if n == 0 {
        TokState {
            mode: TokMode::Idle,
            cur: 0,
            cur_ok: true,
            tokens: Seq::empty(),
            bad: false,
        }
    } else {
        tok_step(tok_prefix(s, (n - 1) as nat), s, n - 1)
    }
}

/// The final state: an unfinished token runs to the end of the line.
pub open spec fn tok_final(s: Seq<char>) -> TokState {
    let st = tok_prefix(s, s.len());
    if st.mode is Idle {
        st
    } else {
        tok_cut(st, s, s.len() as int)
    }
}

/// The tokens of a reading line's tags: whitespace separates them, and a
/// token that opens with `"` runs to the whitespace after its closing `"`.
pub open spec fn tokenize(s: Seq<char>) -> Seq<Seq<char>> {
    tok_final(s).tokens
}

/// Whether tokenizing `s` would slice off a UTF-8 boundary.
pub open spec fn tokenize_panics(s: Seq<char>) -> bool {
    tok_final(s).bad
}

pub proof fn lemma_tok_cur(s: Seq<char>, n: nat)
    requires
        n <= s.len(),
    ensures
        0 <= tok_prefix(s, n).cur <= n + 1,
        !(tok_prefix(s, n).mode is Idle) ==> tok_prefix(s, n).cur <= n,
    decreases n,
{
    if n > 0 {
        lemma_tok_cur(s, (n - 1) as nat);
    }
}

fn tok_push(tokens: &mut Vec<String>, s: &Vec<char>, cur: usize, end: usize)
    requires
        cur <= end <= s@.len(),
    ensures
        strings_view(final(tokens)@) == strings_view(old(tokens)@).push(
            s@.subrange(cur as int, end as int),
        ),
{
    let t = string_of(s, cur, end);
    tokens.push(t);
    assert(strings_view(tokens@) =~= strings_view(old(tokens)@).push(
        s@.subrange(cur as int, end as int),
    ));
}

/// Splits the tags part of a reading line into tokens.
pub fn tokenize_tags(s: &Vec<char>) -> (tokens: Vec<String>)
    requires
        !tokenize_panics(s@),
    ensures
        strings_view(tokens@) == tokenize(s@),
{
    let mut tokens: Vec<String> = Vec::new();
    // 0 idle, 1 token, 2 in string, 3 end of string
    let mut mode: u8 = 0;
    let mut cur: usize = 0;
    let ghost mut cur_ok = true;
    let ghost mut bad = false;
    let mut i: usize = 0;
    while i < s.len()
        invariant
            i <= s@.len(),
            ({
                let st = tok_prefix(s@, i as nat);
                &&& st.cur == cur as int
                &&& st.cur_ok == cur_ok
                &&& st.bad == bad
                &&& st.tokens == strings_view(tokens@)
                &&& mode <= 3
                &&& (mode == 0 <==> st.mode is Idle)
                &&& (mode == 1 <==> st.mode is Token)
                &&& (mode == 2 <==> st.mode is InString)
                &&& (mode == 3 <==> st.mode is EndOfString)
            }),
            cur <= i + 1,
            mode != 0 ==> cur <= i,
            !tokenize_panics(s@),
        decreases s@.len() - i,
    {
        let c = s[i];
        let ws = is_whitespace(c);
        if c == '"' {
            if mode == 0 {
                mode = 2;
                cur = i;
                proof {
                    cur_ok = true;
                }
            } else if mode == 2 {
                mode = 3;
            }
        } else if mode == 3 && ws {
            tok_push(&mut tokens, s, cur, i);
            proof {
                bad = bad || !cur_ok;
                cur_ok = char_width(c) == 1;
            }
            mode = 0;
            cur = i + 1;
        } else if ws {
            if mode == 0 {
                cur = i + 1;
                proof {
                    cur_ok = char_width(c) == 1;
                }
            } else if mode == 1 {
                tok_push(&mut tokens, s, cur, i);
                proof {
                    bad = bad || !cur_ok;
                    cur_ok = char_width(c) == 1;
                }
                cur = i + 1;
                mode = 0;
            }
        } else if mode == 0 {
            mode = 1;
        }
        i = i + 1;
    }
    if mode != 0 {
        tok_push(&mut tokens, s, cur, s.len());
    }
    tokens
}


// ---------------------------------------------------------------------------
// Lines.

#[derive(Debug)]
pub enum LineKind {
    WordForm,
    /// A reading; `true` when `;`-marked.
    Reading(bool),
    StreamCmd,
    Escaped,
    Text,
}

pub open spec fn streamcmd_prefix() -> Seq<char> {
    seq!['<', 'S', 'T', 'R', 'E', 'A', 'M', 'C', 'M', 'D', ':']
}

pub open spec fn line_kind(l: Seq<char>) -> LineKind {
    if l.len() > 0 && l[0] == '"' {
        LineKind::WordForm
    } else if l.len() > 0 && l[0] == '\t' {
        LineKind::Reading(false)
    } else if l.len() > 1 && l[0] == ';' && l[1] == '\t' {
        LineKind::Reading(true)
    } else if l.len() >= 11 && l.take(11) == streamcmd_prefix() {
        LineKind::StreamCmd
    } else if l.len() > 0 && l[0] == ':' {
        LineKind::Escaped
    } else {
        LineKind::Text
    }
}

/// First index `i >= from` with `l[i] == a && l[i + 1] == b`.
pub open spec fn find_pair(l: Seq<char>, a: char, b: char, from: nat) -> Option<nat>
    decreases l.len() - from,
{
    if from + 1 >= l.len() {
        None
    } else if l[from as int] == a && l[from + 1int] == b {
        Some(from)
    } else {
        find_pair(l, a, b, from + 1)
    }
}

/// The word form of a cohort header line `.."<form>"..`: what lies between the
/// first `"<` and the first `>"`.
pub open spec fn header_form(l: Seq<char>) -> Option<Seq<char>> {
    match (find_pair(l, '"', '<', 0), find_pair(l, '>', '"', 0)) {
        (Some(b), Some(e)) => if b + 2 <= e {
            Some(l.subrange(b + 2int, e as int))
        } else {
            None
        },
        _ => None,
    }
}

/// A header whose first `>"` comes before the end of its first `"<`: slicing
/// the word form out of it would panic.
pub open spec fn header_panics(l: Seq<char>) -> bool {
    match (find_pair(l, '"', '<', 0), find_pair(l, '>', '"', 0)) {
        (Some(b), Some(e)) => b + 2 > e,
        _ => false,
    }
}

/// Index of the last `c` among the first `n` characters of `l`, or -1.
pub open spec fn last_index(l: Seq<char>, c: char, n: nat) -> int
    decreases n,
{
    if n == 0 {
        -1
    } else if l[n - 1] == c {
        n - 1
    } else {
        last_index(l, c, (n - 1) as nat)
    }
}

/// The reading line without its `;` mark.
pub open spec fn reading_body(l: Seq<char>, removed: bool) -> Seq<char> {
    if removed {
        l.drop_first()
    } else {
        l
    }
}

/// The part of a reading line after its last tab.
pub open spec fn reading_rest(body: Seq<char>) -> Seq<char> {
    body.skip(last_index(body, '\t', body.len()) + 1)
}

pub open spec fn is_quoted(t: Seq<char>) -> bool {
    t.len() > 0 && t[0] == '"' && t.last() == '"'
}

/// A reading line parsed inside a cohort.
pub open spec fn parse_reading(l: Seq<char>, removed: bool) -> Result<ReadingV, ParseErrorV> {
    let body = reading_body(l, removed);
    let t = last_index(body, '\t', body.len());
    let rest = body.skip(t + 1);
    let toks = tokenize(rest);
    if toks.len() == 0 || !is_quoted(toks[0]) {
        Err(ParseErrorV::InvalidReading(rest))
    } else {
        Ok(
            ReadingV {
                raw_line: rest,
                base_form: toks[0].subrange(1, toks[0].len() - 1),
                tags: toks.drop_first(),
                depth: utf8_len(body.take(t)) + 1,
                removed,
            },
        )
    }
}

/// Parsing the reading line would panic: on a bad token slice, or on a base
/// form that is a lone `"`.
pub open spec fn reading_panics(l: Seq<char>, removed: bool) -> bool {
    let rest = reading_rest(reading_body(l, removed));
    tokenize_panics(rest) || (tokenize(rest).len() > 0 && tokenize(rest)[0] =~= seq!['"'])
}

pub open spec fn block_of(l: Seq<char>) -> BlockV {
    match line_kind(l) {
        LineKind::StreamCmd => BlockV::StreamCmd(l),
        LineKind::Escaped => BlockV::Escaped(l.drop_first()),
        _ => BlockV::Text(l),
    }
}

// ---------------------------------------------------------------------------
// The stream.

/// The parser's state after a prefix of the lines: what it has yielded, the
/// cohort it is building, the blank lines seen since that cohort started
/// (yielded once the cohort is), whether it stopped at a bad cohort header
/// (which it would go on yielding forever), and whether it would have panicked.
pub struct ScanV {
    pub out: Seq<ItemV>,
    pub cohort: Option<CohortV>,
    pub pending: Seq<ItemV>,
    pub stopped: bool,
    pub panics: bool,
}

/// What is yielded when the cohort being built is finished.
pub open spec fn flush(st: ScanV) -> Seq<ItemV> {
    match st.cohort {
        Some(c) => st.out.push(Ok(BlockV::Cohort(c))) + st.pending,
        None => st.out,
    }
}

pub open spec fn scan_step(st: ScanV, l: Seq<char>) -> ScanV {
    if st.stopped {
        st
    } else {
        match line_kind(l) {
            LineKind::WordForm => match header_form(l) {
                Some(wf) => ScanV {
                    out: flush(st),
                    cohort: Some(CohortV { word_form: wf, readings: Seq::empty() }),
                    pending: Seq::empty(),
                    stopped: false,
                    panics: st.panics || header_panics(l),
                },
                None => ScanV {
                    out: flush(st).push(Err(ParseErrorV::InvalidLine(l))),
                    cohort: None,
                    pending: Seq::empty(),
                    stopped: true,
                    panics: st.panics || header_panics(l),
                },
            },
            LineKind::Reading(removed) => match st.cohort {
                None => ScanV { out: st.out.push(Err(ParseErrorV::InvalidReading(l))), ..st },
                Some(c) => match parse_reading(l, removed) {
                    Ok(r) => ScanV {
                        cohort: Some(CohortV { readings: c.readings.push(r), ..c }),
                        panics: st.panics || reading_panics(l, removed),
                        ..st
                    },
                    Err(e) => ScanV {
                        out: st.out.push(Err(e)),
                        panics: st.panics || reading_panics(l, removed),
                        ..st
                    },
                },
            },
            _ => match st.cohort {
                Some(c) => ScanV { pending: st.pending.push(Ok(block_of(l))), ..st },
                None => ScanV { out: st.out.push(Ok(block_of(l))), ..st },
            },
        }
    }
}

pub open spec fn scan(ls: Seq<Seq<char>>) -> ScanV
    decreases ls.len(),
{
    if ls.len() == 0 {
        ScanV {
            out: Seq::empty(),
            cohort: None,
            pending: Seq::empty(),
            stopped: false,
            panics: false,
        }
    } else {
        scan_step(scan(ls.drop_last()), ls.last())
    }
}

/// What iterating the stream `s` yields. When the parser stops at a cohort
/// header it cannot read, the last item is that error, which the stream would
/// go on yielding.
pub open spec fn blocks(s: Seq<char>) -> Seq<ItemV> {
    let st = scan(lines(s));
    if st.stopped {
        st.out
    } else {
        flush(st)
    }
}

/// Whether reading the stream `s` would panic.
pub open spec fn stream_panics(s: Seq<char>) -> bool {
    scan(lines(s)).panics
}

pub proof fn lemma_scan_pending(ls: Seq<Seq<char>>)
    ensures
        scan(ls).cohort is None ==> scan(ls).pending.len() == 0,
    decreases ls.len(),
{
    if ls.len() > 0 {
        lemma_scan_pending(ls.drop_last());
    }
}

pub proof fn lemma_scan_panics_mono(ls: Seq<Seq<char>>, n: int)
    requires
        0 <= n <= ls.len(),
    ensures
        scan(ls.take(n)).panics ==> scan(ls).panics,
    decreases ls.len() - n,
{
    if n < ls.len() {
        assert(ls.take(n + 1).drop_last() =~= ls.take(n));
        lemma_scan_panics_mono(ls, n + 1);
    } else {
        assert(ls.take(n) =~= ls);
    }
}

fn find_pair_exec(l: &Vec<char>, a: char, b: char) -> (r: Option<usize>)
    ensures
        r matches Some(i) ==> i + 1 < l@.len() && find_pair(l@, a, b, 0) == Some(i as nat),
        r is None ==> find_pair(l@, a, b, 0) is None,
{
    let mut i: usize = 0;
    while i < l.len() && i + 1 < l.len()
        invariant
            i <= l@.len(),
            find_pair(l@, a, b, 0) == find_pair(l@, a, b, i as nat),
        decreases l@.len() - i,
    {
        if l[i] == a && l[i + 1] == b {
            return Some(i);
        }
        i = i + 1;
    }
    None
}

fn last_index_exec(l: &Vec<char>, c: char) -> (r: Option<usize>)
    ensures
        match r {
            Some(i) => last_index(l@, c, l@.len()) == i as int && i < l@.len(),
            None => last_index(l@, c, l@.len()) == -1,
        },
{
    let mut n: usize = l.len();
    while n > 0
        invariant
            n <= l@.len(),
            last_index(l@, c, l@.len()) == last_index(l@, c, n as nat),
        decreases n,
    {
        if l[n - 1] == c {
            return Some(n - 1);
        }
        n = n - 1;
    }
    None
}

fn sub_vec(v: &Vec<char>, from: usize, to: usize) -> (r: Vec<char>)
    requires
        from <= to <= v@.len(),
    ensures
        r@ == v@.subrange(from as int, to as int),
{
    let mut r: Vec<char> = Vec::new();
    let mut i = from;
    while i < to
        invariant
            from <= i <= to <= v@.len(),
            r@ == v@.subrange(from as int, i as int),
        decreases to - i,
    {
        r.push(v[i]);
        i = i + 1;
        assert(r@ =~= v@.subrange(from as int, i as int));
    }
    r
}

/// UTF-8 length of `v[..n]`.
fn utf8_len_prefix(v: &Vec<char>, n: usize) -> (r: usize)
    requires
        n <= v@.len(),
        utf8_len(v@.take(n as int)) <= usize::MAX,
    ensures
        r == utf8_len(v@.take(n as int)),
{
    let mut r: usize = 0;
    let mut i: usize = 0;
    while i < n
        invariant
            i <= n <= v@.len(),
            r == utf8_len(v@.take(i as int)),
            utf8_len(v@.take(n as int)) <= usize::MAX,
        decreases n - i,
    {
        proof {
            assert(v@.take(i + 1) =~= v@.take(i as int).push(v@[i as int]));
            lemma_utf8_len_push(v@.take(i as int), v@[i as int]);
            lemma_utf8_len_prefix(v@.take(n as int), i + 1);
            assert(v@.take(n as int).take(i + 1) =~= v@.take(i + 1));
        }
        r = r + char_len_utf8(v[i]);
        i = i + 1;
    }
    r
}

fn is_streamcmd(l: &Vec<char>) -> (b: bool)
    ensures
        b == (l@.len() >= 11 && l@.take(11) == streamcmd_prefix()),
{
    if l.len() < 11 {
        return false;
    }
    let b = l[0] == '<' && l[1] == 'S' && l[2] == 'T' && l[3] == 'R' && l[4] == 'E' && l[5] == 'A'
        && l[6] == 'M' && l[7] == 'C' && l[8] == 'M' && l[9] == 'D' && l[10] == ':';
    assert(b == (l@.take(11) =~= streamcmd_prefix()));
    b
}

fn kind_of(l: &Vec<char>) -> (k: u8)
    ensures
        k == 0 <==> line_kind(l@) is WordForm,
        k == 1 <==> line_kind(l@) == LineKind::Reading(false),
        k == 2 <==> line_kind(l@) == LineKind::Reading(true),
        k == 3 <==> line_kind(l@) is StreamCmd,
        k == 4 <==> line_kind(l@) is Escaped,
        k == 5 <==> line_kind(l@) is Text,
{
    if l.len() > 0 && l[0] == '"' {
        0
    } else if l.len() > 0 && l[0] == '\t' {
        1
    } else if l.len() > 1 && l[0] == ';' && l[1] == '\t' {
        2
    } else if is_streamcmd(l) {
        3
    } else if l.len() > 0 && l[0] == ':' {
        4
    } else {
        5
    }
}


pub proof fn lemma_last_index(l: Seq<char>, c: char, n: nat, j: int)
    requires
        n <= l.len(),
        0 <= j < n,
        l[j] == c,
    ensures
        j <= last_index(l, c, n) < n,
        l[last_index(l, c, n)] == c,
    decreases n,
{
    if l[n - 1] != c {
        lemma_last_index(l, c, (n - 1) as nat, j);
    }
}

fn parse_header_exec(l: &Vec<char>) -> (r: Option<String>)
    requires
        !header_panics(l@),
    ensures
        match header_form(l@) {
            Some(wf) => r is Some && r->0@ == wf,
            None => r is None,
        },
{
    let b = find_pair_exec(l, '"', '<');
    let e = find_pair_exec(l, '>', '"');
    if let Some(b) = b {
        if let Some(e) = e {
            assert(find_pair(l@, '"', '<', 0) == Some(b as nat));
            assert(find_pair(l@, '>', '"', 0) == Some(e as nat));
            if b + 2 <= e {
                return Some(string_of(l, b + 2, e));
            } else {
                return None;
            }
        }
    }
    None
}

pub open spec fn reading_result_view(r: Result<Reading, ParseError>) -> Result<ReadingV, ParseErrorV> {
    match r {
        Ok(x) => Ok(x@),
        Err(e) => Err(e@),
    }
}

fn parse_reading_exec(l: &Vec<char>, removed: bool) -> (r: Result<Reading, ParseError>)
    requires
        line_kind(l@) == LineKind::Reading(removed),
        !reading_panics(l@, removed),
        utf8_len(l@) < usize::MAX,
    ensures
        reading_result_view(r) == parse_reading(l@, removed),
{
    let body = if removed {
        sub_vec(l, 1, l.len())
    } else {
        sub_vec(l, 0, l.len())
    };
    proof {
        assert(l@.subrange(0, l@.len() as int) =~= l@);
        assert(l@.subrange(1, l@.len() as int) =~= l@.drop_first());
        assert(body@ == reading_body(l@, removed));
        assert(body@[0] == '\t');
        lemma_last_index(body@, '\t', body@.len(), 0);
        lemma_utf8_len_concat(l@.take(1), l@.skip(1));
        assert(l@.take(1) + l@.skip(1) =~= l@);
        assert(l@.skip(1) =~= l@.drop_first());
        assert(utf8_len(body@) <= utf8_len(l@));
    }
    let t = match last_index_exec(&body, '\t') {
        Some(t) => t,
        None => 0,
    };
    proof {
        lemma_utf8_len_prefix(body@, t as int);
    }
    let depth = utf8_len_prefix(&body, t) + 1;
    let rest = sub_vec(&body, t + 1, body.len());
    assert(rest@ =~= body@.skip(t + 1));
    let mut tokens = tokenize_tags(&rest);
    let ghost toks0 = tokens@;
    if tokens.len() == 0 {
        let e = ParseError::InvalidReading(string_of_all(&rest));
        return Err(e);
    }
    let first = tokens.remove(0);
    proof {
        assert(strings_view(toks0)[0] == first@);
        assert(tokens@ =~= toks0.drop_first());
    }
    let fc = chars_of(first.as_str());
    if !(fc.len() > 0 && fc[0] == '"' && fc[fc.len() - 1] == '"') {
        let e = ParseError::InvalidReading(string_of_all(&rest));
        return Err(e);
    }
    assert(fc.len() >= 2) by {
        if fc.len() == 1 {
            assert(fc@ =~= seq!['"']);
        }
    }
    let base_form = string_of(&fc, 1, fc.len() - 1);
    let raw_line = string_of_all(&rest);
    let r = Reading { raw_line, base_form, tags: tokens, depth, removed };
    proof {
        assert(strings_view(r.tags@) =~= tokenize(rest@).drop_first());
    }
    Ok(r)
}

fn block_exec(l: &Vec<char>, k: u8) -> (b: Block)
    requires
        k == 3 <==> line_kind(l@) is StreamCmd,
        k == 4 <==> line_kind(l@) is Escaped,
    ensures
        b@ == block_of(l@),
{
    if k == 3 {
        Block::StreamCmd(string_of_all(l))
    } else if k == 4 {
        let r = Block::Escaped(string_of(l, 1, l.len()));
        assert(l@.subrange(1, l@.len() as int) =~= l@.drop_first());
        r
    } else {
        Block::Text(string_of_all(l))
    }
}

pub open spec fn cohort_opt_view(c: Option<Cohort>) -> Option<CohortV> {
    match c {
        Some(c) => Some(c@),
        None => None,
    }
}

/// Every line of `s` fits in memory with room to spare in a `usize`.
pub open spec fn lines_fit(s: Seq<char>) -> bool {
    forall|k: int| 0 <= k < lines(s).len() ==> utf8_len(#[trigger] lines(s)[k]) < usize::MAX
}

/// A CG-3 stream to be parsed.
#[derive(Debug)]
pub struct Output {
    buf: String,
}

impl View for Output {
    type V = Seq<char>;

    closed spec fn view(&self) -> Seq<char> {
        self.buf@
    }
}

impl Output {
    pub fn new(buf: &str) -> (o: Output)
        ensures
            o@ == buf@,
    {
        Output { buf: buf.to_owned() }
    }

    /// The stream can be read without a panic.
    pub open spec fn readable(&self) -> bool {
        !stream_panics(self@) && lines_fit(self@)
    }

    /// The lines of the stream, classified.
    pub fn lines(&self) -> (v: Vec<Line>)
        ensures
            v@.len() == lines(self@).len(),
            forall|k: int|
                0 <= k < v@.len() ==> match #[trigger] v@[k] {
                    Line::WordForm(l) => l@ == lines(self@)[k] && line_kind(l@) is WordForm,
                    Line::Reading(l) => l@ == lines(self@)[k] && line_kind(l@) == LineKind::Reading(
                        false,
                    ),
                    Line::Text(l) => l@ == lines(self@)[k] && !(line_kind(l@) is WordForm)
                        && line_kind(l@) != LineKind::Reading(false),
                },
    {
        let chars = chars_of(self.buf.as_str());
        let ls = split_lines(&chars);
        let mut v: Vec<Line> = Vec::new();
        let mut i: usize = 0;
        while i < ls.len()
            invariant
                i <= ls@.len(),
                ls@.len() == lines(self@).len(),
                forall|k: int| 0 <= k < ls@.len() ==> #[trigger] ls@[k]@ == lines(self@)[k],
                v@.len() == i,
                forall|k: int|
                    0 <= k < v@.len() ==> match #[trigger] v@[k] {
                        Line::WordForm(l) => l@ == lines(self@)[k] && line_kind(l@) is WordForm,
                        Line::Reading(l) => l@ == lines(self@)[k] && line_kind(l@)
                            == LineKind::Reading(false),
                        Line::Text(l) => l@ == lines(self@)[k] && !(line_kind(l@) is WordForm)
                            && line_kind(l@) != LineKind::Reading(false),
                    },
            decreases ls@.len() - i,
        {
            let k = kind_of(&ls[i]);
            let s = string_of_all(&ls[i]);
            if k == 0 {
                v.push(Line::WordForm(s));
            } else if k == 1 {
                v.push(Line::Reading(s));
            } else {
                v.push(Line::Text(s));
            }
            i = i + 1;
        }
        v
    }

    /// Everything the stream yields, in order: cohorts (each followed by the
    /// blank lines that came while it was being read), blank lines, and
    /// errors. On a cohort header it cannot read it stops, with that error as
    /// the last item.
    pub fn iter(&self) -> (items: Vec<Result<Block, ParseError>>)
        requires
            self.readable(),
        ensures
            items_view(items@) == blocks(self@),
    {
        let chars = chars_of(self.buf.as_str());
        let ls = split_lines(&chars);
        let ghost lv = lines(self@);
        let mut out: Vec<Result<Block, ParseError>> = Vec::new();
        let mut cohort: Option<Cohort> = None;
        let mut pending: Vec<Result<Block, ParseError>> = Vec::new();
        let mut stopped = false;
        let mut i: usize = 0;
        while i < ls.len()
            invariant
                i <= ls@.len(),
                ls@.len() == lv.len(),
                lv == lines(self@),
                forall|k: int| 0 <= k < ls@.len() ==> #[trigger] ls@[k]@ == lv[k],
                !scan(lv).panics,
                lines_fit(self@),
                ({
                    let st = scan(lv.take(i as int));
                    &&& items_view(out@) == st.out
                    &&& cohort_opt_view(cohort) == st.cohort
                    &&& items_view(pending@) == st.pending
                    &&& stopped == st.stopped
                }),
            decreases ls@.len() - i,
        {
            proof {
                assert(lv.take(i + 1).drop_last() =~= lv.take(i as int));
                assert(lv.take(i + 1).last() == lv[i as int]);
                lemma_scan_panics_mono(lv, i + 1);
                lemma_scan_pending(lv.take(i as int));
                assert(utf8_len(lv[i as int]) < usize::MAX);
            }
            let ghost st0 = scan(lv.take(i as int));
            let l = &ls[i];
            if !stopped {
                let k = kind_of(l);
                if k == 0 {
                    let ghost fl = flush(st0);
                    match cohort.take() {
                        Some(c) => {
                            let ghost cv = c@;
                            out.push(Ok(Block::Cohort(c)));
                            proof {
                                assert(items_view(out@) =~= st0.out.push(Ok(BlockV::Cohort(cv))));
                            }
                            let ghost o1 = out@;
                            let ghost p1 = pending@;
                            out.append(&mut pending);
                            proof {
                                assert(items_view(out@) =~= items_view(o1) + items_view(p1));
                                assert(items_view(pending@) =~= Seq::<ItemV>::empty());
                            }
                        },
                        None => {},
                    }
                    assert(items_view(out@) == fl);
                    match parse_header_exec(l) {
                        Some(wf) => {
                            cohort = Some(Cohort { word_form: wf, readings: Vec::new() });
                            proof {
                                assert(readings_view(Seq::<Reading>::empty()) =~= Seq::<ReadingV>::empty());
                                assert(items_view(pending@) =~= Seq::<ItemV>::empty());
                            }
                        },
                        None => {
                            let e = ParseError::InvalidLine(string_of_all(l));
                            let ghost o1 = out@;
                            out.push(Err(e));
                            stopped = true;
                            proof {
                                assert(items_view(out@) =~= items_view(o1).push(Err(e@)));
                                assert(items_view(pending@) =~= Seq::<ItemV>::empty());
                            }
                        },
                    }
                } else if k == 1 || k == 2 {
                    match cohort.take() {
                        None => {
                            let e = ParseError::InvalidReading(string_of_all(l));
                            let ghost o1 = out@;
                            out.push(Err(e));
                            proof {
                                assert(items_view(out@) =~= items_view(o1).push(Err(e@)));
                            }
                        },
                        Some(mut c) => {
                            match parse_reading_exec(l, k == 2) {
                                Ok(r) => {
                                    let ghost rs = c.readings@;
                                    let ghost rv = r@;
                                    c.readings.push(r);
                                    proof {
                                        assert(readings_view(c.readings@) =~= readings_view(rs).push(rv));
                                    }
                                },
                                Err(e) => {
                                    let ghost o1 = out@;
                                    out.push(Err(e));
                                    proof {
                                        assert(items_view(out@) =~= items_view(o1).push(Err(e@)));
                                    }
                                },
                            }
                            cohort = Some(c);
                        },
                    }
                } else {
                    let b = block_exec(l, k);
                    let ghost bv = b@;
                    if cohort.is_some() {
                        let ghost p1 = pending@;
                        pending.push(Ok(b));
                        proof {
                            assert(items_view(pending@) =~= items_view(p1).push(Ok(bv)));
                        }
                    } else {
                        let ghost o1 = out@;
                        out.push(Ok(b));
                        proof {
                            assert(items_view(out@) =~= items_view(o1).push(Ok(bv)));
                        }
                    }
                }
            }
            i = i + 1;
        }
        proof {
            assert(lv.take(ls@.len() as int) =~= lv);
        }
        if !stopped {
            match cohort.take() {
                Some(c) => {
                    let ghost st = scan(lv);
                    let ghost cv = c@;
                    out.push(Ok(Block::Cohort(c)));
                    proof {
                        assert(items_view(out@) =~= st.out.push(Ok(BlockV::Cohort(cv))));
                    }
                    let ghost o1 = out@;
                    let ghost p1 = pending@;
                    out.append(&mut pending);
                    proof {
                        assert(items_view(out@) =~= items_view(o1) + items_view(p1));
                    }
                },
                None => {},
            }
        }
        out
    }
}


// ---------------------------------------------------------------------------
// Checking that a stream can be read.

/// Whether tokenizing `s` stays on UTF-8 boundaries, with a first token, if
/// any, that is not a lone `"`.
fn tokens_ok(s: &Vec<char>) -> (b: bool)
    ensures
        b == !(tokenize_panics(s@) || (tokenize(s@).len() > 0 && tokenize(s@)[0] =~= seq!['"'])),
{
    // 0 idle, 1 token, 2 in string, 3 end of string
    let mut mode: u8 = 0;
    let mut cur: usize = 0;
    let mut cur_ok = true;
    let mut bad = false;
    let mut has_first = false;
    let mut fa: usize = 0;
    let mut fb: usize = 0;
    let mut i: usize = 0;
    while i < s.len()
        invariant
            i <= s@.len(),
            ({
                let st = tok_prefix(s@, i as nat);
                &&& st.cur == cur as int
                &&& st.cur_ok == cur_ok
                &&& st.bad == bad
                &&& mode <= 3
                &&& (mode == 0 <==> st.mode is Idle)
                &&& (mode == 1 <==> st.mode is Token)
                &&& (mode == 2 <==> st.mode is InString)
                &&& (mode == 3 <==> st.mode is EndOfString)
                &&& has_first == (st.tokens.len() > 0)
                &&& has_first ==> fa <= fb <= s@.len() && st.tokens[0] == s@.subrange(fa as int, fb as int)
            }),
            cur <= i + 1,
            mode != 0 ==> cur <= i,
        decreases s@.len() - i,
    {
        proof {
            lemma_tok_cur(s@, i as nat);
        }
        let c = s[i];
        let ws = is_whitespace(c);
        if c == '"' {
            if mode == 0 {
                mode = 2;
                cur = i;
                cur_ok = true;
            } else if mode == 2 {
                mode = 3;
            }
        } else if (mode == 3 && ws) || (ws && mode == 1) {
            if !has_first {
                has_first = true;
                fa = cur;
                fb = i;
            }
            bad = bad || !cur_ok;
            cur_ok = char_len_utf8(c) == 1;
            mode = 0;
            cur = i + 1;
        } else if ws {
            if mode == 0 {
                cur = i + 1;
                cur_ok = char_len_utf8(c) == 1;
            }
        } else if mode == 0 {
            mode = 1;
        }
        i = i + 1;
    }
    if mode != 0 {
        if !has_first {
            has_first = true;
            fa = cur;
            fb = s.len();
        }
        bad = bad || !cur_ok;
    }
    if bad {
        return false;
    }
    if has_first && fb > fa && fb - fa == 1 && s[fa] == '"' {
        assert(s@.subrange(fa as int, fb as int) =~= seq!['"']);
        return false;
    }
    proof {
        if has_first && tokenize(s@)[0] =~= seq!['"'] {
            assert(s@.subrange(fa as int, fb as int).len() == 1);
            assert(s@.subrange(fa as int, fb as int)[0] == s@[fa as int]);
        }
    }
    true
}

/// Whether the reading line `l` parses without a panic.
fn reading_ok(l: &Vec<char>, removed: bool) -> (b: bool)
    requires
        removed ==> l@.len() > 0,
    ensures
        b == !reading_panics(l@, removed),
{
    let body = if removed {
        sub_vec(l, 1, l.len())
    } else {
        sub_vec(l, 0, l.len())
    };
    proof {
        assert(l@.subrange(0, l@.len() as int) =~= l@);
        assert(l@.subrange(1, l@.len() as int) =~= l@.drop_first());
    }
    let from = match last_index_exec(&body, '\t') {
        Some(t) => t + 1,
        None => 0,
    };
    let rest = sub_vec(&body, from, body.len());
    assert(rest@ =~= reading_rest(reading_body(l@, removed)));
    tokens_ok(&rest)
}

/// Whether the cohort header `l` can be cut without a panic.
fn header_ok(l: &Vec<char>) -> (b: bool)
    ensures
        b == !header_panics(l@),
{
    match (find_pair_exec(l, '"', '<'), find_pair_exec(l, '>', '"')) {
        (Some(b), Some(e)) => e >= 2 && b <= e - 2,
        _ => true,
    }
}

/// Whether the UTF-8 length of `v` is below `usize::MAX`.
fn fits(v: &Vec<char>) -> (b: bool)
    ensures
        b == (utf8_len(v@) < usize::MAX),
{
    let mut r: usize = 0;
    let mut i: usize = 0;
    while i < v.len()
        invariant
            i <= v@.len(),
            r == utf8_len(v@.take(i as int)),
            r < usize::MAX,
        decreases v@.len() - i,
    {
        proof {
            assert(v@.take(i + 1) =~= v@.take(i as int).push(v@[i as int]));
            lemma_utf8_len_push(v@.take(i as int), v@[i as int]);
            lemma_utf8_len_prefix(v@, i + 1);
        }
        let w = char_len_utf8(v[i]);
        if r >= usize::MAX - w {
            return false;
        }
        r = r + w;
        i = i + 1;
    }
    assert(v@.take(i as int) =~= v@);
    true
}

/// Whether the CG-3 stream `s` can be read: no line is too long, and
/// reading it would not panic.
pub fn stream_readable(s: &str) -> (b: bool)
    ensures
        b == (!stream_panics(s@) && lines_fit(s@)),
{
    let chars = chars_of(s);
    let ls = split_lines(&chars);
    let ghost lv = lines(s@);
    let mut stopped = false;
    let mut has_cohort = false;
    let mut panics = false;
    let mut i: usize = 0;
    assert(lv.take(0) =~= Seq::<Seq<char>>::empty());
    while i < ls.len()
        invariant
            i <= ls@.len(),
            ls@.len() == lv.len(),
            lv == lines(s@),
            forall|k: int| 0 <= k < ls@.len() ==> #[trigger] ls@[k]@ == lv[k],
            forall|k: int| 0 <= k < i ==> utf8_len(#[trigger] lv[k]) < usize::MAX,
            ({
                let st = scan(lv.take(i as int));
                &&& stopped == st.stopped
                &&& has_cohort == st.cohort is Some
                &&& panics == st.panics
            }),
        decreases ls@.len() - i,
    {
        proof {
            assert(lv.take(i + 1).drop_last() =~= lv.take(i as int));
            assert(lv.take(i + 1).last() == lv[i as int]);
        }
        let l = &ls[i];
        if !fits(l) {
            return false;
        }
        if !stopped {
            let k = kind_of(l);
            if k == 0 {
                if !header_ok(l) {
                    panics = true;
                }
                let b = find_pair_exec(l, '"', '<');
                let e = find_pair_exec(l, '>', '"');
                let good = match (b, e) {
                    (Some(b), Some(e)) => e >= 2 && b <= e - 2,
                    _ => false,
                };
                if good {
                    has_cohort = true;
                } else {
                    has_cohort = false;
                    stopped = true;
                }
            } else if (k == 1 || k == 2) && has_cohort {
                if !reading_ok(l, k == 2) {
                    panics = true;
                }
            }
        }
        i = i + 1;
    }
    assert(lv.take(i as int) =~= lv);
    !panics
}

/// Whether reading the stream `s` stops at a cohort header it cannot read.
pub fn stream_stops(s: &str) -> (b: bool)
    ensures
        b == scan(lines(s@)).stopped,
{
    let chars = chars_of(s);
    let ls = split_lines(&chars);
    let ghost lv = lines(s@);
    let mut stopped = false;
    let mut i: usize = 0;
    assert(lv.take(0) =~= Seq::<Seq<char>>::empty());
    while i < ls.len()
        invariant
            i <= ls@.len(),
            ls@.len() == lv.len(),
            lv == lines(s@),
            forall|k: int| 0 <= k < ls@.len() ==> #[trigger] ls@[k]@ == lv[k],
            stopped == scan(lv.take(i as int)).stopped,
        decreases ls@.len() - i,
    {
        proof {
            assert(lv.take(i + 1).drop_last() =~= lv.take(i as int));
            assert(lv.take(i + 1).last() == lv[i as int]);
        }
        let l = &ls[i];
        if !stopped && kind_of(l) == 0 {
            let b = find_pair_exec(l, '"', '<');
            let e = find_pair_exec(l, '>', '"');
            let good = match (b, e) {
                (Some(b), Some(e)) => e >= 2 && b <= e - 2,
                _ => false,
            };
            if !good {
                stopped = true;
            }
        }
        i = i + 1;
    }
    assert(lv.take(i as int) =~= lv);
    stopped
}

// ---------------------------------------------------------------------------
// Writing a stream back out.

pub open spec fn tabs(n: nat) -> Seq<char> {
    Seq::new(n, |i: int| '\t')
}

/// Each tag preceded by a space.
pub open spec fn tags_text(tags: Seq<Seq<char>>) -> Seq<char>
    decreases tags.len(),
{
    if tags.len() == 0 {
        Seq::empty()
    } else {
        tags_text(tags.drop_last()) + seq![' '] + tags.last()
    }
}

/// A reading line as the stream writes it.
pub open spec fn reading_text(r: ReadingV) -> Seq<char> {
    (if r.removed {
        seq![';']
    } else {
        Seq::empty()
    }) + tabs(r.depth) + seq!['"'] + r.base_form + seq!['"'] + tags_text(r.tags)
}

/// Each reading line followed by a newline.
pub open spec fn readings_text(rs: Seq<ReadingV>) -> Seq<char>
    decreases rs.len(),
{
    if rs.len() == 0 {
        Seq::empty()
    } else {
        readings_text(rs.drop_last()) + reading_text(rs.last()) + seq!['\n']
    }
}

pub open spec fn cohort_stream_text(c: CohortV) -> Seq<char> {
    seq!['"', '<'] + c.word_form + seq!['>', '"', '\n'] + readings_text(c.readings)
}

pub open spec fn block_text(b: BlockV) -> Seq<char> {
    match b {
        BlockV::Cohort(c) => cohort_stream_text(c),
        BlockV::Escaped(t) => seq![':'] + t + seq!['\n'],
        BlockV::Text(t) => t + seq!['\n'],
        BlockV::StreamCmd(t) => t + seq!['\n'],
    }
}

/// The stream text of a sequence of items; `None` if one is an error.
pub open spec fn items_text(items: Seq<ItemV>) -> Option<Seq<char>>
    decreases items.len(),
{
    if items.len() == 0 {
        Some(Seq::empty())
    } else {
        match (items_text(items.drop_last()), items.last()) {
            (Some(t), Ok(b)) => Some(t + block_text(b)),
            _ => None,
        }
    }
}

pub fn push_str_view(out: &mut String, s: &String)
    ensures
        final(out)@ == old(out)@ + s@,
{
    push_str(out, s.as_str());
}

impl Reading {
    /// The reading as a stream line (without the newline).
    pub fn to_cg_string(&self) -> (s: String)
        ensures
            s@ == reading_text(self@),
    {
        let mut s = String::new();
        if self.removed {
            push_char(&mut s, ';');
        }
        let mut d: usize = 0;
        while d < self.depth
            invariant
                d <= self.depth,
                s@ == (if self.removed {
                    seq![';']
                } else {
                    Seq::empty()
                }) + tabs(d as nat),
            decreases self.depth - d,
        {
            push_char(&mut s, '\t');
            d = d + 1;
            assert(tabs(d as nat) =~= tabs((d - 1) as nat).push('\t'));
        }
        push_char(&mut s, '"');
        push_str_view(&mut s, &self.base_form);
        push_char(&mut s, '"');
        let ghost head = s@;
        let mut k: usize = 0;
        while k < self.tags.len()
            invariant
                k <= self.tags@.len(),
                s@ == head + tags_text(strings_view(self.tags@).take(k as int)),
            decreases self.tags@.len() - k,
        {
            push_char(&mut s, ' ');
            push_str_view(&mut s, &self.tags[k]);
            proof {
                let tv = strings_view(self.tags@);
                assert(tv.take(k + 1).drop_last() =~= tv.take(k as int));
            }
            k = k + 1;
        }
        proof {
            let tv = strings_view(self.tags@);
            assert(tv.take(self.tags@.len() as int) =~= tv);
        }
        s
    }
}

impl Cohort {
    /// The cohort as stream lines: its header, then each reading.
    pub fn to_cg_string(&self) -> (s: String)
        ensures
            s@ == cohort_stream_text(self@),
    {
        let mut s = String::new();
        push_char(&mut s, '"');
        push_char(&mut s, '<');
        push_str_view(&mut s, &self.word_form);
        push_char(&mut s, '>');
        push_char(&mut s, '"');
        push_char(&mut s, '\n');
        let ghost head = s@;
        let mut k: usize = 0;
        while k < self.readings.len()
            invariant
                k <= self.readings@.len(),
                s@ == head + readings_text(readings_view(self.readings@).take(k as int)),
            decreases self.readings@.len() - k,
        {
            let line = self.readings[k].to_cg_string();
            push_str_view(&mut s, &line);
            push_char(&mut s, '\n');
            proof {
                let rv = readings_view(self.readings@);
                assert(rv.take(k + 1).drop_last() =~= rv.take(k as int));
            }
            k = k + 1;
        }
        proof {
            let rv = readings_view(self.readings@);
            assert(rv.take(self.readings@.len() as int) =~= rv);
        }
        s
    }

    /// The readings a traced grammar did not remove.
    pub fn kept(&self) -> (v: Vec<&Reading>)
        ensures
            v@.len() <= self.readings@.len(),
            forall|k: int| 0 <= k < v@.len() ==> !v@[k].removed,
            readings_view(self.readings@).filter(|r: ReadingV| !r.removed) == v@.map_values(
                |r: &Reading| r@,
            ),
    {
        let mut v: Vec<&Reading> = Vec::new();
        let mut k: usize = 0;
        while k < self.readings.len()
            invariant
                k <= self.readings@.len(),
                v@.len() <= k,
                forall|j: int| 0 <= j < v@.len() ==> !v@[j].removed,
                readings_view(self.readings@).take(k as int).filter(|r: ReadingV| !r.removed)
                    == v@.map_values(|r: &Reading| r@),
            decreases self.readings@.len() - k,
        {
            proof {
                let rv = readings_view(self.readings@);
                assert(rv.take(k + 1).drop_last() =~= rv.take(k as int));
                reveal_with_fuel(Seq::filter, 1);
            }
            let ghost v0 = v@;
            if !self.readings[k].removed {
                v.push(&self.readings[k]);
                assert(v@.map_values(|r: &Reading| r@) =~= v0.map_values(|r: &Reading| r@).push(
                    self.readings@[k as int]@,
                ));
            }
            k = k + 1;
        }
        proof {
            let rv = readings_view(self.readings@);
            assert(rv.take(self.readings@.len() as int) =~= rv);
        }
        v
    }
}

impl Block {
    pub fn to_cg_string(&self) -> (s: String)
        ensures
            s@ == block_text(self@),
    {
        match self {
            Block::Cohort(c) => c.to_cg_string(),
            Block::Escaped(t) => {
                let mut s = String::new();
                push_char(&mut s, ':');
                push_str_view(&mut s, t);
                push_char(&mut s, '\n');
                s
            },
            Block::Text(t) => {
                let mut s = t.clone();
                push_char(&mut s, '\n');
                s
            },
            Block::StreamCmd(t) => {
                let mut s = t.clone();
                push_char(&mut s, '\n');
                s
            },
        }
    }
}

// ---------------------------------------------------------------------------
// Sentences.

/// `str::replace("\\n", "\n")`.
pub open spec fn unescape_nl(t: Seq<char>) -> Seq<char>
    decreases t.len(),
{
    if t.len() == 0 {
        Seq::empty()
    } else if t.len() >= 2 && t[0] == '\\' && t[1] == 'n' {
        seq!['\n'] + unescape_nl(t.skip(2))
    } else {
        seq![t[0]] + unescape_nl(t.skip(1))
    }
}

pub fn push_unescaped(out: &mut String, t: &String)
    ensures
        final(out)@ == old(out)@ + unescape_nl(t@),
{
    let v = chars_of(t.as_str());
    let mut i: usize = 0;
    assert(v@.skip(0) =~= v@);
    while i < v.len()
        invariant
            i <= v@.len(),
            v@ == t@,
            old(out)@ + unescape_nl(v@) == out@ + unescape_nl(v@.skip(i as int)),
        decreases v@.len() - i,
    {
        if i + 1 < v.len() && v[i] == '\\' && v[i + 1] == 'n' {
            push_char(out, '\n');
            proof {
                assert(v@.skip(i as int).skip(2) =~= v@.skip(i + 2));
            }
            i = i + 2;
        } else {
            push_char(out, v[i]);
            proof {
                assert(v@.skip(i as int).skip(1) =~= v@.skip(i + 1));
            }
            i = i + 1;
        }
    }
    assert(v@.skip(i as int) =~= Seq::<char>::empty());
}

pub open spec fn clb() -> Seq<char> {
    seq!['C', 'L', 'B']
}

/// A cohort that ends a sentence: its first reading is tagged `CLB` and its
/// base form is not a comma.
pub open spec fn ends_sentence(c: CohortV) -> bool {
    c.readings.len() > 0 && c.readings[0].base_form != seq![','] && c.readings[0].tags.contains(
        clb(),
    )
}

pub struct SentV {
    pub out: Seq<Result<Seq<char>, ParseErrorV>>,
    pub cur: Seq<char>,
}

pub open spec fn sent_step(st: SentV, item: ItemV) -> SentV {
    match item {
        Err(e) => SentV { out: st.out.push(Err(e)), cur: Seq::empty() },
        Ok(BlockV::Cohort(c)) => {
            let piece = if c.readings.len() > 0 {
                c.readings[0].base_form
            } else {
                c.word_form
            };
            if ends_sentence(c) {
                SentV { out: st.out.push(Ok(trim(st.cur + piece))), cur: Seq::empty() }
            } else {
                SentV { out: st.out, cur: st.cur + piece }
            }
        },
        Ok(BlockV::Escaped(t)) => SentV { out: st.out, cur: st.cur + unescape_nl(t) },
        Ok(_) => st,
    }
}

pub open spec fn sent_scan(items: Seq<ItemV>) -> SentV
    decreases items.len(),
{
    if items.len() == 0 {
        SentV { out: Seq::empty(), cur: Seq::empty() }
    } else {
        sent_step(sent_scan(items.drop_last()), items.last())
    }
}

/// The sentences of a stream: the base forms (or word forms) of its cohorts
/// and its unescaped blanks, cut after each sentence-ending cohort and
/// trimmed. An error is yielded in place, dropping the unfinished sentence.
pub open spec fn sentences(items: Seq<ItemV>) -> Seq<Result<Seq<char>, ParseErrorV>> {
    let st = sent_scan(items);
    if st.cur.len() > 0 {
        st.out.push(Ok(trim(st.cur)))
    } else {
        st.out
    }
}

pub open spec fn sentence_results_view(v: Seq<Result<String, ParseError>>) -> Seq<
    Result<Seq<char>, ParseErrorV>,
> {
    v.map_values(
        |r: Result<String, ParseError>|
            match r {
                Ok(s) => Ok(s@),
                Err(e) => Err(e@),
            },
    )
}

pub fn is_clb(s: &String) -> (b: bool)
    ensures
        b == (s@ == clb()),
{
    let v = chars_of(s.as_str());
    let b = v.len() == 3 && v[0] == 'C' && v[1] == 'L' && v[2] == 'B';
    assert(b == (v@ =~= clb()));
    b
}

pub fn has_tag_clb(tags: &Vec<String>) -> (b: bool)
    ensures
        b == strings_view(tags@).contains(clb()),
{
    let mut k: usize = 0;
    while k < tags.len()
        invariant
            k <= tags@.len(),
            forall|j: int| 0 <= j < k ==> strings_view(tags@)[j] != clb(),
        decreases tags@.len() - k,
    {
        if is_clb(&tags[k]) {
            assert(strings_view(tags@)[k as int] == clb());
            return true;
        }
        k = k + 1;
    }
    false
}

fn is_comma(s: &String) -> (b: bool)
    ensures
        b == (s@ == seq![',']),
{
    let v = chars_of(s.as_str());
    let b = v.len() == 1 && v[0] == ',';
    assert(b == (v@ =~= seq![',']));
    b
}

impl Output {
    /// The stream's sentences (see [`sentences`]).
    pub fn sentences(&self) -> (v: Vec<Result<String, ParseError>>)
        requires
            self.readable(),
        ensures
            sentence_results_view(v@) == sentences(blocks(self@)),
    {
        let items = self.iter();
        let ghost iv = items_view(items@);
        let mut out: Vec<Result<String, ParseError>> = Vec::new();
        let mut cur = String::new();
        let ghost all = items@;
        let mut items = crate::text::reversed(items);
        let mut k: usize = 0;
        let n = items.len();
        while k < n
            invariant
                k <= n == all.len(),
                items@ == all.subrange(k as int, n as int).reverse(),
                iv == items_view(all),
                ({
                    let st = sent_scan(iv.take(k as int));
                    &&& sentence_results_view(out@) == st.out
                    &&& cur@ == st.cur
                }),
            decreases n - k,
        {
            proof {
                assert(iv.take(k + 1).drop_last() =~= iv.take(k as int));
                assert(iv.take(k + 1).last() == item_view(all[k as int]));
            }
            let item = match items.pop() {
                Some(x) => x,
                None => Ok(Block::Text(String::new())),
            };
            proof {
                assert(item == all[k as int]);
                assert(items@ =~= all.subrange(k + 1, n as int).reverse());
            }
            let ghost o0 = out@;
            match item {
                Err(e) => {
                    out.push(Err(e));
                    cur = String::new();
                    proof {
                        assert(sentence_results_view(out@) =~= sentence_results_view(o0).push(
                            Err(e@),
                        ));
                    }
                },
                Ok(Block::Cohort(c)) => {
                    if c.readings.len() > 0 {
                        push_str_view(&mut cur, &c.readings[0].base_form);
                    } else {
                        push_str_view(&mut cur, &c.word_form);
                    }
                    let ends = c.readings.len() > 0 && !is_comma(&c.readings[0].base_form)
                        && has_tag_clb(&c.readings[0].tags);
                    if ends {
                        let t = trimmed(cur.as_str());
                        let ghost tv = t@;
                        out.push(Ok(t));
                        cur = String::new();
                        proof {
                            assert(sentence_results_view(out@) =~= sentence_results_view(o0).push(
                                Ok(tv),
                            ));
                        }
                    }
                },
                Ok(Block::Escaped(t)) => {
                    push_unescaped(&mut cur, &t);
                },
                Ok(_) => {},
            }
            k = k + 1;
        }
        proof {
            assert(iv.take(n as int) =~= iv);
        }
        if !cur.as_str().is_empty() {
            let t = trimmed(cur.as_str());
            let ghost o0 = out@;
            let ghost tv = t@;
            out.push(Ok(t));
            proof {
                assert(sentence_results_view(out@) =~= sentence_results_view(o0).push(Ok(tv)));
            }
        }
        out
    }
}


// ---------------------------------------------------------------------------
// Reading back what the stream writer writes.

/// `"b"`: a base form in its quotes.
pub open spec fn quoted(b: Seq<char>) -> Seq<char> {
    seq!['"'] + b + seq!['"']
}

/// A base form the writer can write so that it reads back: no `"` and no
/// tab in it.
pub open spec fn base_writable(b: Seq<char>) -> bool {
    forall|i: int| 0 <= i < b.len() ==> #[trigger] b[i] != '"' && b[i] != '\t'
}

/// A tag the writer can write so that it reads back: not empty, no
/// whitespace and no `"` in it.
pub open spec fn tag_writable(t: Seq<char>) -> bool {
    t.len() > 0 && forall|i: int| 0 <= i < t.len() ==> !is_ws(#[trigger] t[i]) && t[i] != '"'
}

pub open spec fn tags_writable(tags: Seq<Seq<char>>) -> bool {
    forall|k: int| 0 <= k < tags.len() ==> tag_writable(#[trigger] tags[k])
}

proof fn lemma_tok_bounds(s: Seq<char>, n: nat)
    requires
        n <= s.len(),
    ensures
        0 <= tok_prefix(s, n).cur <= n,
    decreases n,
{
    if n > 0 {
        lemma_tok_bounds(s, (n - 1) as nat);
    }
}

/// The tokenizer's state after `n` characters depends on those characters
/// alone.
proof fn lemma_tok_prefix_local(s: Seq<char>, t: Seq<char>, n: nat)
    requires
        n <= s.len(),
        n <= t.len(),
        s.take(n as int) == t.take(n as int),
    ensures
        tok_prefix(s, n) == tok_prefix(t, n),
    decreases n,
{
    if n > 0 {
        let m = (n - 1) as nat;
        assert(s.take(m as int) =~= s.take(n as int).take(m as int));
        assert(t.take(m as int) =~= t.take(n as int).take(m as int));
        lemma_tok_prefix_local(s, t, m);
        lemma_tok_bounds(s, m);
        let st = tok_prefix(s, m);
        assert(s[m as int] == s.take(n as int)[m as int]);
        assert(t[m as int] == t.take(n as int)[m as int]);
        assert(s.subrange(st.cur, m as int) =~= t.subrange(st.cur, m as int)) by {
            assert forall|i: int| 0 <= i < m - st.cur implies s.subrange(st.cur, m as int)[i] == t.subrange(
                st.cur,
                m as int,
            )[i] by {
                assert(s[st.cur + i] == s.take(n as int)[st.cur + i]);
                assert(t[st.cur + i] == t.take(n as int)[st.cur + i]);
            }
        }
    }
}

/// Inside the quotes the tokenizer only waits for the closing one.
proof fn lemma_tok_in_string(b: Seq<char>, k: nat)
    requires
        base_writable(b),
        1 <= k <= b.len() + 1,
    ensures
        tok_prefix(quoted(b), k) == (TokState {
            mode: TokMode::InString,
            cur: 0,
            cur_ok: true,
            tokens: Seq::empty(),
            bad: false,
        }),
    decreases k,
{
    let q = quoted(b);
    if k == 1 {
        assert(q[0] == '"');
    } else {
        lemma_tok_in_string(b, (k - 1) as nat);
        assert(q[k - 1] == b[k - 2]);
        assert(b[k - 2] != '"');
    }
}

/// After its base form in quotes, a reading's tags are tokens one by one.
proof fn lemma_tok_tags(b: Seq<char>, tags: Seq<Seq<char>>)
    requires
        base_writable(b),
        tags_writable(tags),
    ensures
        ({
            let q = quoted(b) + tags_text(tags);
            let st = tok_prefix(q, q.len());
            &&& st.cur_ok
            &&& !st.bad
            &&& if tags.len() == 0 {
                st.mode is EndOfString && st.cur == 0 && st.tokens == Seq::<Seq<char>>::empty()
            } else {
                st.mode is Token && st.cur == q.len() - tags.last().len() && st.tokens == seq![
                    quoted(b),
                ] + tags.drop_last()
            }
        }),
    decreases tags.len(),
{
    let q0 = quoted(b);
    if tags.len() == 0 {
        assert(q0 + tags_text(tags) =~= q0);
        lemma_tok_in_string(b, b.len() + 1);
        assert(q0[b.len() as int + 1] == '"');
    } else {
        let p = tags.drop_last();
        let t = tags.last();
        assert forall|k: int| 0 <= k < p.len() implies tag_writable(#[trigger] p[k]) by {
            assert(p[k] == tags[k]);
        }
        lemma_tok_tags(b, p);
        let qp = q0 + tags_text(p);
        let q = q0 + tags_text(tags);
        assert(q =~= qp + seq![' '] + t);
        assert(q.take(qp.len() as int) =~= qp.take(qp.len() as int));
        lemma_tok_prefix_local(q, qp, qp.len());
        let sp = tok_prefix(qp, qp.len());
        assert(q[qp.len() as int] == ' ');
        assert(char_width(' ') == 1);
        // the space ends the token before it
        let s1 = tok_prefix(q, qp.len() + 1);
        if p.len() == 0 {
            assert(q.subrange(0, qp.len() as int) =~= q0);
        } else {
            assert(q.subrange(sp.cur, qp.len() as int) =~= p.last());
            assert(seq![quoted(b)] + p.drop_last() + seq![p.last()] =~= seq![quoted(b)] + p);
        }
        assert(s1.mode is Idle && s1.cur == qp.len() + 1 && s1.cur_ok && !s1.bad);
        assert(s1.tokens == seq![quoted(b)] + tags.drop_last());
        assert(tag_writable(tags[tags.len() - 1]));
        assert(q.skip(qp.len() as int + 1) =~= t);
        lemma_tok_tag_chars(q, qp.len() + 1, t, s1);
    }
}

/// The characters of a tag after a space: the first opens a token, the
/// others extend it.
proof fn lemma_tok_tag_chars(q: Seq<char>, start: nat, t: Seq<char>, s1: TokState)
    requires
        tag_writable(t),
        q.len() == start + t.len(),
        q.skip(start as int) == t,
        tok_prefix(q, start) == s1,
        s1.mode is Idle,
        s1.cur == start,
        s1.cur_ok,
        !s1.bad,
    ensures
        tok_prefix(q, q.len()) == (TokState { mode: TokMode::Token, ..s1 }),
{
    lemma_tok_tag_chars_to(q, start, t, s1, t.len());
}

proof fn lemma_tok_tag_chars_to(q: Seq<char>, start: nat, t: Seq<char>, s1: TokState, k: nat)
    requires
        tag_writable(t),
        q.len() == start + t.len(),
        q.skip(start as int) == t,
        tok_prefix(q, start) == s1,
        s1.mode is Idle,
        1 <= k <= t.len(),
    ensures
        tok_prefix(q, start + k) == (TokState { mode: TokMode::Token, ..s1 }),
    decreases k,
{
    assert(q[start + k - 1] == q.skip(start as int)[k - 1]);
    assert(!is_ws(t[k - 1]) && t[k - 1] != '"');
    if k > 1 {
        lemma_tok_tag_chars_to(q, start, t, s1, (k - 1) as nat);
    }
}

/// The tokens of a reading line's text after its tabs: its base form in
/// quotes, then its tags.
pub proof fn lemma_tokenize_written(b: Seq<char>, tags: Seq<Seq<char>>)
    requires
        base_writable(b),
        tags_writable(tags),
    ensures
        tokenize(quoted(b) + tags_text(tags)) == seq![quoted(b)] + tags,
        !tokenize_panics(quoted(b) + tags_text(tags)),
{
    lemma_tok_tags(b, tags);
    let q = quoted(b) + tags_text(tags);
    if tags.len() == 0 {
        assert(q =~= quoted(b));
        assert(q.subrange(0, q.len() as int) =~= quoted(b));
        assert(seq![quoted(b)] + tags =~= seq![quoted(b)]);
    } else {
        let st = tok_prefix(q, q.len());
        lemma_tags_text_len(tags);
        assert(q.subrange(st.cur, q.len() as int) =~= tags.last()) by {
            assert(q =~= quoted(b) + tags_text(tags.drop_last()) + seq![' '] + tags.last());
        }
        assert(seq![quoted(b)] + tags.drop_last() + seq![tags.last()] =~= seq![quoted(b)] + tags);
    }
}

proof fn lemma_tags_text_len(tags: Seq<Seq<char>>)
    requires
        tags.len() > 0,
    ensures
        tags_text(tags).len() >= tags.last().len() + 1,
{
}


proof fn lemma_tabs(n: nat)
    ensures
        utf8_len(tabs(n)) == n,
        tabs(n).len() == n,
    decreases n,
{
    if n > 0 {
        lemma_tabs((n - 1) as nat);
        assert(tabs(n).drop_last() =~= tabs((n - 1) as nat));
        assert(tabs(n).last() == '\t');
    }
}

proof fn lemma_last_tab(body: Seq<char>, d: nat, q: Seq<char>, n: nat)
    requires
        d >= 1,
        body == tabs(d) + q,
        forall|i: int| 0 <= i < q.len() ==> #[trigger] q[i] != '\t',
        d <= n <= body.len(),
    ensures
        last_index(body, '\t', n) == d - 1,
    decreases n,
{
    if n > d {
        assert(body[n - 1] == q[n - 1 - d]);
        lemma_last_tab(body, d, q, (n - 1) as nat);
    } else {
        assert(body[d - 1] == tabs(d)[d - 1]);
    }
}

/// A reading line as the stream writer writes it reads back as the same
/// reading, where its base form has no `"` or tab, its tags are not empty
/// and hold no whitespace or `"`, and it is indented.
#[verifier::spinoff_prover]
#[verifier::rlimit(40)]
pub proof fn lemma_reading_round_trip(r: ReadingV)
    requires
        r.depth >= 1,
        base_writable(r.base_form),
        tags_writable(r.tags),
    ensures
        line_kind(reading_text(r)) == LineKind::Reading(r.removed),
        parse_reading(reading_text(r), r.removed) == Ok::<ReadingV, ParseErrorV>(
            ReadingV { raw_line: quoted(r.base_form) + tags_text(r.tags), ..r },
        ),
        !reading_panics(reading_text(r), r.removed),
{
    let b = r.base_form;
    let d = r.depth;
    let q = quoted(b) + tags_text(r.tags);
    let pre: Seq<char> = if r.removed {
        seq![';']
    } else {
        Seq::empty()
    };
    let l = reading_text(r);
    assert(l =~= pre + (tabs(d) + q));
    let body = reading_body(l, r.removed);
    assert(body =~= tabs(d) + q);
    lemma_tabs(d);
    assert forall|i: int| 0 <= i < q.len() implies #[trigger] q[i] != '\t' by {
        if 1 <= i <= b.len() {
            assert(q[i] == b[i - 1]);
        } else if i > b.len() + 1 {
            lemma_tags_no_tab(r.tags, i - b.len() - 2);
            assert(q[i] == tags_text(r.tags)[i - b.len() - 2]);
        }
    }
    lemma_last_tab(body, d, q, body.len());
    assert(body.skip(d as int) =~= q);
    assert(body.take(d - 1) =~= tabs((d - 1) as nat));
    lemma_tabs((d - 1) as nat);
    lemma_tokenize_written(b, r.tags);
    let toks = tokenize(q);
    assert(toks[0] == quoted(b));
    assert(quoted(b).subrange(1, quoted(b).len() - 1) =~= b);
    assert(toks.drop_first() =~= r.tags);
    if r.removed {
        assert(l[0] == ';' && l[1] == '\t');
    } else {
        assert(l[0] == '\t');
    }
    assert(quoted(b).len() >= 2);
    assert(!(toks[0] =~= seq!['"']));
}

/// No tag the writer can write holds a tab, nor do the spaces between.
proof fn lemma_tags_no_tab(tags: Seq<Seq<char>>, i: int)
    requires
        tags_writable(tags),
        0 <= i < tags_text(tags).len(),
    ensures
        tags_text(tags)[i] != '\t',
    decreases tags.len(),
{
    if tags.len() > 0 {
        let p = tags.drop_last();
        assert forall|k: int| 0 <= k < p.len() implies tag_writable(#[trigger] p[k]) by {
            assert(p[k] == tags[k]);
        }
        let pt = tags_text(p);
        let t = tags.last();
        assert(tags_text(tags) =~= pt + seq![' '] + t);
        if i < pt.len() {
            lemma_tags_no_tab(p, i);
        } else if i > pt.len() {
            assert(tag_writable(tags[tags.len() - 1]));
            assert(tags_text(tags)[i] == t[i - pt.len() - 1]);
            assert(!is_ws(t[i - pt.len() - 1]));
        }
    }
}


/// Each line followed by a newline.
pub open spec fn join_lines(ls: Seq<Seq<char>>) -> Seq<char>
    decreases ls.len(),
{
    if ls.len() == 0 {
        Seq::empty()
    } else {
        join_lines(ls.drop_last()) + ls.last() + seq!['\n']
    }
}

/// A line that reads back as itself: no newline in it, and no carriage
/// return at its end.
pub open spec fn line_ok(l: Seq<char>) -> bool {
    (forall|i: int| 0 <= i < l.len() ==> #[trigger] l[i] != '\n') && !(l.len() > 0 && l.last() == '\r')
}

/// A cohort's header line `"<w>"`.
pub open spec fn header_line(w: Seq<char>) -> Seq<char> {
    seq!['"', '<'] + w + seq!['>', '"']
}

pub open spec fn reading_lines(rs: Seq<ReadingV>) -> Seq<Seq<char>>
    decreases rs.len(),
{
    if rs.len() == 0 {
        Seq::empty()
    } else {
        reading_lines(rs.drop_last()).push(reading_text(rs.last()))
    }
}

/// The lines the writer writes for a block.
pub open spec fn block_lines(b: BlockV) -> Seq<Seq<char>> {
    match b {
        BlockV::Cohort(c) => seq![header_line(c.word_form)] + reading_lines(c.readings),
        BlockV::Escaped(t) => seq![seq![':'] + t],
        BlockV::Text(t) => seq![t],
        BlockV::StreamCmd(t) => seq![t],
    }
}

pub open spec fn blocks_lines(bs: Seq<BlockV>) -> Seq<Seq<char>>
    decreases bs.len(),
{
    if bs.len() == 0 {
        Seq::empty()
    } else {
        blocks_lines(bs.drop_last()) + block_lines(bs.last())
    }
}

pub open spec fn oks(bs: Seq<BlockV>) -> Seq<ItemV> {
    bs.map_values(|b: BlockV| Ok::<BlockV, ParseErrorV>(b))
}

/// A reading the writer writes so that it reads back: indented, its base
/// form and tags writable, its line one line, and its raw text what is
/// written after its tabs.
pub open spec fn reading_writable(r: ReadingV) -> bool {
    &&& r.depth >= 1
    &&& base_writable(r.base_form)
    &&& tags_writable(r.tags)
    &&& line_ok(reading_text(r))
    &&& r.raw_line == quoted(r.base_form) + tags_text(r.tags)
}

/// A block the writer writes so that it reads back as itself: a cohort
/// whose word form has no `"` and whose readings are writable, or a line
/// that reads as the same kind of line.
pub open spec fn block_writable(b: BlockV) -> bool {
    match b {
        BlockV::Cohort(c) => {
            &&& forall|i: int| 0 <= i < c.word_form.len() ==> #[trigger] c.word_form[i] != '"'
            &&& line_ok(header_line(c.word_form))
            &&& forall|k: int| 0 <= k < c.readings.len() ==> reading_writable(#[trigger] c.readings[k])
        },
        BlockV::Escaped(t) => line_ok(seq![':'] + t),
        BlockV::Text(t) => line_ok(t) && line_kind(t) is Text,
        BlockV::StreamCmd(t) => line_ok(t) && line_kind(t) is StreamCmd,
    }
}

proof fn lemma_join_concat(a: Seq<Seq<char>>, b: Seq<Seq<char>>)
    ensures
        join_lines(a + b) == join_lines(a) + join_lines(b),
    decreases b.len(),
{
    if b.len() == 0 {
        assert(a + b =~= a);
        assert(join_lines(a) + join_lines(b) =~= join_lines(a));
    } else {
        lemma_join_concat(a, b.drop_last());
        assert((a + b).drop_last() =~= a + b.drop_last());
        assert(join_lines(a) + join_lines(b) =~= join_lines(a) + join_lines(b.drop_last()) + b.last()
            + seq!['\n']);
    }
}

proof fn lemma_readings_text(rs: Seq<ReadingV>)
    ensures
        readings_text(rs) == join_lines(reading_lines(rs)),
    decreases rs.len(),
{
    if rs.len() > 0 {
        lemma_readings_text(rs.drop_last());
        assert(reading_lines(rs).drop_last() =~= reading_lines(rs.drop_last()));
    }
}

proof fn lemma_block_text(b: BlockV)
    ensures
        block_text(b) == join_lines(block_lines(b)),
{
    match b {
        BlockV::Cohort(c) => {
            let h = header_line(c.word_form);
            lemma_readings_text(c.readings);
            lemma_join_concat(seq![h], reading_lines(c.readings));
            assert(seq![h].drop_last() =~= Seq::<Seq<char>>::empty());
            assert(seq![h].last() == h);
            assert(join_lines(Seq::<Seq<char>>::empty()) == Seq::<char>::empty());
            assert(join_lines(seq![h]) =~= h + seq!['\n']);
            assert(cohort_stream_text(c) =~= h + seq!['\n'] + readings_text(c.readings));
            assert(block_lines(b) == seq![h] + reading_lines(c.readings));
            assert(block_text(b) == cohort_stream_text(c));
            assert(join_lines(block_lines(b)) =~= h + seq!['\n'] + readings_text(c.readings));
            assert(block_text(b) =~= join_lines(block_lines(b)));
        },
        _ => {
            let x = block_lines(b)[0];
            assert(block_lines(b) =~= seq![x]);
            assert(seq![x].drop_last() =~= Seq::<Seq<char>>::empty());
            assert(seq![x].last() == x);
            assert(join_lines(Seq::<Seq<char>>::empty()) == Seq::<char>::empty());
            assert(join_lines(block_lines(b)) =~= x + seq!['\n']);
            assert(block_text(b) =~= x + seq!['\n']);
        },
    }
}

proof fn lemma_items_text(bs: Seq<BlockV>)
    ensures
        items_text(oks(bs)) == Some(join_lines(blocks_lines(bs))),
    decreases bs.len(),
{
    if bs.len() > 0 {
        lemma_items_text(bs.drop_last());
        assert(oks(bs).drop_last() =~= oks(bs.drop_last()));
        lemma_block_text(bs.last());
        lemma_join_concat(blocks_lines(bs.drop_last()), block_lines(bs.last()));
    }
}

proof fn lemma_split_append(s: Seq<char>, l: Seq<char>)
    requires
        forall|i: int| 0 <= i < l.len() ==> #[trigger] l[i] != '\n',
    ensures
        split_state(s + l).done == split_state(s).done,
        split_state(s + l).cur == split_state(s).cur + l,
    decreases l.len(),
{
    if l.len() == 0 {
        assert(s + l =~= s);
        assert(split_state(s).cur + l =~= split_state(s).cur);
    } else {
        let p = l.drop_last();
        lemma_split_append(s, p);
        assert((s + l).drop_last() =~= s + p);
        assert(l.last() == l[l.len() - 1]);
        assert((s + l).last() == l.last());
        assert((s + l).len() > 0);
        assert(split_state(s).cur + p + seq![l.last()] =~= split_state(s).cur + l);
    }
}

proof fn lemma_split_join(ls: Seq<Seq<char>>)
    requires
        forall|k: int| 0 <= k < ls.len() ==> line_ok(#[trigger] ls[k]),
    ensures
        split_state(join_lines(ls)).done == ls,
        split_state(join_lines(ls)).cur.len() == 0,
    decreases ls.len(),
{
    if ls.len() > 0 {
        let p = ls.drop_last();
        assert forall|k: int| 0 <= k < p.len() implies line_ok(#[trigger] p[k]) by {
            assert(p[k] == ls[k]);
        }
        lemma_split_join(p);
        let l = ls.last();
        assert(line_ok(ls[ls.len() - 1]));
        lemma_split_append(join_lines(p), l);
        let s = join_lines(p) + l;
        assert(join_lines(ls) == s + seq!['\n']);
        assert((s + seq!['\n']).drop_last() =~= s);
        assert((s + seq!['\n']).last() == '\n');
        assert(split_state(join_lines(p)).cur + l =~= l);
        assert(split_state(s).cur == l);
        assert(strip_cr(l) == l);
        assert(p.push(l) =~= ls);
    }
}

/// What scanning on from state `st` through the lines `ls` gives.
pub open spec fn scan_from(st: ScanV, ls: Seq<Seq<char>>) -> ScanV
    decreases ls.len(),
{
    if ls.len() == 0 {
        st
    } else {
        scan_step(scan_from(st, ls.drop_last()), ls.last())
    }
}

proof fn lemma_scan_concat(a: Seq<Seq<char>>, b: Seq<Seq<char>>)
    ensures
        scan(a + b) == scan_from(scan(a), b),
    decreases b.len(),
{
    if b.len() == 0 {
        assert(a + b =~= a);
    } else {
        lemma_scan_concat(a, b.drop_last());
        assert((a + b).drop_last() =~= a + b.drop_last());
    }
}

proof fn lemma_scan_from_concat(st: ScanV, a: Seq<Seq<char>>, b: Seq<Seq<char>>)
    ensures
        scan_from(st, a + b) == scan_from(scan_from(st, a), b),
    decreases b.len(),
{
    if b.len() == 0 {
        assert(a + b =~= a);
    } else {
        lemma_scan_from_concat(st, a, b.drop_last());
        assert((a + b).drop_last() =~= a + b.drop_last());
    }
}

/// The readings of a cohort, written, are read one by one into it.
proof fn lemma_scan_readings(st: ScanV, w: Seq<char>, rs: Seq<ReadingV>)
    requires
        !st.stopped,
        !st.panics,
        st.cohort == Some(CohortV { word_form: w, readings: Seq::empty() }),
        st.pending.len() == 0,
        forall|k: int| 0 <= k < rs.len() ==> reading_writable(#[trigger] rs[k]),
    ensures
        scan_from(st, reading_lines(rs)) == (ScanV {
            cohort: Some(CohortV { word_form: w, readings: rs }),
            ..st
        }),
    decreases rs.len(),
{
    if rs.len() == 0 {
        assert(reading_lines(rs) =~= Seq::<Seq<char>>::empty());
        assert(rs =~= Seq::<ReadingV>::empty());
    } else {
        let p = rs.drop_last();
        assert forall|k: int| 0 <= k < p.len() implies reading_writable(#[trigger] p[k]) by {
            assert(p[k] == rs[k]);
        }
        lemma_scan_readings(st, w, p);
        let r = rs.last();
        assert(reading_writable(rs[rs.len() - 1]));
        lemma_reading_round_trip(r);
        assert(reading_lines(rs).drop_last() =~= reading_lines(p));
        assert(p.push(r) =~= rs);
    }
}

/// Writing blocks and reading the text back gives the same blocks, and the
/// reading does not panic.
proof fn lemma_scan_written(bs: Seq<BlockV>)
    requires
        forall|k: int| 0 <= k < bs.len() ==> block_writable(#[trigger] bs[k]),
    ensures
        !scan(blocks_lines(bs)).stopped,
        !scan(blocks_lines(bs)).panics,
        flush(scan(blocks_lines(bs))) == oks(bs),
        scan(blocks_lines(bs)).cohort is None ==> scan(blocks_lines(bs)).pending.len() == 0,
    decreases bs.len(),
{
    if bs.len() == 0 {
        assert(oks(bs) =~= Seq::<ItemV>::empty());
    } else {
        let p = bs.drop_last();
        assert forall|k: int| 0 <= k < p.len() implies block_writable(#[trigger] p[k]) by {
            assert(p[k] == bs[k]);
        }
        lemma_scan_written(p);
        let b = bs.last();
        assert(block_writable(bs[bs.len() - 1]));
        let st = scan(blocks_lines(p));
        lemma_scan_concat(blocks_lines(p), block_lines(b));
        assert(oks(bs) =~= oks(p).push(Ok(b)));
        match b {
            BlockV::Cohort(c) => {
                let h = header_line(c.word_form);
                let w = c.word_form;
                assert(find_pair(h, '"', '<', 0) == Some(0nat));
                lemma_header_gt(w, 0);
                let st1 = scan_step(st, h);
                assert(h[0] == '"');
                assert(h.subrange(2, 2 + w.len() as int) =~= w);
                assert(st1 == ScanV {
                    out: flush(st),
                    cohort: Some(CohortV { word_form: w, readings: Seq::empty() }),
                    pending: Seq::empty(),
                    stopped: false,
                    panics: false,
                });
                assert(seq![h].drop_last() =~= Seq::<Seq<char>>::empty());
                assert(seq![h].last() == h);
                assert(scan_from(st, Seq::<Seq<char>>::empty()) == st);
                assert(scan_from(st, seq![h]) == st1);
                lemma_scan_from_concat(st, seq![h], reading_lines(c.readings));
                lemma_scan_readings(st1, w, c.readings);
                assert(CohortV { word_form: w, readings: c.readings } == c);
                assert(flush(st).push(Ok(BlockV::Cohort(c))) + Seq::<ItemV>::empty() =~= oks(p).push(
                    Ok(b),
                ));
            },
            _ => {
                let l = block_lines(b)[0];
                assert(block_lines(b) =~= seq![l]);
                assert(seq![l].drop_last() =~= Seq::<Seq<char>>::empty());
                assert(seq![l].last() == l);
                assert(scan_from(st, Seq::<Seq<char>>::empty()) == st);
                if let BlockV::Escaped(t) = b {
                    assert(l[0] == ':');
                    assert(l.drop_first() =~= t);
                }
                assert(block_of(l) == b);
                match st.cohort {
                    Some(c) => {
                        assert(st.out.push(Ok(BlockV::Cohort(c))) + st.pending.push(Ok(b)) =~= (st.out.push(
                            Ok(BlockV::Cohort(c)),
                        ) + st.pending).push(Ok(b)));
                    },
                    None => {},
                }
            },
        }
    }
}

/// The first `>"` of a header line `"<w>"`, `w` holding no `"`, is the one
/// that closes it.
proof fn lemma_header_gt(w: Seq<char>, from: nat)
    requires
        forall|i: int| 0 <= i < w.len() ==> #[trigger] w[i] != '"',
        from <= w.len() + 2,
    ensures
        find_pair(header_line(w), '>', '"', from) == Some((w.len() + 2) as nat),
    decreases w.len() + 2 - from,
{
    let h = header_line(w);
    if from < w.len() + 2 {
        if from >= 2 {
            assert(h[from as int + 1] == if from + 1 < w.len() + 2 {
                w[from - 1]
            } else {
                '>'
            });
        }
        lemma_header_gt(w, from + 1);
    } else {
        assert(h[from as int] == '>' && h[from as int + 1] == '"');
    }
}

/// Writing blocks and reading the text back gives the same blocks: what a
/// read gives back of a write. The reading does not panic, and writing what
/// was read gives the stream again.
pub proof fn lemma_write_read(bs: Seq<BlockV>)
    requires
        forall|k: int| 0 <= k < bs.len() ==> block_writable(#[trigger] bs[k]),
    ensures
        items_text(oks(bs)) matches Some(s) && blocks(s) == oks(bs) && !stream_panics(s)
            && items_text(blocks(s)) == Some(s),
{
    lemma_items_text(bs);
    let s = join_lines(blocks_lines(bs));
    lemma_written_lines_ok(bs);
    lemma_split_join(blocks_lines(bs));
    assert(lines(s) == blocks_lines(bs));
    lemma_scan_written(bs);
}

/// A cohort header line `"<w>"` whose word form has no `"`.
pub open spec fn header_line_ok(l: Seq<char>) -> bool {
    exists|w: Seq<char>|
        #[trigger] header_line(w) == l && line_ok(l) && forall|i: int| 0 <= i < w.len() ==> w[i] != '"'
}

/// A reading line in the stream's own layout: an optional `;` mark, one or
/// more tabs, the base form in quotes (no `"` or tab in it), and each tag
/// (not empty, no whitespace or `"`) after a space.
pub open spec fn reading_line(l: Seq<char>) -> bool {
    exists|r: ReadingV| #[trigger] reading_text(r) == l && reading_writable(r)
}

/// A line that is neither a cohort header nor a reading: text, an escaped
/// line or a stream command.
pub open spec fn plain_line(l: Seq<char>) -> bool {
    line_ok(l) && (line_kind(l) is Text || line_kind(l) is StreamCmd || line_kind(l) is Escaped)
}

/// The lines of a stream in canonical form: each one a cohort header, a
/// plain line, or a reading line right after a cohort header or a reading
/// line.
pub open spec fn canonical_lines(ls: Seq<Seq<char>>) -> bool {
    forall|k: int|
        0 <= k < ls.len() ==> header_line_ok(#[trigger] ls[k]) || plain_line(ls[k]) || (k > 0 && reading_line(ls[k])
            && (header_line_ok(ls[k - 1]) || reading_line(ls[k - 1])))
}

/// The blocks that canonical lines stand for.
spec fn group_lines(ls: Seq<Seq<char>>) -> Seq<BlockV>
    decreases ls.len(),
{
    if ls.len() == 0 {
        Seq::empty()
    } else {
        let g = group_lines(ls.drop_last());
        let l = ls.last();
        if header_line_ok(l) {
            let w = choose|w: Seq<char>|
                #[trigger] header_line(w) == l && line_ok(l) && forall|i: int| 0 <= i < w.len() ==> w[i] != '"';
            g.push(BlockV::Cohort(CohortV { word_form: w, readings: Seq::empty() }))
        } else if reading_line(l) && g.len() > 0 && g.last() is Cohort {
            let c = g.last()->Cohort_0;
            let r = choose|r: ReadingV| #[trigger] reading_text(r) == l && reading_writable(r);
            g.update(g.len() - 1, BlockV::Cohort(CohortV { readings: c.readings.push(r), ..c }))
        } else {
            g.push(block_of(l))
        }
    }
}

proof fn lemma_reading_line_kind(l: Seq<char>)
    requires
        reading_line(l),
    ensures
        line_kind(l) is Reading,
        !plain_line(l),
{
    let r = choose|r: ReadingV| #[trigger] reading_text(r) == l && reading_writable(r);
    let t = tabs(r.depth);
    assert(t[0] == '\t');
    if r.removed {
        assert(l[0] == ';');
        assert(l[1] == t[0]);
    } else {
        assert(l[0] == t[0]);
    }
}

proof fn lemma_blocks_lines_push(g: Seq<BlockV>, b: BlockV)
    ensures
        blocks_lines(g.push(b)) == blocks_lines(g) + block_lines(b),
{
    assert(g.push(b).drop_last() =~= g);
}

proof fn lemma_group_lines(ls: Seq<Seq<char>>)
    requires
        canonical_lines(ls),
    ensures
        blocks_lines(group_lines(ls)) == ls,
        forall|k: int| 0 <= k < group_lines(ls).len() ==> block_writable(#[trigger] group_lines(ls)[k]),
        ls.len() > 0 && (header_line_ok(ls.last()) || reading_line(ls.last())) ==> group_lines(ls).len() > 0
            && group_lines(ls).last() is Cohort,
    decreases ls.len(),
{
    if ls.len() > 0 {
        let p = ls.drop_last();
        let n = ls.len() - 1;
        assert forall|k: int| 0 <= k < p.len() implies header_line_ok(#[trigger] p[k]) || plain_line(p[k]) || (k > 0
            && reading_line(p[k]) && (header_line_ok(p[k - 1]) || reading_line(p[k - 1]))) by {
            assert(p[k] == ls[k]);
            if k > 0 {
                assert(p[k - 1] == ls[k - 1]);
            }
        }
        lemma_group_lines(p);
        let g = group_lines(p);
        let l = ls.last();
        assert(l == ls[n]);
        assert(p.push(l) =~= ls);
        if header_line_ok(l) {
            let w = choose|w: Seq<char>|
                #[trigger] header_line(w) == l && line_ok(l) && forall|i: int| 0 <= i < w.len() ==> w[i] != '"';
            let b = BlockV::Cohort(CohortV { word_form: w, readings: Seq::empty() });
            lemma_blocks_lines_push(g, b);
            assert(reading_lines(Seq::<ReadingV>::empty()) =~= Seq::<Seq<char>>::empty());
            assert(block_lines(b) =~= seq![l]);
            assert forall|k: int| 0 <= k < g.push(b).len() implies block_writable(#[trigger] g.push(b)[k]) by {
                if k < g.len() {
                    assert(g.push(b)[k] == g[k]);
                }
            }
        } else if reading_line(l) && g.len() > 0 && g.last() is Cohort {
            let c = g.last()->Cohort_0;
            let r = choose|r: ReadingV| #[trigger] reading_text(r) == l && reading_writable(r);
            let c2 = CohortV { readings: c.readings.push(r), ..c };
            let g2 = g.update(g.len() - 1, BlockV::Cohort(c2));
            assert(g2.drop_last() =~= g.drop_last());
            assert(c.readings.push(r).drop_last() =~= c.readings);
            assert(reading_lines(c2.readings) == reading_lines(c.readings).push(l));
            assert(block_lines(BlockV::Cohort(c2)) =~= block_lines(BlockV::Cohort(c)).push(l));
            assert(blocks_lines(g) == blocks_lines(g.drop_last()) + block_lines(g.last()));
            assert(blocks_lines(g2) == blocks_lines(g2.drop_last()) + block_lines(g2.last()));
            assert(blocks_lines(g2) =~= blocks_lines(g).push(l));
            assert(block_writable(g[g.len() - 1]));
            assert forall|k: int| 0 <= k < g2.len() implies block_writable(#[trigger] g2[k]) by {
                if k < g.len() - 1 {
                    assert(g2[k] == g[k]);
                } else {
                    assert forall|j: int| 0 <= j < c2.readings.len() implies reading_writable(#[trigger] c2.readings[j]) by {
                        if j < c.readings.len() {
                            assert(c2.readings[j] == c.readings[j]);
                        }
                    }
                }
            }
        } else {
            assert(canonical_lines(ls));
            assert(header_line_ok(ls[n]) || plain_line(ls[n]) || (n > 0 && reading_line(ls[n]) && (header_line_ok(ls[n - 1])
                || reading_line(ls[n - 1]))));
            if reading_line(l) {
                lemma_reading_line_kind(l);
                assert(p.last() == ls[n - 1]);
                assert(false);
            }
            assert(plain_line(l));
            let b = block_of(l);
            lemma_blocks_lines_push(g, b);
            if line_kind(l) is Escaped {
                assert(seq![':'] + l.drop_first() =~= l);
            }
            assert(block_lines(b) =~= seq![l]);
            assert forall|k: int| 0 <= k < g.push(b).len() implies block_writable(#[trigger] g.push(b)[k]) by {
                if k < g.len() {
                    assert(g.push(b)[k] == g[k]);
                }
            }
        }
    }
}

/// A stream in canonical form reads back without error or panic, and
/// writing what was read gives the stream again, line for line.
pub proof fn lemma_canonical_round_trip(ls: Seq<Seq<char>>)
    requires
        canonical_lines(ls),
    ensures
        !stream_panics(join_lines(ls)),
        items_text(blocks(join_lines(ls))) == Some(join_lines(ls)),
{
    lemma_group_lines(ls);
    let g = group_lines(ls);
    lemma_write_read(g);
    lemma_items_text(g);
}

proof fn lemma_split_parts(s: Seq<char>)
    requires
        forall|i: int| 0 <= i < s.len() ==> #[trigger] s[i] != '\r',
    ensures
        join_lines(split_state(s).done) + split_state(s).cur == s,
        forall|i: int| 0 <= i < split_state(s).cur.len() ==> #[trigger] split_state(s).cur[i] != '\n'
            && split_state(s).cur[i] != '\r',
        forall|k: int| 0 <= k < split_state(s).done.len() ==> line_ok(#[trigger] split_state(s).done[k]),
    decreases s.len(),
{
    if s.len() > 0 {
        let p = s.drop_last();
        assert forall|i: int| 0 <= i < p.len() implies #[trigger] p[i] != '\r' by {
            assert(p[i] == s[i]);
        }
        lemma_split_parts(p);
        let st = split_state(p);
        assert(p.push(s.last()) =~= s);
        if s.last() == '\n' {
            assert(strip_cr(st.cur) == st.cur);
            let d = st.done.push(st.cur);
            assert(d.drop_last() =~= st.done);
            assert(join_lines(d) == join_lines(st.done) + st.cur + seq!['\n']);
            assert(join_lines(d) + Seq::<char>::empty() =~= p + seq!['\n']);
            assert forall|k: int| 0 <= k < d.len() implies line_ok(#[trigger] d[k]) by {
                if k < st.done.len() {
                    assert(d[k] == st.done[k]);
                }
            }
        } else {
            assert(s.last() == s[s.len() - 1]);
            assert(join_lines(st.done) + st.cur.push(s.last()) =~= p.push(s.last()));
        }
    }
}

/// A stream in canonical form: empty or ending in a newline, with no
/// carriage return, and its lines in canonical form.
pub open spec fn canonical_stream(s: Seq<char>) -> bool {
    &&& s.len() == 0 || s.last() == '\n'
    &&& forall|i: int| 0 <= i < s.len() ==> #[trigger] s[i] != '\r'
    &&& canonical_lines(lines(s))
}

/// Every stream in canonical form reads back without error or panic, and
/// writing what was read gives the stream again.
pub proof fn lemma_canonical_stream_round_trip(s: Seq<char>)
    requires
        canonical_stream(s),
    ensures
        !stream_panics(s),
        items_text(blocks(s)) == Some(s),
{
    lemma_split_parts(s);
    let st = split_state(s);
    if s.len() > 0 {
        assert(split_state(s).cur.len() == 0);
    }
    assert(lines(s) == st.done);
    assert(join_lines(st.done) + st.cur =~= join_lines(st.done));
    lemma_canonical_round_trip(lines(s));
}

proof fn lemma_written_lines_ok(bs: Seq<BlockV>)
    requires
        forall|k: int| 0 <= k < bs.len() ==> block_writable(#[trigger] bs[k]),
    ensures
        forall|k: int| 0 <= k < blocks_lines(bs).len() ==> line_ok(#[trigger] blocks_lines(bs)[k]),
    decreases bs.len(),
{
    if bs.len() > 0 {
        let p = bs.drop_last();
        assert forall|k: int| 0 <= k < p.len() implies block_writable(#[trigger] p[k]) by {
            assert(p[k] == bs[k]);
        }
        lemma_written_lines_ok(p);
        let b = bs.last();
        assert(block_writable(bs[bs.len() - 1]));
        let a = blocks_lines(p);
        let bl = block_lines(b);
        if let BlockV::Cohort(c) = b {
            lemma_reading_lines_ok(c.readings);
        }
        assert forall|k: int| 0 <= k < (a + bl).len() implies line_ok(#[trigger] (a + bl)[k]) by {
            if k >= a.len() {
                assert((a + bl)[k] == bl[k - a.len()]);
            }
        }
    }
}

proof fn lemma_reading_lines_ok(rs: Seq<ReadingV>)
    requires
        forall|k: int| 0 <= k < rs.len() ==> reading_writable(#[trigger] rs[k]),
    ensures
        forall|k: int| 0 <= k < reading_lines(rs).len() ==> line_ok(#[trigger] reading_lines(rs)[k]),
        reading_lines(rs).len() == rs.len(),
    decreases rs.len(),
{
    if rs.len() > 0 {
        let p = rs.drop_last();
        assert forall|k: int| 0 <= k < p.len() implies reading_writable(#[trigger] p[k]) by {
            assert(p[k] == rs[k]);
        }
        lemma_reading_lines_ok(p);
        assert(reading_writable(rs[rs.len() - 1]));
    }
}

} // verus!
