//! Fluent message files: the language of a file from its name, and readable
//! reports of parse errors. The parser reports where it gave up and the slice
//! it discarded; the mistake itself is looked for inside that slice (a tab
//! used as indentation, an attribute without `=`, a `{..}` that is no
//! placeable) and shown with its line, column and a caret under it. Spans
//! and offsets are in bytes, as the parser gives them; columns count
//! characters.
use vstd::prelude::*;
use vstd::string::StrSliceExecFns;
use crate::num::{dec_digits, push_dec};
use crate::speech::{first_of, lemma_first_of_bound, split_at_char, split_on};
use crate::text::{
    char_len_utf8, char_width, chars_of, count_lead_ws, is_ws, lead_ws, lemma_utf8_len_concat,
    lemma_utf8_len_prefix, lemma_utf8_len_push, lemma_utf8_len_sub, lines, push_char, push_chars,
    push_str, split_lines, str_eq, string_of, strings_view, trim, trim_start, trimmed, utf8_len,
    utf8_len_range,
};

verus! {

broadcast use vstd::string::group_string_axioms;

/// The index of the last `c` in `s`.
pub open spec fn last_of(s: Seq<char>, c: char) -> Option<int>
    decreases s.len(),
{
    if s.len() == 0 {
        None
    } else if s.last() == c {
        Some(s.len() - 1)
    } else {
        last_of(s.drop_last(), c)
    }
}

/// The language code of a Fluent file name, `errors-en.ftl` → `en`: what
/// follows the last `-` before the `.ftl` suffix.
pub open spec fn language_code(name: Seq<char>) -> Option<Seq<char>> {
    if name.len() >= 4 && name.skip(name.len() - 4) == seq!['.', 'f', 't', 'l'] {
        let stem = name.take(name.len() - 4);
        match last_of(stem, '-') {
            Some(i) => Some(stem.skip(i + 1)),
            None => None,
        }
    } else {
        None
    }
}

/// The language code of a Fluent file name (`errors-en.ftl` → `en`); `None`
/// without the `.ftl` suffix or a `-` before it.
pub fn extract_language_code(filename: &str) -> (r: Option<String>)
    ensures
        match language_code(filename@) {
            Some(code) => r matches Some(s) && s@ == code,
            None => r is None,
        },
{
    let v = chars_of(filename);
    let n = v.len();
    if n < 4 || v[n - 4] != '.' || v[n - 3] != 'f' || v[n - 2] != 't' || v[n - 1] != 'l' {
        proof {
            if n >= 4 {
                let t = v@.skip(n - 4);
                if t == seq!['.', 'f', 't', 'l'] {
                    assert(t[0] == v@[n - 4] && t[1] == v@[n - 3] && t[2] == v@[n - 2] && t[3]
                        == v@[n - 1]);
                }
            }
        }
        return None;
    }
    assert(v@.skip(n - 4) =~= seq!['.', 'f', 't', 'l']);
    let ghost stem = v@.take(n - 4);
    let mut j = n - 4;
    assert(stem.take(j as int) =~= stem);
    while j > 0
        invariant
            j <= n - 4,
            n == v@.len(),
            v@ == filename@,
            v@.skip(n - 4) == seq!['.', 'f', 't', 'l'],
            stem == v@.take(n - 4),
            last_of(stem, '-') == last_of(stem.take(j as int), '-'),
        decreases j,
    {
        assert(stem.take(j as int).last() == v@[j - 1]);
        assert(stem.take(j as int).drop_last() =~= stem.take(j - 1));
        if v[j - 1] == '-' {
            assert(last_of(stem.take(j as int), '-') == Some(j - 1));
            assert(stem.skip(j as int) =~= v@.subrange(j as int, n - 4));
            return Some(string_of(&v, j, n - 4));
        }
        j = j - 1;
    }
    assert(stem.take(0) =~= Seq::<char>::empty());
    None
}

/// The number of leading characters of `s` that start before byte `off`.
pub open spec fn chars_before(s: Seq<char>, off: int) -> nat
    decreases s.len(),
{
    if s.len() == 0 || off <= 0 {
        0
    } else {
        1 + chars_before(s.drop_first(), off - char_width(s[0]))
    }
}

/// The 1-based line and column (in characters) just after `p`.
pub open spec fn line_col_after(p: Seq<char>) -> (nat, nat)
    decreases p.len(),
{
    if p.len() == 0 {
        (1, 1)
    } else {
        let (l, c) = line_col_after(p.drop_last());
        if p.last() == '\n' {
            (l + 1, 1)
        } else {
            (l, c + 1)
        }
    }
}

proof fn lemma_line_col_bound(p: Seq<char>)
    ensures
        line_col_after(p).0 <= p.len() + 1,
        line_col_after(p).1 <= p.len() + 1,
        line_col_after(p).0 >= 1,
        line_col_after(p).1 >= 1,
    decreases p.len(),
{
    if p.len() > 0 {
        lemma_line_col_bound(p.drop_last());
    }
}

/// The 1-based line and column of byte `off` of `source`, the column in
/// characters; an offset past the end is the position after the last
/// character.
pub open spec fn line_col_at(source: Seq<char>, off: int) -> (nat, nat) {
    line_col_after(source.take(chars_before(source, off) as int))
}

proof fn lemma_chars_before_bound(s: Seq<char>, off: int)
    ensures
        chars_before(s, off) <= s.len(),
    decreases s.len(),
{
    if s.len() > 0 && off > 0 {
        lemma_chars_before_bound(s.drop_first(), off - char_width(s[0]));
    }
}

/// Converts a byte offset into `source` into a 1-based (line, column) pair,
/// the column counted in characters.
pub fn line_col(source: &str, byte_offset: usize) -> (r: (usize, usize))
    requires
        source@.len() < usize::MAX,
    ensures
        r.0 == line_col_at(source@, byte_offset as int).0,
        r.1 == line_col_at(source@, byte_offset as int).1,
{
    let v = chars_of(source);
    let mut line: usize = 1;
    let mut col: usize = 1;
    let mut rem = byte_offset;
    let mut i: usize = 0;
    assert(v@.skip(0) =~= v@);
    while i < v.len() && rem > 0
        invariant
            i <= v@.len(),
            v@ == source@,
            v@.len() < usize::MAX,
            chars_before(v@, byte_offset as int) == i + chars_before(v@.skip(i as int), rem as int),
            (line as nat, col as nat) == line_col_after(v@.take(i as int)),
        decreases v@.len() - i,
    {
        proof {
            lemma_line_col_bound(v@.take(i as int));
            assert(v@.skip(i as int).drop_first() =~= v@.skip(i + 1));
            assert(v@.skip(i as int)[0] == v@[i as int]);
            assert(v@.take(i + 1).drop_last() =~= v@.take(i as int));
        }
        let w = char_len_utf8(v[i]);
        proof {
            let t = v@.skip(i as int);
            assert(chars_before(t, rem as int) == 1 + chars_before(v@.skip(i + 1), rem - w));
            if rem <= w {
                assert(chars_before(v@.skip(i + 1), rem - w) == 0);
                assert(chars_before(v@.skip(i + 1), 0) == 0);
            }
        }
        if v[i] == '\n' {
            line = line + 1;
            col = 1;
        } else {
            col = col + 1;
        }
        rem = if rem > w {
            rem - w
        } else {
            0
        };
        i = i + 1;
    }
    proof {
        if v@.skip(i as int).len() == 0 {
            assert(chars_before(v@.skip(i as int), rem as int) == 0);
        }
    }
    (line, col)
}

/// The first of `locales` that is among `available`.
pub open spec fn first_available(locales: Seq<Seq<char>>, available: Seq<Seq<char>>) -> Option<
    Seq<char>,
>
    decreases locales.len(),
{
    if locales.len() == 0 {
        None
    } else if available.contains(locales[0]) {
        Some(locales[0])
    } else {
        first_available(locales.drop_first(), available)
    }
}

fn contains_string(v: &Vec<String>, s: &String) -> (r: bool)
    ensures
        r == strings_view(v@).contains(s@),
{
    let mut i: usize = 0;
    while i < v.len()
        invariant
            i <= v@.len(),
            forall|k: int| 0 <= k < i ==> v@[k]@ != s@,
        decreases v@.len() - i,
    {
        if str_eq(v[i].as_str(), s.as_str()) {
            assert(strings_view(v@)[i as int] == s@);
            return true;
        }
        i = i + 1;
    }
    proof {
        if strings_view(v@).contains(s@) {
            let k = choose|k: int| 0 <= k < strings_view(v@).len() && strings_view(v@)[k] == s@;
            assert(v@[k]@ == s@);
        }
    }
    false
}

/// The first locale of a prioritised list that has loaded messages.
pub fn find_first_available_locale(available: &Vec<String>, locales: &Vec<String>) -> (r: Option<
    String,
>)
    ensures
        match first_available(strings_view(locales@), strings_view(available@)) {
            Some(l) => r matches Some(s) && s@ == l,
            None => r is None,
        },
{
    let ghost lv = strings_view(locales@);
    let ghost av = strings_view(available@);
    let mut i: usize = 0;
    assert(lv.skip(0) =~= lv);
    while i < locales.len()
        invariant
            i <= locales@.len(),
            lv == strings_view(locales@),
            av == strings_view(available@),
            first_available(lv, av) == first_available(lv.skip(i as int), av),
        decreases locales@.len() - i,
    {
        assert(lv.skip(i as int)[0] == locales@[i as int]@);
        assert(lv.skip(i as int).drop_first() =~= lv.skip(i + 1));
        if contains_string(available, &locales[i]) {
            return Some(locales[i].clone());
        }
        i = i + 1;
    }
    None
}

/// A located mistake in a Fluent file: its byte span, what is wrong, and
/// how to mend it where that can be said.
#[derive(Debug)]
pub struct Diagnosis {
    pub start: usize,
    pub end: usize,
    pub message: String,
    pub help: Option<String>,
}

pub struct DiagnosisV {
    pub start: nat,
    pub end: nat,
    pub message: Seq<char>,
    pub help: Option<Seq<char>>,
}

pub open spec fn diag_view(d: Diagnosis) -> DiagnosisV {
    DiagnosisV {
        start: d.start as nat,
        end: d.end as nat,
        message: d.message@,
        help: match d.help {
            Some(h) => Some(h@),
            None => None,
        },
    }
}

pub open spec fn opt_diag_view(d: Option<Diagnosis>) -> Option<DiagnosisV> {
    match d {
        Some(x) => Some(diag_view(x)),
        None => None,
    }
}

/// The number of leading tabs of `s`.
pub open spec fn tab_run(s: Seq<char>) -> nat
    decreases s.len(),
{
    if s.len() > 0 && s[0] == '\t' {
        1 + tab_run(s.drop_first())
    } else {
        0
    }
}

/// A tab that indents a line of the discarded slice `text`, which starts at
/// byte `start`: a tab is no indentation in Fluent, so a tab-indented
/// attribute silently comes off its message.
pub open spec fn tab_diagnosis(start: nat, text: Seq<char>) -> Option<DiagnosisV> {
    match first_of(text, '\t') {
        Some(i) => {
            let at = start + utf8_len(text.take(i));
            Some(
                DiagnosisV {
                    start: at,
                    end: at + tab_run(text.skip(i)),
                    message: "line is indented with a tab"@,
                    help: Some("Fluent only accepts spaces for indentation"@),
                },
            )
        },
        None => None,
    }
}

/// The text within bounds: the slice starts at `start` and its bytes follow.
pub open spec fn fits(start: nat, text: Seq<char>) -> bool {
    start + utf8_len(text) <= usize::MAX
}

fn find_from(v: &Vec<char>, from: usize, c: char) -> (r: Option<usize>)
    requires
        from <= v@.len(),
    ensures
        r matches Some(k) ==> from <= k < v@.len() && first_of(v@.skip(from as int), c) == Some(
            k - from,
        ),
        r is None ==> first_of(v@.skip(from as int), c) is None,
    decreases v@.len() - from,
{
    assert(v@.skip(from as int).len() == v@.len() - from);
    if from == v.len() {
        return None;
    }
    assert(v@.skip(from as int).drop_first() =~= v@.skip(from + 1));
    if v[from] == c {
        Some(from)
    } else {
        let r = find_from(v, from + 1, c);
        r
    }
}

/// Points at a tab used as indentation in the discarded slice `text`, which
/// starts at byte `slice_start`.
pub fn tab_indent(slice_start: usize, text: &str) -> (r: Option<Diagnosis>)
    requires
        fits(slice_start as nat, text@),
    ensures
        opt_diag_view(r) == tab_diagnosis(slice_start as nat, text@),
{
    let v = chars_of(text);
    assert(v@.skip(0) =~= v@);
    let i = match find_from(&v, 0, '\t') {
        Some(i) => i,
        None => {
            return None;
        },
    };
    let mut j = i;
    assert(v@.skip(i as int) =~= v@.subrange(i as int, v@.len() as int));
    while j < v.len() && v[j] == '\t'
        invariant
            i <= j <= v@.len(),
            tab_run(v@.skip(i as int)) == (j - i) + tab_run(v@.skip(j as int)),
        decreases v@.len() - j,
    {
        assert(v@.skip(j as int).drop_first() =~= v@.skip(j + 1));
        j = j + 1;
    }
    proof {
        lemma_utf8_len_sub(v@, 0, i as int);
        lemma_utf8_len_sub(v@, 0, j as int);
        assert(v@.subrange(0, i as int) =~= v@.take(i as int));
        assert(v@.subrange(0, j as int) =~= v@.take(j as int));
        assert(v@.take(v@.len() as int) =~= v@);
        lemma_utf8_len_sub(v@, i as int, j as int);
        assert forall|k: int| 0 <= k < j - i implies v@.subrange(i as int, j as int)[k] == '\t' by {
            lemma_tab_run_prefix(v@.skip(i as int), k);
        }
        lemma_tabs_bytes(v@.subrange(i as int, j as int));
    }
    let off = utf8_len_range(&v, 0, i);
    let at = slice_start + off;
    let mut message = String::new();
    push_str(&mut message, "line is indented with a tab");
    let mut help = String::new();
    push_str(&mut help, "Fluent only accepts spaces for indentation");
    Some(Diagnosis { start: at, end: at + (j - i), message, help: Some(help) })
}

proof fn lemma_tab_run_prefix(s: Seq<char>, k: int)
    requires
        0 <= k < tab_run(s),
    ensures
        k < s.len(),
        s[k] == '\t',
    decreases k,
{
    if k > 0 {
        lemma_tab_run_prefix(s.drop_first(), k - 1);
    }
}

proof fn lemma_tabs_bytes(s: Seq<char>)
    requires
        forall|k: int| 0 <= k < s.len() ==> s[k] == '\t',
    ensures
        utf8_len(s) == s.len(),
    decreases s.len(),
{
    if s.len() > 0 {
        lemma_tabs_bytes(s.drop_last());
    }
}

/// What std's `char::is_alphanumeric` says of a character.
pub uninterp spec fn alphanumeric(c: char) -> bool;

/// std's `char::is_alphanumeric`: Unicode's Alphabetic or Numeric. Its
/// answer is named `alphanumeric`; the Unicode tables behind it are not
/// written out here.
#[verifier::external_body]
fn is_alphanumeric(c: char) -> (r: bool)
    ensures
        r == alphanumeric(c),
{
    c.is_alphanumeric()
}

/// The length of the first piece of `s` when split after each newline
/// (`str::split_inclusive('\n')`).
pub open spec fn piece_len(s: Seq<char>) -> nat
    decreases s.len(),
{
    if s.len() == 0 {
        0
    } else if s[0] == '\n' {
        1
    } else {
        1 + piece_len(s.drop_first())
    }
}

pub proof fn lemma_piece_len(s: Seq<char>)
    ensures
        s.len() > 0 ==> 1 <= piece_len(s) <= s.len(),
        forall|k: int| 0 <= k < piece_len(s) - 1 ==> s[k] != '\n',
        piece_len(s) > 0 && piece_len(s) < s.len() ==> s[piece_len(s) - 1] == '\n',
        piece_len(s) == s.len() && s.len() > 0 ==> (s.last() == '\n' || forall|k: int|
            0 <= k < s.len() ==> s[k] != '\n'),
    decreases s.len(),
{
    if s.len() > 0 && s[0] != '\n' {
        lemma_piece_len(s.drop_first());
        assert forall|k: int| 0 <= k < piece_len(s) - 1 implies s[k] != '\n' by {
            if k > 0 {
                assert(s[k] == s.drop_first()[k - 1]);
            }
        }
    }
}

/// The length of the attribute name at the start of `s`: characters that
/// are alphanumeric, `-` or `_`.
pub open spec fn name_len(s: Seq<char>) -> nat
    decreases s.len(),
{
    if s.len() > 0 && (alphanumeric(s[0]) || s[0] == '-' || s[0] == '_') {
        1 + name_len(s.drop_first())
    } else {
        0
    }
}

/// A line `.name text` without its `=`: the indentation (in characters)
/// and the name.
pub open spec fn attr_in_line(line: Seq<char>) -> Option<(nat, Seq<char>)> {
    let k = lead_ws(line);
    let after = line.skip(k as int);
    if after.len() > 0 && after[0] == '.' {
        let ad = after.drop_first();
        let nl = name_len(ad);
        let tail = trim_start(ad.skip(nl as int));
        if nl > 0 && !(tail.len() > 0 && tail[0] == '=') {
            Some((k, ad.take(nl as int)))
        } else {
            None
        }
    } else {
        None
    }
}

/// The diagnosis for one line of a discarded slice, the line starting at
/// byte `at`, if it is an attribute without `=`.
pub open spec fn attr_line_diagnosis(at: nat, line: Seq<char>) -> Option<DiagnosisV> {
    match attr_in_line(line) {
        Some((k, name)) => {
            let start = at + utf8_len(line.take(k as int));
            Some(
                DiagnosisV {
                    start,
                    end: start + 1 + utf8_len(name),
                    message: "attribute `."@ + name + "` is missing its `=`"@,
                    help: Some("write `."@ + name + " = ...`"@),
                },
            )
        },
        None => None,
    }
}

/// An attribute that lost its `=` (`.desc Some text`) in the discarded slice
/// `s`, which starts at byte `start`: the first line that is one.
pub open spec fn attr_diagnosis(start: nat, s: Seq<char>) -> Option<DiagnosisV>
    decreases s.len(),
{
    if s.len() == 0 {
        None
    } else {
        proof {
            lemma_piece_len(s);
        }
        let n = piece_len(s);
        let line = s.take(n as int);
        match attr_line_diagnosis(start, line) {
            Some(d) => Some(d),
            None => attr_diagnosis(start + utf8_len(line), s.skip(n as int)),
        }
    }
}

fn name_end(v: &Vec<char>, from: usize, to: usize) -> (e: usize)
    requires
        from <= to <= v@.len(),
    ensures
        e == from + name_len(v@.subrange(from as int, to as int)),
        e <= to,
    decreases to - from,
{
    if from == to {
        return from;
    }
    let ghost s = v@.subrange(from as int, to as int);
    assert(s.drop_first() =~= v@.subrange(from + 1, to as int));
    let c = v[from];
    if is_alphanumeric(c) || c == '-' || c == '_' {
        name_end(v, from + 1, to)
    } else {
        from
    }
}

fn check_attr_line(v: &Vec<char>, from: usize, to: usize) -> (r: Option<(usize, usize)>)
    requires
        from <= to <= v@.len(),
    ensures
        match attr_in_line(v@.subrange(from as int, to as int)) {
            Some((k, name)) => r matches Some((ks, ne)) && ks == from + k && ne <= to && ks + 1
                <= ne && v@.subrange(ks + 1, ne as int) == name,
            None => r is None,
        },
{
    let ghost line = v@.subrange(from as int, to as int);
    let k = count_lead_ws(v, from, to);
    proof {
        crate::text::lemma_lead_ws(line);
    }
    let a = from + k;
    assert(line.skip(k as int) =~= v@.subrange(a as int, to as int));
    if a < to && v[a] == '.' {
        let ne = name_end(v, a + 1, to);
        let ghost ad = v@.subrange(a + 1, to as int);
        assert(line.skip(k as int).drop_first() =~= ad);
        let w = count_lead_ws(v, ne, to);
        assert(ad.skip(ne - a - 1) =~= v@.subrange(ne as int, to as int));
        proof {
            crate::text::lemma_lead_ws(v@.subrange(ne as int, to as int));
        }
        let t = ne + w;
        assert(trim_start(ad.skip(ne - a - 1)) =~= v@.subrange(t as int, to as int));
        if ne > a + 1 && !(t < to && v[t] == '=') {
            assert(ad.take(ne - a - 1) =~= v@.subrange(a + 1, ne as int));
            Some((a, ne))
        } else {
            None
        }
    } else {
        None
    }
}

fn attr_line(v: &Vec<char>, p: usize, q: usize, off: usize) -> (r: Option<Diagnosis>)
    requires
        p <= q <= v@.len(),
        off + utf8_len(v@.subrange(p as int, q as int)) <= usize::MAX,
        utf8_len(v@) <= usize::MAX,
    ensures
        opt_diag_view(r) == attr_line_diagnosis(off as nat, v@.subrange(p as int, q as int)),
{
    let ghost line = v@.subrange(p as int, q as int);
    match check_attr_line(v, p, q) {
        Some((ks, ne)) => {
            proof {
                lemma_utf8_len_sub(v@, p as int, q as int);
                lemma_utf8_len_sub(line, 0, (ks - p) as int);
                lemma_utf8_len_sub(line, 0, (ne - p) as int);
                lemma_utf8_len_sub(line, (ks - p) as int, (ne - p) as int);
                assert(line.subrange(0, ks - p) =~= line.take(ks - p));
                assert(line.subrange(0, ks - p) =~= v@.subrange(p as int, ks as int));
                assert(line.subrange(0, ne - p) =~= line.take(ne - p));
                assert(line.take(ne - p).len() <= line.len());
                lemma_utf8_len_prefix(line, (ne - p) as int);
                assert(line.subrange(ks - p, ne - p) =~= v@.subrange(ks as int, ne as int));
                assert(v@[ks as int] == '.');
                assert(v@.subrange(ks as int, ne as int) =~= seq!['.'] + v@.subrange(
                    ks + 1,
                    ne as int,
                ));
                lemma_utf8_len_concat(seq!['.'], v@.subrange(ks + 1, ne as int));
                assert(seq!['.'].drop_last() =~= Seq::<char>::empty());
            }
            let at = off + utf8_len_range(v, p, ks);
            let nb = utf8_len_range(v, ks + 1, ne);
            let name = string_of(v, ks + 1, ne);
            let mut message = String::new();
            push_str(&mut message, "attribute `.");
            push_str(&mut message, name.as_str());
            push_str(&mut message, "` is missing its `=`");
            let mut help = String::new();
            push_str(&mut help, "write `.");
            push_str(&mut help, name.as_str());
            push_str(&mut help, " = ...`");
            Some(Diagnosis { start: at, end: at + 1 + nb, message, help: Some(help) })
        },
        None => None,
    }
}

/// Points at an attribute that lost its `=` in the discarded slice `text`,
/// which starts at byte `slice_start`.
pub fn attribute_without_equals(slice_start: usize, text: &str) -> (r: Option<Diagnosis>)
    requires
        fits(slice_start as nat, text@),
    ensures
        opt_diag_view(r) == attr_diagnosis(slice_start as nat, text@),
{
    let v = chars_of(text);
    let mut p: usize = 0;
    let mut off: usize = slice_start;
    proof {
        assert(v@.take(0) =~= Seq::<char>::empty());
        assert(v@.skip(0) =~= v@);
        assert(v@.take(v@.len() as int) =~= v@);
    }
    while p < v.len()
        invariant
            p <= v@.len(),
            v@ == text@,
            fits(slice_start as nat, v@),
            v@.take(v@.len() as int) == v@,
            off == slice_start + utf8_len(v@.take(p as int)),
            attr_diagnosis(slice_start as nat, v@) == attr_diagnosis(off as nat, v@.skip(p as int)),
        decreases v@.len() - p,
    {
        let ghost s = v@.skip(p as int);
        let q = match find_from(&v, p, '\n') {
            Some(i) => i + 1,
            None => v.len(),
        };
        proof {
            lemma_piece_len(s);
            lemma_first_of_bound(s, '\n');
            lemma_piece_first_of(s);
            assert(s.take(q - p) =~= v@.subrange(p as int, q as int));
            assert(s.skip(q - p) =~= v@.skip(q as int));
            lemma_utf8_len_sub(v@, 0, p as int);
            lemma_utf8_len_sub(v@, 0, q as int);
            lemma_utf8_len_sub(v@, 0, v@.len() as int);
            assert(v@.subrange(0, p as int) =~= v@.take(p as int));
            assert(v@.subrange(0, q as int) =~= v@.take(q as int));
            lemma_utf8_len_sub(v@, q as int, v@.len() as int);
            lemma_utf8_len_sub(v@, p as int, q as int);
        }
        let d = attr_line(&v, p, q, off);
        if d.is_some() {
            return d;
        }
        let lb = utf8_len_range(&v, p, q);
        off = off + lb;
        p = q;
    }
    assert(v@.skip(p as int) =~= Seq::<char>::empty());
    None
}

proof fn lemma_piece_first_of(s: Seq<char>)
    ensures
        match first_of(s, '\n') {
            Some(i) => piece_len(s) == i + 1,
            None => piece_len(s) == s.len(),
        },
    decreases s.len(),
{
    if s.len() > 0 && s[0] != '\n' {
        lemma_piece_first_of(s.drop_first());
    }
}

/// The hint shown with a `{..}` that holds no placeable.
pub open spec fn placeable_help() -> Seq<char> {
    "a placeable holds a variable (`{$1}`), a message, a term (`{-name}`) or a literal — check for a mistyped `$`"@
}

/// What can begin an inline expression: a variable, a term, a message, a
/// string or number literal, or a nested placeable.
pub open spec fn starts_expression(s: Seq<char>) -> bool {
    s.len() > 0 && (s[0] == '$' || s[0] == '-' || s[0] == '"' || s[0] == '{' || alphanumeric(s[0]))
}

/// The characters of a placeable's body up to and including its `}`, or
/// all of it where it has none.
pub open spec fn close_len(body: Seq<char>) -> nat {
    match first_of(body, '}') {
        Some(k) => (k + 1) as nat,
        None => body.len(),
    }
}

/// The first `{..}` at or after character `from` of the discarded slice
/// `text` (which starts at byte `start`) that holds something Fluent cannot
/// interpolate; usually a mistyped `$`.
pub open spec fn placeable_diagnosis(start: nat, text: Seq<char>, from: int) -> Option<DiagnosisV>
    decreases text.len() - from,
{
    if from < 0 || from > text.len() {
        None
    } else {
        match first_of(text.skip(from), '{') {
            None => None,
            Some(j) => {
                proof {
                    lemma_first_of_bound(text.skip(from), '{');
                }
                let open = from + j + 1;
                let body = text.skip(open);
                if !starts_expression(trim_start(body)) {
                    let close = close_len(body);
                    let at = start + utf8_len(text.take(open - 1));
                    Some(
                        DiagnosisV {
                            start: at,
                            end: at + 1 + utf8_len(body.take(close as int)),
                            message: "`"@ + text.subrange(open - 1, open + close)
                                + "` is not a valid placeable"@,
                            help: Some(placeable_help()),
                        },
                    )
                } else {
                    placeable_diagnosis(start, text, open)
                }
            },
        }
    }
}

proof fn lemma_close_len(body: Seq<char>)
    ensures
        close_len(body) <= body.len(),
{
    lemma_first_of_bound(body, '}');
}

fn placeable_at(v: &Vec<char>, open: usize, off: usize) -> (r: Option<Diagnosis>)
    requires
        1 <= open <= v@.len(),
        v@[open - 1] == '{',
        off + utf8_len(v@.skip(open - 1)) <= usize::MAX,
        utf8_len(v@) <= usize::MAX,
    ensures
        ({
            let body = v@.skip(open as int);
            if !starts_expression(trim_start(body)) {
                let close = close_len(body);
                opt_diag_view(r) == Some(
                    DiagnosisV {
                        start: off as nat,
                        end: (off + 1 + utf8_len(body.take(close as int))) as nat,
                        message: "`"@ + v@.subrange(open - 1, open + close)
                            + "` is not a valid placeable"@,
                        help: Some(placeable_help()),
                    },
                )
            } else {
                r is None
            }
        }),
{
    let ghost body = v@.skip(open as int);
    let t = count_lead_ws(v, open, v.len());
    proof {
        assert(body =~= v@.subrange(open as int, v@.len() as int));
        crate::text::lemma_lead_ws(body);
        assert(trim_start(body) =~= v@.subrange(open + t, v@.len() as int));
    }
    let u = open + t;
    if u < v.len() && (v[u] == '$' || v[u] == '-' || v[u] == '"' || v[u] == '{' || is_alphanumeric(v[u])) {
        return None;
    }
    let close = match find_from(v, open, '}') {
        Some(k) => k + 1 - open,
        None => v.len() - open,
    };
    proof {
        lemma_first_of_bound(body, '}');
        assert(close == close_len(body));
        assert(body.take(close as int) =~= v@.subrange(open as int, open + close));
        assert(v@.skip(open - 1) =~= seq!['{'] + body);
        lemma_utf8_len_concat(seq!['{'], body);
        assert(seq!['{'].drop_last() =~= Seq::<char>::empty());
        lemma_utf8_len_sub(body, 0, close as int);
        assert(body.subrange(0, close as int) =~= body.take(close as int));
        assert(body.take(body.len() as int) =~= body);
        lemma_utf8_len_sub(v@, open as int, open + close);
        lemma_utf8_len_sub(v@, 0, v@.len() as int);
        assert(v@.subrange(0, v@.len() as int) =~= v@);
    }
    let nb = utf8_len_range(v, open, open + close);
    let mut message = String::new();
    push_str(&mut message, "`");
    push_chars(&mut message, v, open - 1, open + close);
    push_str(&mut message, "` is not a valid placeable");
    assert(message@ =~= "`"@ + v@.subrange(open - 1, open + close) + "` is not a valid placeable"@);
    let mut help = String::new();
    push_str(
        &mut help,
        "a placeable holds a variable (`{$1}`), a message, a term (`{-name}`) or a literal — check for a mistyped `$`",
    );
    Some(Diagnosis { start: off, end: off + 1 + nb, message, help: Some(help) })
}

/// Points at a `{..}` that holds no placeable in the discarded slice `text`,
/// which starts at byte `slice_start`.
pub fn invalid_placeable(slice_start: usize, text: &str) -> (r: Option<Diagnosis>)
    requires
        fits(slice_start as nat, text@),
    ensures
        opt_diag_view(r) == placeable_diagnosis(slice_start as nat, text@, 0),
{
    let v = chars_of(text);
    let mut p: usize = 0;
    proof {
        assert(v@.take(v@.len() as int) =~= v@);
    }
    loop
        invariant
            p <= v@.len(),
            v@ == text@,
            fits(slice_start as nat, v@),
            v@.take(v@.len() as int) == v@,
            placeable_diagnosis(slice_start as nat, v@, 0) == placeable_diagnosis(
                slice_start as nat,
                v@,
                p as int,
            ),
        decreases v@.len() - p,
    {
        let ghost s = v@.skip(p as int);
        let i = match find_from(&v, p, '{') {
            Some(i) => i,
            None => {
                return None;
            },
        };
        let open = i + 1;
        proof {
            lemma_first_of_bound(s, '{');
            lemma_utf8_len_sub(v@, 0, i as int);
            lemma_utf8_len_sub(v@, 0, v@.len() as int);
            lemma_utf8_len_sub(v@, i as int, v@.len() as int);
            assert(v@.subrange(0, i as int) =~= v@.take(i as int));
            assert(v@.subrange(0, v@.len() as int) =~= v@);
            assert(v@.subrange(i as int, v@.len() as int) =~= v@.skip(i as int));
        }
        let off = slice_start + utf8_len_range(&v, 0, i);
        let d = placeable_at(&v, open, off);
        if d.is_some() {
            return d;
        }
        p = open;
    }
}

/// A parse error as the parser reports it: where it gave up, the slice it
/// discarded (byte ranges), and its message.
#[derive(Debug)]
pub struct FluentParseError {
    pub pos: (usize, usize),
    pub slice: Option<(usize, usize)>,
    pub message: String,
}

pub struct FluentParseErrorV {
    pub pos: (nat, nat),
    pub slice: Option<(nat, nat)>,
    pub message: Seq<char>,
}

impl View for FluentParseError {
    type V = FluentParseErrorV;

    open spec fn view(&self) -> FluentParseErrorV {
        FluentParseErrorV {
            pos: (self.pos.0 as nat, self.pos.1 as nat),
            slice: match self.slice {
                Some(r) => Some((r.0 as nat, r.1 as nat)),
                None => None,
            },
            message: self.message@,
        }
    }
}

/// The character index at byte `b` of `s`, where `b` is a character boundary.
pub open spec fn boundary(s: Seq<char>, b: int) -> Option<int>
    decreases s.len(),
{
    if b == 0 {
        Some(0)
    } else if s.len() == 0 || b < char_width(s[0]) {
        None
    } else {
        match boundary(s.drop_first(), b - char_width(s[0])) {
            Some(i) => Some(i + 1),
            None => None,
        }
    }
}

pub proof fn lemma_boundary(s: Seq<char>, b: int)
    requires
        b >= 0,
    ensures
        boundary(s, b) matches Some(i) ==> 0 <= i <= s.len() && utf8_len(s.take(i)) == b,
    decreases s.len(),
{
    if b != 0 && s.len() > 0 && b >= char_width(s[0]) {
        lemma_boundary(s.drop_first(), b - char_width(s[0]));
        if let Some(i) = boundary(s.drop_first(), b - char_width(s[0])) {
            assert(boundary(s, b) == Some(i + 1));
            let one = seq![s[0]];
            assert(one.last() == s[0]);
            assert(one.drop_last() =~= Seq::<char>::empty());
            assert(utf8_len(one.drop_last()) == 0);
            assert(utf8_len(one) == char_width(s[0]));
            lemma_utf8_len_concat(seq![s[0]], s.drop_first().take(i));
            assert(seq![s[0]] + s.drop_first().take(i) =~= s.take(i + 1));
            assert(seq![s[0]].drop_last() =~= Seq::<char>::empty());
        }
    } else if b == 0 {
        assert(s.take(0) =~= Seq::<char>::empty());
    }
}

/// `str::get(a..b)`: the characters between bytes `a` and `b`, where both are
/// character boundaries in order.
pub open spec fn str_get(s: Seq<char>, a: int, b: int) -> Option<Seq<char>> {
    match boundary(s, a) {
        Some(i) => match boundary(s, b) {
            Some(j) => if i <= j {
                Some(s.subrange(i, j))
            } else {
                None
            },
            None => None,
        },
        None => None,
    }
}

fn byte_index(v: &Vec<char>, b: usize) -> (r: Option<usize>)
    ensures
        r matches Some(k) ==> boundary(v@, b as int) == Some(k as int),
        r is None ==> boundary(v@, b as int) is None,
{
    let mut i: usize = 0;
    let mut rem = b;
    proof {
        assert(v@.skip(0) =~= v@);
    }
    loop
        invariant
            i <= v@.len(),
            boundary(v@, b as int) == match boundary(v@.skip(i as int), rem as int) {
                Some(k) => Some(k + i),
                None => None,
            },
        decreases v@.len() - i,
    {
        proof {
            lemma_boundary(v@.skip(i as int), rem as int);
        }
        if rem == 0 {
            return Some(i);
        }
        if i == v.len() {
            return None;
        }
        let w = char_len_utf8(v[i]);
        assert(v@.skip(i as int)[0] == v@[i as int]);
        if rem < w {
            return None;
        }
        assert(v@.skip(i as int).drop_first() =~= v@.skip(i + 1));
        rem = rem - w;
        i = i + 1;
    }
}

/// `str::get(a..b)` as character indices.
pub fn get_range(v: &Vec<char>, a: usize, b: usize) -> (r: Option<(usize, usize)>)
    ensures
        match str_get(v@, a as int, b as int) {
            Some(t) => r matches Some((i, j)) && i <= j <= v@.len() && v@.subrange(i as int, j as int)
                == t && utf8_len(v@.take(i as int)) == a && utf8_len(v@.take(j as int)) == b,
            None => r is None,
        },
{
    proof {
        lemma_boundary(v@, a as int);
        lemma_boundary(v@, b as int);
    }
    match byte_index(v, a) {
        Some(i) => match byte_index(v, b) {
            Some(j) => if i <= j {
                Some((i, j))
            } else {
                None
            },
            None => None,
        },
        None => None,
    }
}

/// The mistake behind a parse error: looked for, in turn, as a tab, an
/// attribute without `=` and a bad placeable inside the discarded slice;
/// else where the parser gave up, with its own message.
pub open spec fn diagnosis_of(source: Seq<char>, e: FluentParseErrorV) -> DiagnosisV {
    let (a, b) = match e.slice {
        Some(r) => r,
        None => e.pos,
    };
    let fallback = DiagnosisV { start: e.pos.0, end: e.pos.1, message: e.message, help: None };
    match str_get(source, a as int, b as int) {
        None => fallback,
        Some(text) => match tab_diagnosis(a, text) {
            Some(d) => d,
            None => match attr_diagnosis(a, text) {
                Some(d) => d,
                None => match placeable_diagnosis(a, text, 0) {
                    Some(d) => d,
                    None => fallback,
                },
            },
        },
    }
}

/// Locates the real mistake behind a parser error (see [`diagnosis_of`]).
pub fn diagnose(source: &str, error: &FluentParseError) -> (d: Diagnosis)
    requires
        utf8_len(source@) <= usize::MAX,
    ensures
        diag_view(d) == diagnosis_of(source@, error@),
{
    let v = chars_of(source);
    let (a, b) = match error.slice {
        Some(r) => r,
        None => error.pos,
    };
    match get_range(&v, a, b) {
        Some((i, j)) => {
            proof {
                lemma_utf8_len_sub(v@, i as int, j as int);
                lemma_utf8_len_prefix(v@, j as int);
            }
            let text = string_of(&v, i, j);
            if let Some(d) = tab_indent(a, text.as_str()) {
                return d;
            }
            if let Some(d) = attribute_without_equals(a, text.as_str()) {
                return d;
            }
            if let Some(d) = invalid_placeable(a, text.as_str()) {
                return d;
            }
        },
        None => {},
    }
    Diagnosis { start: error.pos.0, end: error.pos.1, message: error.message.clone(), help: None }
}

/// `n` spaces.
pub open spec fn spaces(n: nat) -> Seq<char> {
    Seq::new(n, |i: int| ' ')
}

/// `n` carets.
pub open spec fn carets(n: nat) -> Seq<char> {
    Seq::new(n, |i: int| '^')
}

/// Line `k` (from 0) of `source`, as `str::lines` splits it; empty past the
/// last.
pub open spec fn nth_line(source: Seq<char>, k: int) -> Seq<char> {
    if 0 <= k < lines(source).len() {
        lines(source)[k]
    } else {
        Seq::empty()
    }
}

/// How many characters to underline: those of the span on its first line,
/// at least one.
pub open spec fn underline_width(source: Seq<char>, d: DiagnosisV) -> nat {
    let w = match str_get(source, d.start as int, d.end as int) {
        Some(t) => if lines(t).len() > 0 {
            lines(t)[0].len()
        } else {
            0
        },
        None => 0,
    };
    if w < 1 {
        1
    } else {
        w
    }
}

pub open spec fn block_head(filename: Seq<char>, ln: Seq<char>, col: nat, message: Seq<char>) -> Seq<char> {
    "\n  "@ + filename + ":"@ + ln + ":"@ + dec_digits(col) + ": "@ + message
}

pub open spec fn block_text(ln: Seq<char>, text: Seq<char>) -> Seq<char> {
    "\n  "@ + ln + " | "@ + text
}

pub open spec fn block_caret(gutter: nat, col: nat, width: nat) -> Seq<char> {
    "\n  "@ + spaces(gutter) + " | "@ + spaces((col - 1) as nat) + carets(width)
}

pub open spec fn block_help(gutter: nat, help: Option<Seq<char>>) -> Seq<char> {
    match help {
        Some(h) => "\n  "@ + spaces(gutter) + " = help: "@ + h,
        None => Seq::empty(),
    }
}

/// One error's block of a report: where it is, its message, the line it is
/// on with a caret under the span, and the help where there is one.
pub open spec fn error_block(filename: Seq<char>, source: Seq<char>, e: FluentParseErrorV) -> Seq<
    char,
> {
    let d = diagnosis_of(source, e);
    let (line, col) = line_col_at(source, d.start as int);
    let ln = dec_digits(line);
    block_head(filename, ln, col, d.message) + block_text(ln, nth_line(source, line - 1))
        + block_caret(ln.len(), col, underline_width(source, d)) + block_help(ln.len(), d.help)
}

pub open spec fn error_blocks(
    filename: Seq<char>,
    source: Seq<char>,
    errors: Seq<FluentParseErrorV>,
) -> Seq<char>
    decreases errors.len(),
{
    if errors.len() == 0 {
        Seq::empty()
    } else {
        error_blocks(filename, source, errors.drop_last()) + error_block(
            filename,
            source,
            errors.last(),
        )
    }
}

/// The report of the parse errors of a file: how many messages were
/// skipped, then a block for each error.
pub open spec fn parse_report(filename: Seq<char>, source: Seq<char>, errors: Seq<FluentParseErrorV>) -> Seq<
    char,
> {
    filename + ": "@ + dec_digits(errors.len())
        + " message(s) could not be parsed and were skipped; the rest of the file loaded."@
        + error_blocks(filename, source, errors)
}

fn push_repeat(s: &mut String, c: char, n: usize)
    ensures
        final(s)@ == old(s)@ + Seq::new(n as nat, |i: int| c),
{
    let mut k: usize = 0;
    while k < n
        invariant
            k <= n,
            s@ == old(s)@ + Seq::new(k as nat, |i: int| c),
        decreases n - k,
    {
        push_char(s, c);
        k = k + 1;
        assert(s@ =~= old(s)@ + Seq::new(k as nat, |i: int| c));
    }
}

fn first_line_width(v: &Vec<char>, d: &Diagnosis) -> (w: usize)
    ensures
        w == underline_width(v@, diag_view(*d)),
{
    let mut w: usize = 0;
    match get_range(v, d.start, d.end) {
        Some((i, j)) => {
            let t = string_of(v, i, j);
            let tv = chars_of(t.as_str());
            let ls = split_lines(&tv);
            if ls.len() > 0 {
                w = ls[0].len();
            }
        },
        None => {},
    }
    if w < 1 {
        1
    } else {
        w
    }
}

fn push_head(out: &mut String, filename: &str, ln: &str, col: usize, message: &str)
    ensures
        final(out)@ == old(out)@ + block_head(filename@, ln@, col as nat, message@),
{
    push_str(out, "\n  ");
    push_str(out, filename);
    push_str(out, ":");
    push_str(out, ln);
    push_str(out, ":");
    push_dec(out, col as u64);
    push_str(out, ": ");
    push_str(out, message);
    assert(out@ =~= old(out)@ + block_head(filename@, ln@, col as nat, message@));
}

fn push_text(out: &mut String, ln: &str, text: &Vec<char>)
    ensures
        final(out)@ == old(out)@ + block_text(ln@, text@),
{
    push_str(out, "\n  ");
    push_str(out, ln);
    push_str(out, " | ");
    push_chars(out, text, 0, text.len());
    assert(text@.subrange(0, text@.len() as int) =~= text@);
    assert(out@ =~= old(out)@ + block_text(ln@, text@));
}

fn push_caret(out: &mut String, gutter: usize, col: usize, width: usize)
    requires
        col >= 1,
    ensures
        final(out)@ == old(out)@ + block_caret(gutter as nat, col as nat, width as nat),
{
    push_str(out, "\n  ");
    push_repeat(out, ' ', gutter);
    push_str(out, " | ");
    push_repeat(out, ' ', col - 1);
    push_repeat(out, '^', width);
    assert(out@ =~= old(out)@ + block_caret(gutter as nat, col as nat, width as nat));
}

fn push_help(out: &mut String, gutter: usize, help: &Option<String>)
    ensures
        final(out)@ == old(out)@ + block_help(
            gutter as nat,
            match help {
                Some(h) => Some(h@),
                None => None,
            },
        ),
{
    match help {
        Some(h) => {
            push_str(out, "\n  ");
            push_repeat(out, ' ', gutter);
            push_str(out, " = help: ");
            push_str(out, h.as_str());
            assert(out@ =~= old(out)@ + block_help(gutter as nat, Some(h@)));
        },
        None => {
            assert(out@ =~= old(out)@ + block_help(gutter as nat, None));
        },
    }
}

fn error_report(
    filename: &str,
    source: &str,
    v: &Vec<char>,
    ls: &Vec<Vec<char>>,
    e: &FluentParseError,
    out: &mut String,
)
    requires
        v@ == source@,
        ls@.len() == lines(source@).len(),
        forall|k: int| 0 <= k < ls@.len() ==> #[trigger] ls@[k]@ == lines(source@)[k],
        source@.len() < usize::MAX,
        utf8_len(source@) <= usize::MAX,
    ensures
        final(out)@ == old(out)@ + error_block(filename@, source@, e@),
{
    let d = diagnose(source, e);
    let (line, col) = line_col(source, d.start);
    proof {
        lemma_chars_before_bound(source@, d.start as int);
        lemma_line_col_bound(source@.take(chars_before(source@, d.start as int) as int));
    }
    let ln = crate::num::dec_string(line as u64);
    let gutter = ln.as_str().unicode_len();
    let ghost o0 = out@;
    push_head(out, filename, ln.as_str(), col, d.message.as_str());
    let ghost o1 = out@;
    let empty: Vec<char> = Vec::new();
    let text = if line - 1 < ls.len() {
        &ls[line - 1]
    } else {
        &empty
    };
    assert(text@ == nth_line(source@, line - 1));
    push_text(out, ln.as_str(), text);
    let ghost o2 = out@;
    let width = first_line_width(v, &d);
    push_caret(out, gutter, col, width);
    let ghost o3 = out@;
    push_help(out, gutter, &d.help);
    proof {
        let dv = diagnosis_of(source@, e@);
        assert(o1 == o0 + block_head(filename@, ln@, col as nat, dv.message));
        assert(o2 == o1 + block_text(ln@, nth_line(source@, line - 1)));
        assert(o3 == o2 + block_caret(ln@.len(), col as nat, underline_width(source@, dv)));
        assert(out@ =~= o0 + (block_head(filename@, ln@, col as nat, dv.message) + block_text(
            ln@,
            nth_line(source@, line - 1),
        ) + block_caret(ln@.len(), col as nat, underline_width(source@, dv)) + block_help(
            ln@.len(),
            dv.help,
        )));
    }
}

/// Renders every parse error of a file as one block: how many messages were
/// skipped, then for each error its location, the offending line, and a
/// caret under the span that is wrong.
pub fn render_parse_errors(filename: &str, source: &str, errors: &Vec<FluentParseError>) -> (r: String)
    requires
        source@.len() < usize::MAX,
        utf8_len(source@) <= usize::MAX,
    ensures
        r@ == parse_report(filename@, source@, errors@.map_values(|e: FluentParseError| e@)),
{
    let ghost ev = errors@.map_values(|e: FluentParseError| e@);
    let v = chars_of(source);
    let ls = split_lines(&v);
    let mut out = String::new();
    push_str(&mut out, filename);
    push_str(&mut out, ": ");
    push_dec(&mut out, errors.len() as u64);
    push_str(&mut out, " message(s) could not be parsed and were skipped; the rest of the file loaded.");
    let ghost head = out@;
    let mut i: usize = 0;
    while i < errors.len()
        invariant
            i <= errors@.len(),
            v@ == source@,
            ev == errors@.map_values(|e: FluentParseError| e@),
            ls@.len() == lines(source@).len(),
            forall|k: int| 0 <= k < ls@.len() ==> #[trigger] ls@[k]@ == lines(source@)[k],
            source@.len() < usize::MAX,
            utf8_len(source@) <= usize::MAX,
            out@ == head + error_blocks(filename@, source@, ev.take(i as int)),
        decreases errors@.len() - i,
    {
        error_report(filename, source, &v, &ls, &errors[i], &mut out);
        assert(ev.take(i + 1).drop_last() =~= ev.take(i as int));
        i = i + 1;
    }
    assert(ev.take(errors@.len() as int) =~= ev);
    out
}

/// What fluent-syntax's runtime parser reports of a source: its errors, in
/// order.
pub uninterp spec fn fluent_errors(source: Seq<char>) -> Seq<FluentParseErrorV>;

/// fluent-syntax's `parser::parse_runtime`, the parser that
/// `FluentResource::try_new` runs: the errors it reports of `source`, in
/// order (none when it parses), each with where the parser gave up, the
/// slice it discarded and the message of its kind. The result is named
/// `fluent_errors`; the grammar behind it is not written out here.
#[verifier::external_body]
fn parse_fluent(source: &str) -> (errors: Vec<FluentParseError>)
    ensures
        errors@.map_values(|e: FluentParseError| e@) == fluent_errors(source@),
{
    match fluent_syntax::parser::parse_runtime(source) {
        Ok(_) => Vec::new(),
        Err((_, errors)) => errors.into_iter().map(|e| FluentParseError {
            pos: (e.pos.start, e.pos.end),
            slice: e.slice.map(|r| (r.start, r.end)),
            message: e.kind.to_string(),
        }).collect(),
    }
}

/// Parses a Fluent file; where messages could not be parsed (and were
/// skipped), the report of its errors for the log.
pub fn report_parse_errors(filename: &str, source: &str) -> (r: Option<String>)
    requires
        source@.len() < usize::MAX,
        utf8_len(source@) <= usize::MAX,
    ensures
        r is None <==> fluent_errors(source@).len() == 0,
        r matches Some(s) ==> s@ == parse_report(filename@, source@, fluent_errors(source@)),
{
    let errors = parse_fluent(source);
    if errors.len() == 0 {
        return None;
    }
    Some(render_parse_errors(filename, source, &errors))
}

/// The quality text of an `Accept-Language` entry's parameter: what follows
/// `q=`.
pub open spec fn quality_text(q: Seq<char>) -> Option<Seq<char>> {
    if q.len() >= 2 && q[0] == 'q' && q[1] == '=' {
        Some(q.skip(2))
    } else {
        None
    }
}

/// A trimmed, non-empty entry of an `Accept-Language` header: its language
/// tag, and its quality text where it gives one.
pub open spec fn accept_entry(e: Seq<char>) -> (Seq<char>, Option<Seq<char>>) {
    match first_of(e, ';') {
        Some(i) => (trim(e.take(i)), quality_text(trim(e.skip(i + 1)))),
        None => (e, None),
    }
}

/// The entries of an `Accept-Language` header, in order: its `,`-separated
/// parts, trimmed, the empty ones left out.
pub open spec fn accept_entries(parts: Seq<Seq<char>>) -> Seq<(Seq<char>, Option<Seq<char>>)>
    decreases parts.len(),
{
    if parts.len() == 0 {
        Seq::empty()
    } else {
        let rest = accept_entries(parts.drop_last());
        let e = trim(parts.last());
        if e.len() == 0 {
            rest
        } else {
            rest.push(accept_entry(e))
        }
    }
}

pub open spec fn entries_view(v: Seq<(String, Option<String>)>) -> Seq<(Seq<char>, Option<Seq<char>>)> {
    v.map_values(
        |x: (String, Option<String>)|
            (
                x.0@,
                match x.1 {
                    Some(q) => Some(q@),
                    None => None,
                },
            ),
    )
}

/// The language tags of an `Accept-Language` header with their quality
/// texts (`q=..`), in the order given; reading the qualities and the tags
/// and ranking them is left to the caller.
pub fn accept_language_entries(header: &str) -> (v: Vec<(String, Option<String>)>)
    ensures
        entries_view(v@) == accept_entries(split_on(header@, ',')),
{
    let parts = split_at_char(header, ',');
    let ghost pv = strings_view(parts@);
    let mut v: Vec<(String, Option<String>)> = Vec::new();
    let mut k: usize = 0;
    while k < parts.len()
        invariant
            k <= parts@.len(),
            pv == strings_view(parts@),
            pv == split_on(header@, ','),
            entries_view(v@) == accept_entries(pv.take(k as int)),
        decreases parts@.len() - k,
    {
        assert(pv.take(k + 1).drop_last() =~= pv.take(k as int));
        assert(pv.take(k + 1).last() == parts@[k as int]@);
        let e = trimmed(parts[k].as_str());
        if !e.as_str().is_empty() {
            let ev = chars_of(e.as_str());
            let ghost v0 = v@;
            assert(ev@.skip(0) =~= ev@);
            match find_from(&ev, 0, ';') {
                Some(i) => {
                    let lang_raw = string_of(&ev, 0, i);
                    assert(ev@.subrange(0, i as int) =~= ev@.take(i as int));
                    let lang = trimmed(lang_raw.as_str());
                    let q_raw = string_of(&ev, i + 1, ev.len());
                    assert(ev@.subrange(i + 1, ev@.len() as int) =~= ev@.skip(i + 1));
                    let q = trimmed(q_raw.as_str());
                    let qv = chars_of(q.as_str());
                    let qt = if qv.len() >= 2 && qv[0] == 'q' && qv[1] == '=' {
                        assert(qv@.subrange(2, qv@.len() as int) =~= qv@.skip(2));
                        Some(string_of(&qv, 2, qv.len()))
                    } else {
                        None
                    };
                    v.push((lang, qt));
                },
                None => {
                    v.push((e, None));
                },
            }
            assert(entries_view(v@) =~= entries_view(v0).push(accept_entry(trim(pv[k as int]))));
        }
        k = k + 1;
    }
    assert(pv.take(parts@.len() as int) =~= pv);
    v
}

} // verus!
