//! Which SSML documents ssml-parser reads without panicking. Four parts of
//! it can panic:
//! - a `contour` value that opens with `(` and has a piece `(..)` without a
//!   comma: the pair's second half is indexed without a look;
//! - a time value (`time`, `duration`, `fetchtimeout`, `clipBegin`, `clipEnd`,
//!   `repeatDur`) written with a non-ASCII decimal digit: its number matches
//!   the time pattern, whose `\d` is Unicode's, and then fails `f32`'s parse,
//!   which is unwrapped;
//! - a `<break time>` of 10^19 seconds or more, too long for a `Duration`,
//!   when the break's pause is taken;
//! - text read before the `<speak>` element opens: its offsets are kept across
//!   the reset that `<speak>` makes, and reading the events slices with them.
//!
//! The predicates here rule these out from the raw text. An attribute is
//! found wherever its name is followed by `=` and a quoted value; its value
//! is judged as written, so one holding a character reference (`&#..;`),
//! which could stand for any character, is left out with the others. What
//! comes before `<speak>` may be blanks, processing instructions, comments
//! and a document type without an internal subset.
use vstd::prelude::*;
use crate::text::{chars_of, is_whitespace, is_ws, starts_with_at};

verus! {

/// The characters that XML counts as white space (and attribute
/// normalisation turns into a space).
pub open spec fn is_sep(c: char) -> bool {
    c == ' ' || c == '\t' || c == '\n' || c == '\r'
}

pub open spec fn is_digit(c: char) -> bool {
    '0' <= c && c <= '9'
}

/// The number of ASCII digits that end `s[..n]`.
pub open spec fn digit_run(s: Seq<char>, n: int) -> nat
    decreases n,
{
    if n <= 0 || n > s.len() || !is_digit(s[n - 1]) {
        0
    } else {
        digit_run(s, n - 1) + 1
    }
}

/// The first position at or after `i` that is not XML white space.
pub open spec fn blank_end(s: Seq<char>, i: int) -> int
    decreases s.len() - i,
{
    if 0 <= i < s.len() && is_sep(s[i]) {
        blank_end(s, i + 1)
    } else {
        i
    }
}

/// The first `c` at or after `i`, or the end of `s`.
pub open spec fn next_char(s: Seq<char>, i: int, c: char) -> int
    decreases s.len() - i,
{
    if i < 0 || i >= s.len() {
        s.len() as int
    } else if s[i] == c {
        i
    } else {
        next_char(s, i + 1, c)
    }
}

/// An attribute written `name = "value"` (or with `'`) at `k`: where its
/// value starts and ends.
pub open spec fn attr_value(s: Seq<char>, k: int, name: Seq<char>) -> Option<(int, int)> {
    let a = k + name.len();
    if 0 <= k && a <= s.len() && s.subrange(k, a) == name {
        let e = blank_end(s, a);
        if 0 <= e < s.len() && s[e] == '=' {
            let p = blank_end(s, e + 1);
            if 0 <= p < s.len() && (s[p] == '"' || s[p] == '\'') {
                Some((p + 1, next_char(s, p + 1, s[p])))
            } else {
                None
            }
        } else {
            None
        }
    } else {
        None
    }
}

/// `v` holds a character reference.
pub open spec fn has_char_ref(v: Seq<char>) -> bool {
    exists|i: int| 0 <= i < v.len() - 1 && #[trigger] v[i] == '&' && v[i + 1] == '#'
}

pub open spec fn all_ascii(v: Seq<char>) -> bool {
    forall|i: int| 0 <= i < v.len() ==> (#[trigger] v[i] as u32) < 0x80
}

/// The number of digits in a row from `i`.
pub open spec fn lead_digits(t: Seq<char>, i: int) -> nat
    decreases t.len() - i,
{
    if 0 <= i < t.len() && is_digit(t[i]) {
        1 + lead_digits(t, i + 1)
    } else {
        0
    }
}

/// The number of `0`s in a row from `i`.
pub open spec fn lead_zeros(t: Seq<char>, i: int) -> nat
    decreases t.len() - i,
{
    if 0 <= i < t.len() && t[i] == '0' {
        1 + lead_zeros(t, i + 1)
    } else {
        0
    }
}

/// The number of digits in a time's whole part, after an optional `+` and
/// leading zeros.
pub open spec fn whole_digits(t: Seq<char>) -> nat {
    let from = if t.len() > 0 && t[0] == '+' { 1int } else { 0int };
    lead_digits(t, from + lead_zeros(t, from))
}

/// A time below 10^19 seconds, so that its duration fits: a whole part of
/// fewer than twenty digits, or of fewer than twenty-three in milliseconds.
pub open spec fn time_fits(t: Seq<char>) -> bool {
    whole_digits(t) < 20 || (whole_digits(t) < 23 && t.len() >= 2 && t[t.len() - 2] == 'm' && t[t.len() - 1]
        == 's')
}

/// A time value the parser reads without panicking: written in ASCII, with
/// no character reference; for a `<break time>`, whose duration is taken,
/// also below 10^19 seconds.
pub open spec fn time_value_ok(v: Seq<char>, is_break: bool) -> bool {
    &&& !has_char_ref(v)
    &&& all_ascii(v)
    &&& is_break ==> time_fits(v)
}

/// Every value of an attribute `name` is a time value read without panic.
pub open spec fn times_ok_for(s: Seq<char>, name: Seq<char>, is_break: bool) -> bool {
    forall|k: int|
        #![trigger attr_value(s, k, name)]
        attr_value(s, k, name) matches Some((b, e)) ==> time_value_ok(s.subrange(b, e), is_break)
}

/// The time values of the document are read without panic; `check_breaks`
/// adds that each `<break time>` fits a `Duration`.
pub open spec fn times_safe(s: Seq<char>, check_breaks: bool) -> bool {
    &&& times_ok_for(s, "time"@, check_breaks)
    &&& times_ok_for(s, "duration"@, false)
    &&& times_ok_for(s, "fetchtimeout"@, false)
    &&& times_ok_for(s, "clipBegin"@, false)
    &&& times_ok_for(s, "clipEnd"@, false)
    &&& times_ok_for(s, "repeatDur"@, false)
}

/// Reading back from `n` (exclusive) through a piece of `v` (its characters
/// between separators), there is no comma and the piece opens with `(`.
pub open spec fn piece_open(v: Seq<char>, n: int) -> bool
    decreases n,
{
    if n <= 0 || n > v.len() {
        false
    } else if is_sep(v[n - 1]) || v[n - 1] == ',' {
        false
    } else if n == 1 || is_sep(v[n - 2]) {
        v[n - 1] == '('
    } else {
        piece_open(v, n - 1)
    }
}

/// A piece `(..)` of `v` without a comma ends at `j`.
pub open spec fn pair_without_comma(v: Seq<char>, j: int) -> bool {
    &&& 1 <= j <= v.len()
    &&& v[j - 1] == ')'
    &&& j == v.len() || is_sep(v[j])
    &&& piece_open(v, j - 1)
}

/// A `contour` value the parser reads without panicking: with no character
/// reference, and, where it opens with `(` (a list of pairs), no piece
/// `(..)` without a comma.
pub open spec fn contour_value_ok(v: Seq<char>) -> bool {
    &&& !has_char_ref(v)
    &&& v.len() > 0 && v[0] == '(' ==> forall|j: int| !#[trigger] pair_without_comma(v, j)
}

pub open spec fn contour_safe(s: Seq<char>) -> bool {
    forall|k: int|
        #![trigger attr_value(s, k, "contour"@)]
        attr_value(s, k, "contour"@) matches Some((b, e)) ==> contour_value_ok(s.subrange(b, e))
}

/// The first `>` at or after `i` outside quotes (`q` is the quote open at
/// `i`, or a space), or the end of `s`; `-1` where `brackets` is set and a
/// `[` comes first outside quotes.
pub open spec fn gt_outside(s: Seq<char>, i: int, q: char, brackets: bool) -> int
    decreases s.len() - i,
{
    if i < 0 || i >= s.len() {
        s.len() as int
    } else if q == '"' || q == '\'' {
        if s[i] == q {
            gt_outside(s, i + 1, ' ', brackets)
        } else {
            gt_outside(s, i + 1, q, brackets)
        }
    } else if s[i] == '>' {
        i
    } else if s[i] == '"' || s[i] == '\'' {
        gt_outside(s, i + 1, s[i], brackets)
    } else if brackets && s[i] == '[' {
        -1
    } else {
        gt_outside(s, i + 1, q, brackets)
    }
}

/// The first `>` at or after `i`, or the end of `s`.
pub open spec fn next_gt(s: Seq<char>, i: int) -> int {
    next_char(s, i, '>')
}

/// `<?..?>` at `i`: where it ends (past its `>`), or `i`.
pub open spec fn pi_end(s: Seq<char>, i: int) -> int {
    let e = next_gt(s, i);
    if 0 <= i && i + 1 < s.len() && s[i] == '<' && s[i + 1] == '?' && e < s.len() && e >= i + 3
        && s[e - 1] == '?' && (forall|k: int| i < k < e ==> s[k] != '<') {
        e + 1
    } else {
        i
    }
}

/// `<!--..-->` at `i`: where it ends (past its `>`), or `i`.
pub open spec fn comment_end(s: Seq<char>, i: int) -> int {
    let e = next_gt(s, i + 4);
    if 0 <= i && i + 4 <= s.len() && s[i] == '<' && s[i + 1] == '!' && s[i + 2] == '-' && s[i + 3]
        == '-' && e < s.len() && e >= i + 6 && s[e - 1] == '-' && s[e - 2] == '-' {
        e + 1
    } else {
        i
    }
}

pub open spec fn doctype_tag() -> Seq<char> {
    seq!['<', '!', 'D', 'O', 'C', 'T', 'Y', 'P', 'E']
}

/// `<!DOCTYPE ..>` without an internal subset at `i`: where it ends, or `i`.
pub open spec fn doctype_end(s: Seq<char>, i: int) -> int {
    let e = gt_outside(s, i + 9, ' ', true);
    if 0 <= i && i + 9 <= s.len() && s.subrange(i, i + 9) == doctype_tag() && i + 9 <= e < s.len() {
        e + 1
    } else {
        i
    }
}

/// Past the markup at `i` that yields no text: a processing instruction, a
/// comment or a document type; `i` where none starts.
pub open spec fn markup_end(s: Seq<char>, i: int) -> int {
    if pi_end(s, i) != i {
        pi_end(s, i)
    } else if comment_end(s, i) != i {
        comment_end(s, i)
    } else {
        doctype_end(s, i)
    }
}

/// The end of the prolog: blanks and markup that yield no text.
pub open spec fn prolog_end(s: Seq<char>, i: int) -> int
    decreases s.len() - i,
{
    if i < 0 || i >= s.len() {
        i
    } else if is_ws(s[i]) {
        prolog_end(s, i + 1)
    } else {
        let e = markup_end(s, i);
        if i < e <= s.len() {
            prolog_end(s, e)
        } else {
            i
        }
    }
}

pub open spec fn speak_tag() -> Seq<char> {
    seq!['<', 's', 'p', 'e', 'a', 'k']
}

/// A `<speak>` start tag (not an empty `<speak/>`) begins at `p`.
pub open spec fn speak_opens_at(s: Seq<char>, p: int) -> bool {
    let j = gt_outside(s, p + 6, ' ', false);
    &&& 0 <= p && p + 7 <= s.len()
    &&& s.subrange(p, p + 6) == speak_tag()
    &&& (s[p + 6] == '>' || is_sep(s[p + 6]))
    &&& p + 6 <= j < s.len() && s[j - 1] != '/'
}

/// No tag of the document can be a `speak` start tag.
pub open spec fn no_speak(s: Seq<char>) -> bool {
    forall|i: int|
        0 <= i && i + 6 <= s.len() ==> !(#[trigger] s.subrange(i, i + 6) == speak_tag()
            || s.subrange(i, i + 6) == seq![':', 's', 'p', 'e', 'a', 'k'])
}

/// No text is read before `<speak>` opens: the document has no `speak` tag,
/// or it opens with one after its prolog.
pub open spec fn speak_leads(s: Seq<char>) -> bool {
    no_speak(s) || speak_opens_at(s, prolog_end(s, 0))
}

/// What reading a document's text needs.
pub open spec fn text_safe(s: Seq<char>) -> bool {
    contour_safe(s) && times_safe(s, false)
}

/// What reading a document's events needs.
pub open spec fn events_safe(s: Seq<char>) -> bool {
    contour_safe(s) && times_safe(s, true) && speak_leads(s)
}

// ---------------------------------------------------------------------------
// Checking.

fn is_sep_char(c: char) -> (r: bool)
    ensures
        r == is_sep(c),
{
    c == ' ' || c == '\t' || c == '\n' || c == '\r'
}

fn skip_blanks(v: &Vec<char>, from: usize) -> (r: usize)
    requires
        from <= v@.len(),
    ensures
        r == blank_end(v@, from as int),
        from <= r <= v@.len(),
{
    let mut i = from;
    while i < v.len() && is_sep_char(v[i])
        invariant
            from <= i <= v@.len(),
            blank_end(v@, i as int) == blank_end(v@, from as int),
        decreases v@.len() - i,
    {
        i = i + 1;
    }
    i
}

fn find_char(v: &Vec<char>, from: usize, c: char) -> (r: usize)
    requires
        from <= v@.len(),
    ensures
        r == next_char(v@, from as int, c),
        from <= r <= v@.len(),
        forall|k: int| from <= k < r ==> v@[k] != c,
{
    let mut i = from;
    while i < v.len() && v[i] != c
        invariant
            from <= i <= v@.len(),
            next_char(v@, i as int, c) == next_char(v@, from as int, c),
            forall|k: int| from <= k < i ==> v@[k] != c,
        decreases v@.len() - i,
    {
        i = i + 1;
    }
    i
}

fn sub_chars(v: &Vec<char>, from: usize, to: usize) -> (r: Vec<char>)
    requires
        from <= to <= v@.len(),
    ensures
        r@ == v@.subrange(from as int, to as int),
{
    let mut r: Vec<char> = Vec::new();
    let mut i = from;
    while i < to
        invariant
            from <= i <= to <= v@.len(),
            r@ == v@.subrange(from as int, i as int),
        decreases to - i,
    {
        r.push(v[i]);
        i = i + 1;
        assert(r@ =~= v@.subrange(from as int, i as int));
    }
    r
}

fn attr_value_exec(v: &Vec<char>, k: usize, name: &Vec<char>) -> (r: Option<(usize, usize)>)
    requires
        k <= v@.len(),
    ensures
        match attr_value(v@, k as int, name@) {
            Some((b, e)) => r matches Some((b2, e2)) && b2 == b && e2 == e && 0 < b <= e <= v@.len(),
            None => r is None,
        },
{
    if !starts_with_at(v, k, name) {
        return None;
    }
    let vl = v.len();
    let nl = name.len();
    assert(k + nl <= vl);
    let a = k + nl;
    let e = skip_blanks(v, a);
    if !(e < v.len() && v[e] == '=') {
        return None;
    }
    let p = skip_blanks(v, e + 1);
    if !(p < v.len() && (v[p] == '"' || v[p] == '\'')) {
        return None;
    }
    let end = find_char(v, p + 1, v[p]);
    Some((p + 1, end))
}

fn has_char_ref_exec(v: &Vec<char>) -> (r: bool)
    ensures
        r == has_char_ref(v@),
{
    let mut i: usize = 0;
    while i < v.len() && i < v.len() - 1
        invariant
            forall|k: int| 0 <= k < i && k < v@.len() - 1 ==> !(#[trigger] v@[k] == '&' && v@[k + 1] == '#'),
        decreases v@.len() - i,
    {
        if v[i] == '&' && v[i + 1] == '#' {
            return true;
        }
        i = i + 1;
    }
    false
}

pub fn all_ascii_exec(v: &Vec<char>) -> (r: bool)
    ensures
        r == all_ascii(v@),
{
    let mut i: usize = 0;
    while i < v.len()
        invariant
            i <= v@.len(),
            forall|k: int| 0 <= k < i ==> (#[trigger] v@[k] as u32) < 0x80,
        decreases v@.len() - i,
    {
        if (v[i] as u32) >= 0x80 {
            assert((v@[i as int] as u32) >= 0x80);
            return false;
        }
        i = i + 1;
    }
    true
}

fn lead_digits_exec(v: &Vec<char>, from: usize) -> (r: usize)
    requires
        from <= v@.len(),
    ensures
        r == lead_digits(v@, from as int),
{
    let vl = v.len();
    let mut i = vl;
    let mut n: usize = 0;
    while i > from
        invariant
            vl == v@.len(),
            from <= i <= vl,
            n == lead_digits(v@, i as int),
            n <= vl - i,
        decreases i,
    {
        i = i - 1;
        if '0' <= v[i] && v[i] <= '9' {
            n = n + 1;
        } else {
            n = 0;
        }
    }
    n
}

/// Whether the time `v` is below 10^19 seconds, as `time_fits` reads it.
pub fn time_fits_exec(v: &Vec<char>) -> (r: bool)
    ensures
        r == time_fits(v@),
{
    let from: usize = if v.len() > 0 && v[0] == '+' { 1 } else { 0 };
    let mut j = from;
    while j < v.len() && v[j] == '0'
        invariant
            from <= j <= v@.len(),
            lead_zeros(v@, from as int) == (j - from) + lead_zeros(v@, j as int),
        decreases v@.len() - j,
    {
        j = j + 1;
    }
    let n = lead_digits_exec(v, j);
    n < 20 || (n < 23 && v.len() >= 2 && v[v.len() - 2] == 'm' && v[v.len() - 1] == 's')
}

fn pairs_ok_exec(v: &Vec<char>) -> (r: bool)
    ensures
        r == forall|j: int| !#[trigger] pair_without_comma(v@, j),
{
    let ghost s = v@;
    let mut open = false;
    let mut i: usize = 0;
    while i < v.len()
        invariant
            s == v@,
            i <= s.len(),
            open == piece_open(s, i as int),
            forall|j: int| j <= i ==> !#[trigger] pair_without_comma(s, j),
        decreases s.len() - i,
    {
        let c = v[i];
        if c == ')' && open && (i + 1 == v.len() || is_sep_char(v[i + 1])) {
            assert(pair_without_comma(s, i + 1));
            return false;
        }
        open = if is_sep_char(c) || c == ',' {
            false
        } else if i == 0 || is_sep_char(v[i - 1]) {
            c == '('
        } else {
            open
        };
        i = i + 1;
    }
    true
}

fn contour_value_exec(v: &Vec<char>) -> (r: bool)
    ensures
        r == contour_value_ok(v@),
{
    if has_char_ref_exec(v) {
        return false;
    }
    if v.len() > 0 && v[0] == '(' {
        pairs_ok_exec(v)
    } else {
        true
    }
}

fn time_value_exec(v: &Vec<char>, is_break: bool) -> (r: bool)
    ensures
        r == time_value_ok(v@, is_break),
{
    !has_char_ref_exec(v) && all_ascii_exec(v) && (!is_break || time_fits_exec(v))
}

/// Whether every value of the attribute `name` is a time value read
/// without panic.
fn times_ok_exec(v: &Vec<char>, name: &str, is_break: bool) -> (r: bool)
    ensures
        r == times_ok_for(v@, name@, is_break),
{
    let nm = chars_of(name);
    let mut k: usize = 0;
    while k < v.len()
        invariant
            k <= v@.len(),
            nm@ == name@,
            forall|m: int|
                #![trigger attr_value(v@, m, name@)]
                0 <= m < k ==> (attr_value(v@, m, name@) matches Some((b, e)) ==> time_value_ok(
                    v@.subrange(b, e),
                    is_break,
                )),
        decreases v@.len() - k,
    {
        match attr_value_exec(v, k, &nm) {
            Some((b, e)) => {
                let val = sub_chars(v, b, e);
                if !time_value_exec(&val, is_break) {
                    return false;
                }
            },
            None => {},
        }
        k = k + 1;
    }
    match attr_value_exec(v, k, &nm) {
        Some((b, e)) => {
            let val = sub_chars(v, b, e);
            if !time_value_exec(&val, is_break) {
                return false;
            }
        },
        None => {},
    }
    assert forall|m: int| #![trigger attr_value(v@, m, name@)]
        (attr_value(v@, m, name@) matches Some((b, e)) ==> time_value_ok(v@.subrange(b, e), is_break)) by {
        if m < 0 || m > v@.len() {
            assert(attr_value(v@, m, name@) is None);
        } else if m < v@.len() {
        }
    }
    true
}

fn times_exec(v: &Vec<char>, check_breaks: bool) -> (r: bool)
    ensures
        r == times_safe(v@, check_breaks),
{
    times_ok_exec(v, "time", check_breaks) && times_ok_exec(v, "duration", false) && times_ok_exec(
        v,
        "fetchtimeout",
        false,
    ) && times_ok_exec(v, "clipBegin", false) && times_ok_exec(v, "clipEnd", false) && times_ok_exec(
        v,
        "repeatDur",
        false,
    )
}

fn contour_exec(v: &Vec<char>) -> (r: bool)
    ensures
        r == contour_safe(v@),
{
    let nm = chars_of("contour");
    let mut k: usize = 0;
    while k < v.len()
        invariant
            k <= v@.len(),
            nm@ == "contour"@,
            forall|m: int|
                #![trigger attr_value(v@, m, "contour"@)]
                0 <= m < k ==> (attr_value(v@, m, "contour"@) matches Some((b, e))
                    ==> contour_value_ok(v@.subrange(b, e))),
        decreases v@.len() - k,
    {
        match attr_value_exec(v, k, &nm) {
            Some((b, e)) => {
                let val = sub_chars(v, b, e);
                if !contour_value_exec(&val) {
                    return false;
                }
            },
            None => {},
        }
        k = k + 1;
    }
    match attr_value_exec(v, k, &nm) {
        Some((b, e)) => {
            let val = sub_chars(v, b, e);
            if !contour_value_exec(&val) {
                return false;
            }
        },
        None => {},
    }
    assert forall|m: int| #![trigger attr_value(v@, m, "contour"@)]
        (attr_value(v@, m, "contour"@) matches Some((b, e)) ==> contour_value_ok(v@.subrange(b, e))) by {
        if m < 0 || m > v@.len() {
            assert(attr_value(v@, m, "contour"@) is None);
        }
    }
    true
}

fn gt_outside_exec(v: &Vec<char>, from: usize, brackets: bool) -> (r: Option<usize>)
    requires
        from <= v@.len(),
    ensures
        match r {
            Some(j) => j as int == gt_outside(v@, from as int, ' ', brackets) && from <= j <= v@.len(),
            None => gt_outside(v@, from as int, ' ', brackets) == -1,
        },
{
    let mut i = from;
    let mut q = ' ';
    while i < v.len()
        invariant
            from <= i <= v@.len(),
            q == ' ' || q == '"' || q == '\'',
            gt_outside(v@, i as int, q, brackets) == gt_outside(v@, from as int, ' ', brackets),
        decreases v@.len() - i,
    {
        let c = v[i];
        if q == '"' || q == '\'' {
            if c == q {
                q = ' ';
            }
        } else if c == '>' {
            return Some(i);
        } else if c == '"' || c == '\'' {
            q = c;
        } else if brackets && c == '[' {
            return None;
        }
        i = i + 1;
    }
    Some(i)
}

fn pi_end_exec(v: &Vec<char>, i: usize) -> (r: usize)
    requires
        i <= v@.len(),
    ensures
        r == pi_end(v@, i as int),
{
    let e = find_char(v, i, '>');
    if !(i < v.len() && v.len() - i > 1 && v[i] == '<' && v[i + 1] == '?' && e < v.len() && e - i >= 3
        && v[e - 1] == '?') {
        return i;
    }
    let mut k = i + 1;
    while k < e
        invariant
            i < k <= e,
            e < v@.len(),
            e == next_gt(v@, i as int),
            i + 1 < v@.len() && v@[i as int] == '<' && v@[i + 1] == '?' && e >= i + 3 && v@[e - 1]
                == '?',
            forall|m: int| i < m < k ==> v@[m] != '<',
        decreases e - k,
    {
        if v[k] == '<' {
            assert(v@[k as int] == '<');
            return i;
        }
        k = k + 1;
    }
    e + 1
}

fn comment_end_exec(v: &Vec<char>, i: usize) -> (r: usize)
    requires
        i <= v@.len(),
    ensures
        r == comment_end(v@, i as int),
{
    if !(v.len() - i >= 4 && v[i] == '<' && v[i + 1] == '!' && v[i + 2] == '-' && v[i + 3] == '-') {
        return i;
    }
    let e = find_char(v, i + 4, '>');
    if e < v.len() && e - i >= 6 && v[e - 1] == '-' && v[e - 2] == '-' {
        e + 1
    } else {
        i
    }
}

fn doctype_end_exec(v: &Vec<char>, i: usize) -> (r: usize)
    requires
        i <= v@.len(),
    ensures
        r == doctype_end(v@, i as int),
{
    let tag = vec!['<', '!', 'D', 'O', 'C', 'T', 'Y', 'P', 'E'];
    assert(tag@ == doctype_tag());
    if !(v.len() - i >= 9 && starts_with_at(v, i, &tag)) {
        return i;
    }
    match gt_outside_exec(v, i + 9, true) {
        Some(e) => {
            if e < v.len() {
                e + 1
            } else {
                i
            }
        },
        None => i,
    }
}

fn markup_end_exec(v: &Vec<char>, i: usize) -> (r: usize)
    requires
        i <= v@.len(),
    ensures
        r == markup_end(v@, i as int),
{
    let p = pi_end_exec(v, i);
    if p != i {
        return p;
    }
    let c = comment_end_exec(v, i);
    if c != i {
        return c;
    }
    doctype_end_exec(v, i)
}

fn prolog_end_exec(v: &Vec<char>) -> (r: usize)
    ensures
        r as int == prolog_end(v@, 0),
        r <= v@.len(),
{
    let mut i: usize = 0;
    while i < v.len()
        invariant
            i <= v@.len(),
            prolog_end(v@, i as int) == prolog_end(v@, 0),
        decreases v@.len() - i,
    {
        if is_whitespace(v[i]) {
            i = i + 1;
        } else {
            let e = markup_end_exec(v, i);
            if i < e && e <= v.len() {
                i = e;
            } else {
                return i;
            }
        }
    }
    i
}

fn speak_at(v: &Vec<char>, p: usize) -> (r: bool)
    requires
        p <= v@.len(),
    ensures
        r == speak_opens_at(v@, p as int),
{
    let tag = vec!['<', 's', 'p', 'e', 'a', 'k'];
    assert(tag@ == speak_tag());
    if !(v.len() - p >= 7 && starts_with_at(v, p, &tag)) {
        return false;
    }
    if !(v[p + 6] == '>' || is_sep_char(v[p + 6])) {
        return false;
    }
    match gt_outside_exec(v, p + 6, false) {
        Some(j) => j < v.len() && v[j - 1] != '/',
        None => false,
    }
}

fn no_speak_exec(v: &Vec<char>) -> (r: bool)
    ensures
        r == no_speak(v@),
{
    let a = vec!['<', 's', 'p', 'e', 'a', 'k'];
    let b = vec![':', 's', 'p', 'e', 'a', 'k'];
    assert(a@ == speak_tag());
    assert(b@ == seq![':', 's', 'p', 'e', 'a', 'k']);
    let mut i: usize = 0;
    while i < v.len()
        invariant
            i <= v@.len(),
            a@ == speak_tag(),
            b@ == seq![':', 's', 'p', 'e', 'a', 'k'],
            forall|m: int|
                0 <= m < i && m + 6 <= v@.len() ==> !(#[trigger] v@.subrange(m, m + 6) == a@
                    || v@.subrange(m, m + 6) == b@),
        decreases v@.len() - i,
    {
        if starts_with_at(v, i, &a) || starts_with_at(v, i, &b) {
            return false;
        }
        i = i + 1;
    }
    true
}

/// Whether a document's text can be read without panicking, as
/// `text_safe` judges.
pub fn text_checked(input: &str) -> (r: bool)
    ensures
        r == text_safe(input@),
{
    let v = chars_of(input);
    contour_exec(&v) && times_exec(&v, false)
}

/// Whether a document's events can be read without panicking, as
/// `events_safe` judges.
pub fn events_checked(input: &str) -> (r: bool)
    ensures
        r == events_safe(input@),
{
    let v = chars_of(input);
    contour_exec(&v) && times_exec(&v, true) && (no_speak_exec(&v) || speak_at(&v, prolog_end_exec(&v)))
}

} // verus!
