//! Error-message conversion: identifiers made of any title (ASCII letters and
//! digits kept, lower-cased; space as `-`, punctuation as `_`, any other
//! character as `_uXXXX` or `_UXXXXXX`) and back, and the variable syntax of
//! the message texts.
use vstd::prelude::*;
use vstd::utf8::is_scalar;
use crate::num::{hex_digit, hex_upper, hex_upper_char, hex_val};
use crate::num::{dec_digits, push_dec};
use crate::text::{
    chars_of, contains_seq, contains_str, lower_ascii_char, push_char, push_str, replace_all, replaced,
    to_ascii_lower,
};

verus! {

broadcast use vstd::string::group_string_axioms;

/// `char::is_ascii_punctuation`.
pub open spec fn is_ascii_punct(c: char) -> bool {
    ('!' <= c && c <= '/') || (':' <= c && c <= '@') || ('[' <= c && c <= '`') || ('{' <= c
        && c <= '~')
}

/// The last `n` upper-case hex digits of `v`, zero-padded.
pub open spec fn hex_digits(v: nat, n: nat) -> Seq<char>
    decreases n,
{
    if n == 0 {
        Seq::empty()
    } else {
        hex_digits(v / 16, (n - 1) as nat).push(hex_upper(v % 16))
    }
}

/// How a character of a title stands in an identifier.
pub open spec fn id_char(c: char) -> Seq<char> {
    if ('a' <= c && c <= 'z') || ('0' <= c && c <= '9') || c == '-' {
        seq![c]
    } else if 'A' <= c && c <= 'Z' {
        seq![lower_ascii_char(c)]
    } else if c == ' ' {
        seq!['-']
    } else if is_ascii_punct(c) {
        seq!['_']
    } else if (c as u32) <= 0xFFFF {
        seq!['_', 'u'] + hex_digits((c as u32) as nat, 4)
    } else {
        seq!['_', 'U'] + hex_digits((c as u32) as nat, 6)
    }
}

/// The identifier made of `s`.
pub open spec fn identifier(s: Seq<char>) -> Seq<char>
    decreases s.len(),
{
    if s.len() == 0 {
        Seq::empty()
    } else {
        id_char(s[0]) + identifier(s.drop_first())
    }
}

fn is_punct(c: char) -> (r: bool)
    ensures
        r == is_ascii_punct(c),
{
    ('!' <= c && c <= '/') || (':' <= c && c <= '@') || ('[' <= c && c <= '`') || ('{' <= c
        && c <= '~')
}

fn push_hex(s: &mut String, v: u32, n: u32)
    requires
        n <= 8,
    ensures
        final(s)@ == old(s)@ + hex_digits(v as nat, n as nat),
    decreases n,
{
    if n > 0 {
        push_hex(s, v / 16, n - 1);
        push_char(s, hex_upper_char(v % 16));
        assert(hex_digits(v as nat, n as nat) == hex_digits((v / 16) as nat, (n - 1) as nat).push(
            hex_upper((v % 16) as nat),
        ));
        assert(final(s)@ =~= old(s)@ + hex_digits(v as nat, n as nat));
    } else {
        assert(old(s)@ + hex_digits(v as nat, 0) =~= old(s)@);
    }
}

/// A title as an identifier: ASCII letters (lower-cased), digits and `-`
/// kept, space as `-`, ASCII punctuation as `_`, any other character as
/// `_uXXXX` (up to U+FFFF) or `_UXXXXXX`.
pub fn encode_unicode_identifier(s: &str) -> (r: String)
    ensures
        r@ == identifier(s@),
{
    let v = chars_of(s);
    let mut out = String::new();
    let mut i: usize = 0;
    assert(v@.skip(0) =~= v@);
    while i < v.len()
        invariant
            i <= v@.len(),
            v@ == s@,
            out@ + identifier(v@.skip(i as int)) == identifier(v@),
        decreases v@.len() - i,
    {
        let c = v[i];
        let ghost o0 = out@;
        assert(v@.skip(i as int).drop_first() =~= v@.skip(i + 1));
        assert(identifier(v@.skip(i as int)) == id_char(c) + identifier(v@.skip(i + 1)));
        if ('a' <= c && c <= 'z') || ('0' <= c && c <= '9') || c == '-' {
            push_char(&mut out, c);
        } else if 'A' <= c && c <= 'Z' {
            push_char(&mut out, to_ascii_lower(c));
        } else if c == ' ' {
            push_char(&mut out, '-');
        } else if is_punct(c) {
            push_char(&mut out, '_');
        } else if (c as u32) <= 0xFFFF {
            push_char(&mut out, '_');
            push_char(&mut out, 'u');
            push_hex(&mut out, c as u32, 4);
        } else {
            push_char(&mut out, '_');
            push_char(&mut out, 'U');
            push_hex(&mut out, c as u32, 6);
        }
        assert(out@ =~= o0 + id_char(c));
        assert(out@ + identifier(v@.skip(i + 1)) =~= o0 + identifier(v@.skip(i as int)));
        i = i + 1;
    }
    assert(v@.skip(i as int) =~= Seq::<char>::empty());
    assert(out@ + identifier(v@.skip(i as int)) =~= out@);
    out
}

/// The value of hex digits.
pub open spec fn hex_value(s: Seq<char>) -> nat
    decreases s.len(),
{
    if s.len() == 0 {
        0
    } else {
        hex_value(s.drop_last()) * 16 + hex_val(s.last()).unwrap()
    }
}

pub open spec fn all_hex(s: Seq<char>) -> bool {
    forall|i: int| 0 <= i < s.len() ==> (#[trigger] hex_val(s[i])) is Some
}

/// `u32::from_str_radix(s, 16)` on a short string: an optional `+` before
/// at least one hex digit.
pub open spec fn radix16(s: Seq<char>) -> Option<nat> {
    let d = if s.len() > 1 && s[0] == '+' {
        s.drop_first()
    } else {
        s
    };
    if d.len() > 0 && all_hex(d) {
        Some(hex_value(d))
    } else {
        None
    }
}

/// The character that `n` taken characters of an escape stand for, if they
/// make one.
pub open spec fn escape_char(taken: Seq<char>, n: nat) -> Option<char> {
    if taken.len() == n {
        match radix16(taken) {
            Some(v) => if v <= u32::MAX && is_scalar(v as u32) {
                Some((v as u32) as char)
            } else {
                None
            },
            None => None,
        }
    } else {
        None
    }
}

/// An identifier with its `_uXXXX` and `_UXXXXXX` escapes decoded. Each
/// escape takes the next 4 (or 6) characters, or what is left; where they do
/// not make a character, `_`, the letter and the taken characters stay.
pub open spec fn decoded_identifier(s: Seq<char>) -> Seq<char>
    decreases s.len(),
{
    if s.len() == 0 {
        Seq::empty()
    } else if s[0] == '_' && s.len() > 1 && (s[1] == 'u' || s[1] == 'U') {
        let n: nat = if s[1] == 'u' {
            4
        } else {
            6
        };
        let end = if s.len() < 2 + n {
            s.len() as int
        } else {
            (2 + n) as int
        };
        let taken = s.subrange(2, end);
        match escape_char(taken, n) {
            Some(c) => seq![c] + decoded_identifier(s.skip(end)),
            None => seq!['_', s[1]] + taken + decoded_identifier(s.skip(end)),
        }
    } else {
        seq![s[0]] + decoded_identifier(s.skip(1))
    }
}

/// std's `char::from_u32`: the character of a Unicode scalar value, `None`
/// for a surrogate or a value past U+10FFFF.
#[verifier::external_body]
fn char_from_u32(v: u32) -> (r: Option<char>)
    ensures
        r == (if is_scalar(v) {
            Some(v as char)
        } else {
            None::<char>
        }),
{
    char::from_u32(v)
}

/// Reads `v[from..to]` as `u32::from_str_radix(.., 16)` does, for at most 6
/// characters.
fn parse_radix16(v: &Vec<char>, from: usize, to: usize) -> (r: Option<u32>)
    requires
        from <= to <= v@.len(),
        to - from <= 6,
    ensures
        match radix16(v@.subrange(from as int, to as int)) {
            Some(x) => r == Some(x as u32) && x < 0x1000000,
            None => r is None,
        },
{
    let ghost s = v@.subrange(from as int, to as int);
    let mut i = from;
    if to - from > 1 && v[from] == '+' {
        i = from + 1;
    }
    let ghost d = v@.subrange(i as int, to as int);
    assert(d == (if s.len() > 1 && s[0] == '+' {
        s.drop_first()
    } else {
        s
    }));
    if i == to {
        return None;
    }
    let start = i;
    let mut acc: u32 = 0;
    while i < to
        invariant
            start <= i <= to <= v@.len(),
            to - start <= 6,
            d == v@.subrange(start as int, to as int),
            s == v@.subrange(from as int, to as int),
            d == (if s.len() > 1 && s[0] == '+' {
                s.drop_first()
            } else {
                s
            }),
            all_hex(v@.subrange(start as int, i as int)),
            acc == hex_value(v@.subrange(start as int, i as int)),
            acc < pow16(i - start),
        decreases to - i,
    {
        match hex_digit(v[i]) {
            Some(h) => {
                proof {
                    let p = v@.subrange(start as int, i + 1);
                    assert(p.drop_last() =~= v@.subrange(start as int, i as int));
                    assert(p.last() == v@[i as int]);
                    lemma_pow16_step(i - start);
                    lemma_pow16_mono(i - start + 1, 6);
                    lemma_pow16_six();
                }
                acc = acc * 16 + h;
                proof {
                    let p = v@.subrange(start as int, i + 1);
                    assert forall|k: int| 0 <= k < p.len() implies (#[trigger] hex_val(p[k])) is Some by {
                        if k < p.len() - 1 {
                            assert(p[k] == v@.subrange(start as int, i as int)[k]);
                        }
                    }
                }
                i = i + 1;
            },
            None => {
                proof {
                    assert(d[i - start] == v@[i as int]);
                    assert(hex_val(d[i - start]) is None);
                }
                return None;
            },
        }
    }
    proof {
        lemma_pow16_step(0);
        assert(pow16((to - start) as int) <= 0x1000000) by {
            lemma_pow16_mono((to - start) as int, 6);
            lemma_pow16_six();
        }
    }
    Some(acc)
}

pub open spec fn pow16(n: int) -> nat
    decreases n,
{
    if n <= 0 {
        1
    } else {
        16 * pow16(n - 1)
    }
}

proof fn lemma_pow16_six()
    ensures
        pow16(6) == 0x1000000,
{
    reveal_with_fuel(pow16, 7);
}

proof fn lemma_pow16_step(n: int)
    requires
        0 <= n,
    ensures
        pow16(n + 1) == 16 * pow16(n),
        pow16(n) >= 1,
    decreases n,
{
    if n > 0 {
        lemma_pow16_step(n - 1);
    }
}

proof fn lemma_pow16_mono(a: int, b: int)
    requires
        0 <= a <= b,
    ensures
        pow16(a) <= pow16(b),
    decreases b - a,
{
    if a < b {
        lemma_pow16_mono(a, b - 1);
        lemma_pow16_step(b - 1);
    }
}

/// Decodes the escape that starts at `v[i]` (`_u` or `_U`) onto `out`;
/// returns where the characters it took end.
fn push_escape(out: &mut String, v: &Vec<char>, i: usize) -> (end: usize)
    requires
        i + 1 < v.len(),
        v@[i as int] == '_',
        v@[i + 1] == 'u' || v@[i + 1] == 'U',
    ensures
        i + 2 <= end <= v@.len(),
        final(out)@ + decoded_identifier(v@.skip(end as int)) == old(out)@ + decoded_identifier(
            v@.skip(i as int),
        ),
{
    let ghost t = v@.skip(i as int);
    let letter = v[i + 1];
    let n: usize = if letter == 'u' {
        4
    } else {
        6
    };
    let end = if v.len() - (i + 2) < n {
        v.len()
    } else {
        i + 2 + n
    };
    let ghost taken = v@.subrange(i + 2, end as int);
    assert(t.subrange(2, end - i) =~= taken);
    assert(t.skip(end - i) =~= v@.skip(end as int));
    let mut decoded: Option<char> = None;
    if end - (i + 2) == n {
        match parse_radix16(v, i + 2, end) {
            Some(x) => {
                decoded = char_from_u32(x);
            },
            None => {},
        }
    }
    assert(decoded == escape_char(taken, n as nat));
    match decoded {
        Some(d) => {
            push_char(out, d);
        },
        None => {
            push_char(out, '_');
            push_char(out, letter);
            let mut k = i + 2;
            while k < end
                invariant
                    i + 2 <= k <= end <= v@.len(),
                    out@ == old(out)@ + seq!['_', letter] + v@.subrange(i + 2, k as int),
                decreases end - k,
            {
                push_char(out, v[k]);
                assert(v@.subrange(i + 2, k + 1) =~= v@.subrange(i + 2, k as int).push(
                    v@[k as int],
                ));
                k = k + 1;
            }
        },
    }
    proof {
        lemma_decoded_escape(t, n as nat, end - i);
    }
    end
}

proof fn lemma_decoded_escape(t: Seq<char>, n: nat, end: int)
    requires
        t.len() > 1,
        t[0] == '_',
        t[1] == 'u' || t[1] == 'U',
        n == (if t[1] == 'u' {
            4nat
        } else {
            6nat
        }),
        end == (if t.len() < 2 + n {
            t.len() as int
        } else {
            (2 + n) as int
        }),
    ensures
        decoded_identifier(t) == match escape_char(t.subrange(2, end), n) {
            Some(c) => seq![c] + decoded_identifier(t.skip(end)),
            None => seq!['_', t[1]] + t.subrange(2, end) + decoded_identifier(t.skip(end)),
        },
{
}

/// An identifier with its `_uXXXX` / `_UXXXXXX` escapes decoded; an escape
/// that does not make a character stays as it is.
pub fn decode_unicode_identifier(s: &str) -> (r: String)
    ensures
        r@ == decoded_identifier(s@),
{
    let v = chars_of(s);
    let mut out = String::new();
    let mut i: usize = 0;
    assert(v@.skip(0) =~= v@);
    while i < v.len()
        invariant
            i <= v@.len(),
            v@ == s@,
            out@ + decoded_identifier(v@.skip(i as int)) == decoded_identifier(v@),
        decreases v@.len() - i,
    {
        let c = v[i];
        if c == '_' && i + 1 < v.len() && (v[i + 1] == 'u' || v[i + 1] == 'U') {
            i = push_escape(&mut out, &v, i);
        } else {
            let ghost t = v@.skip(i as int);
            let ghost o0 = out@;
            push_char(&mut out, c);
            assert(t.skip(1) =~= v@.skip(i + 1));
            assert(out@ + decoded_identifier(v@.skip(i + 1)) =~= o0 + decoded_identifier(t));
            i = i + 1;
        }
    }
    assert(v@.skip(i as int) =~= Seq::<char>::empty());
    assert(out@ + decoded_identifier(v@.skip(i as int)) =~= out@);
    out
}

/// What a character of a title becomes after an encode and decode: ASCII
/// letters lower-cased, space `-`, ASCII punctuation other than `-` `_`,
/// the rest itself.
pub open spec fn norm_char(c: char) -> char {
    if 'A' <= c && c <= 'Z' {
        lower_ascii_char(c)
    } else if c == ' ' || c == '-' {
        '-'
    } else if is_ascii_punct(c) {
        '_'
    } else {
        c
    }
}

/// `s` has ASCII punctuation other than `-` right before a `u` or `U`: its
/// `_` would read as the start of an escape.
pub open spec fn punct_before_u(s: Seq<char>) -> bool {
    exists|i: int|
        0 <= i < s.len() - 1 && #[trigger] is_ascii_punct(s[i]) && s[i] != '-' && (s[i + 1] == 'u'
            || s[i + 1] == 'U')
}

proof fn lemma_lower(c: char)
    requires
        'A' <= c && c <= 'Z',
    ensures
        'a' <= lower_ascii_char(c) && lower_ascii_char(c) <= 'z',
        lower_ascii_char(c) != '_',
{
    let u = (c as u32) + 32;
    assert(0x61 <= u <= 0x7a);
    assert((u as char) as u32 == u);
}

proof fn lemma_hex_upper_val(k: nat)
    requires
        k < 16,
    ensures
        hex_val(hex_upper(k)) == Some(k),
        hex_upper(k) != '+',
{
}

proof fn lemma_hex_digits(v: nat, n: nat)
    requires
        v < pow16(n as int),
    ensures
        hex_digits(v, n).len() == n,
        all_hex(hex_digits(v, n)),
        hex_value(hex_digits(v, n)) == v,
        n > 0 ==> hex_digits(v, n)[0] != '+',
    decreases n,
{
    if n > 0 {
        lemma_pow16_step(n - 1);
        assert(v / 16 < pow16(n - 1));
        lemma_hex_digits(v / 16, (n - 1) as nat);
        lemma_hex_upper_val(v % 16);
        let h = hex_digits(v, n);
        let p = hex_digits(v / 16, (n - 1) as nat);
        assert(h == p.push(hex_upper(v % 16)));
        assert(h.drop_last() =~= p);
        assert forall|i: int| 0 <= i < h.len() implies (#[trigger] hex_val(h[i])) is Some by {
            if i < h.len() - 1 {
                assert(h[i] == p[i]);
            }
        }
        if n > 1 {
            assert(h[0] == p[0]);
        }
        assert(v == (v / 16) * 16 + v % 16);
    }
}

proof fn lemma_escape_round_trip(c: char, r: Seq<char>)
    requires
        !(('a' <= c && c <= 'z') || ('0' <= c && c <= '9') || c == '-'),
        !('A' <= c && c <= 'Z'),
        c != ' ',
        !is_ascii_punct(c),
    ensures
        decoded_identifier(id_char(c) + r) == seq![c] + decoded_identifier(r),
{
    let v = (c as u32) as nat;
    vstd::utf8::char_is_scalar(c);
    vstd::utf8::char_u32_cast(c, c as u32);
    let n: nat = if v <= 0xFFFF {
        4
    } else {
        6
    };
    lemma_pow16_six();
    reveal_with_fuel(pow16, 5);
    lemma_hex_digits(v, n);
    let t = id_char(c) + r;
    let h = hex_digits(v, n);
    assert(id_char(c) == seq!['_', if v <= 0xFFFF {
        'u'
    } else {
        'U'
    }] + h);
    assert(t.subrange(2, (2 + n) as int) =~= h);
    assert(t.skip((2 + n) as int) =~= r);
    assert(radix16(h) == Some(v));
    assert(escape_char(h, n) == Some(c));
    lemma_decoded_escape(t, n, (2 + n) as int);
}

/// Decoding an identifier gives back its title normalised (letters
/// lower-cased, space `-`, punctuation but `-` `_`), and encoding that again gives
/// the same identifier; a title with punctuation other than `-` right before
/// a `u` or `U` is left out, its `_` being read as the start of an escape.
pub proof fn lemma_identifier_round_trip(s: Seq<char>)
    requires
        !punct_before_u(s),
    ensures
        decoded_identifier(identifier(s)) == s.map_values(|c: char| norm_char(c)),
        identifier(decoded_identifier(identifier(s))) == identifier(s),
    decreases s.len(),
{
    if s.len() > 0 {
        let c = s[0];
        let rest = s.drop_first();
        assert(!punct_before_u(rest)) by {
            if punct_before_u(rest) {
                let i = choose|i: int|
                    0 <= i < rest.len() - 1 && #[trigger] is_ascii_punct(rest[i]) && rest[i] != '-'
                        && (rest[i + 1] == 'u' || rest[i + 1] == 'U');
                assert(is_ascii_punct(s[i + 1]) && s[i + 1] != '-' && s[i + 2] == rest[i + 1]);
            }
        }
        lemma_identifier_round_trip(rest);
        let r = identifier(rest);
        let t = identifier(s);
        assert(t == id_char(c) + r);
        if ('a' <= c && c <= 'z') || ('0' <= c && c <= '9') || c == '-' || ('A' <= c && c <= 'Z')
            || c == ' ' {
            if 'A' <= c && c <= 'Z' {
                lemma_lower(c);
            }
            assert(t[0] == norm_char(c) && t[0] != '_');
            assert(t.skip(1) =~= r);
        } else if is_ascii_punct(c) {
            assert(t[0] == '_');
            assert(t.skip(1) =~= r);
            if rest.len() > 0 {
                assert(!(rest[0] == 'u' || rest[0] == 'U')) by {
                    if rest[0] == 'u' || rest[0] == 'U' {
                        assert(is_ascii_punct(s[0]) && s[0] != '-' && s[1] == rest[0]);
                    }
                }
                let c1 = rest[0];
                assert(r == id_char(c1) + identifier(rest.drop_first()));
                assert(r[0] == id_char(c1)[0]);
                assert(r[0] != 'u' && r[0] != 'U');
            }
        } else {
            lemma_escape_round_trip(c, r);
        }
        assert(s.map_values(|c: char| norm_char(c)) =~= seq![norm_char(c)] + rest.map_values(
            |c: char| norm_char(c),
        ));
    }
    lemma_identifier_normalized(s);
}

proof fn lemma_identifier_normalized(s: Seq<char>)
    ensures
        identifier(s.map_values(|c: char| norm_char(c))) == identifier(s),
    decreases s.len(),
{
    if s.len() > 0 {
        let m = s.map_values(|c: char| norm_char(c));
        lemma_identifier_normalized(s.drop_first());
        assert(m.drop_first() =~= s.drop_first().map_values(|c: char| norm_char(c)));
        if 'A' <= s[0] && s[0] <= 'Z' {
            lemma_lower(s[0]);
        }
        assert(id_char(norm_char(s[0])) == id_char(s[0]));
    }
}

/// The digit character of `k < 10`.
pub open spec fn digit_char(k: nat) -> char {
    (('0' as u32) + k) as char
}

fn digit_of(k: u32) -> (c: char)
    requires
        k < 10,
    ensures
        c == digit_char(k as nat),
{
    crate::text::char_from_ascii(('0' as u32) + k)
}

/// `$k` → `${argk}` for each `k` from `from` to 9, in turn.
pub open spec fn args_from(s: Seq<char>, from: nat) -> Seq<char>
    decreases 10 - from,
{
    if from > 9 {
        s
    } else {
        args_from(
            replaced(s, seq!['$', digit_char(from)], "${arg"@ + seq![digit_char(from), '}']),
            from + 1,
        )
    }
}

/// `{$k}` → `{$argk}` for each `k` from `from` to 9, in turn.
pub open spec fn braced_args_from(s: Seq<char>, from: nat) -> Seq<char>
    decreases 10 - from,
{
    if from > 9 {
        s
    } else {
        braced_args_from(
            replaced(
                s,
                seq!['{', '$', digit_char(from), '}'],
                "{$arg"@ + seq![digit_char(from), '}'],
            ),
            from + 1,
        )
    }
}

/// A message text with the Fluent forms `{$1}` as `{$input}` and `{$k}` as
/// `{$argk}` (for `k` from 2 to 9), then the bare forms `$1` as `${input}`
/// and `$k` as `${argk}`.
pub open spec fn input_variables(text: Seq<char>) -> Seq<char> {
    args_from(
        replaced(braced_args_from(replaced(text, "{$1}"@, "{$input}"@), 2), "$1"@, "${input}"@),
        2,
    )
}

/// Converts variables from the `$1`, `$2` form to `${input}`, `${arg2}`..,
/// and from the Fluent form `{$1}`, `{$2}` to `{$input}`, `{$arg2}`..
pub fn convert_variables_to_input(text: &str) -> (r: String)
    ensures
        r@ == input_variables(text@),
{
    proof {
        reveal_strlit("{$1}");
    }
    let mut result = replace_all(text, "{$1}", "{$input}");
    let ghost first = result@;
    let mut k: u32 = 2;
    while k <= 9
        invariant
            2 <= k <= 10,
            braced_args_from(first, 2) == braced_args_from(result@, k as nat),
        decreases 10 - k,
    {
        let d = digit_of(k);
        let mut old_pattern = String::new();
        push_char(&mut old_pattern, '{');
        push_char(&mut old_pattern, '$');
        push_char(&mut old_pattern, d);
        push_char(&mut old_pattern, '}');
        let mut new_pattern = String::new();
        push_str(&mut new_pattern, "{$arg");
        push_char(&mut new_pattern, d);
        push_char(&mut new_pattern, '}');
        assert(old_pattern@ =~= seq!['{', '$', digit_char(k as nat), '}']);
        assert(new_pattern@ =~= "{$arg"@ + seq![digit_char(k as nat), '}']);
        result = replace_all(result.as_str(), old_pattern.as_str(), new_pattern.as_str());
        k = k + 1;
    }
    proof {
        reveal_strlit("$1");
    }
    result = replace_all(result.as_str(), "$1", "${input}");
    let ghost second = result@;
    let mut k: u32 = 2;
    while k <= 9
        invariant
            2 <= k <= 10,
            args_from(second, 2) == args_from(result@, k as nat),
        decreases 10 - k,
    {
        let d = digit_of(k);
        let mut old_pattern = String::new();
        push_char(&mut old_pattern, '$');
        push_char(&mut old_pattern, d);
        let mut new_pattern = String::new();
        push_str(&mut new_pattern, "${arg");
        push_char(&mut new_pattern, d);
        push_char(&mut new_pattern, '}');
        assert(old_pattern@ =~= seq!['$', digit_char(k as nat)]);
        assert(new_pattern@ =~= "${arg"@ + seq![digit_char(k as nat), '}']);
        result = replace_all(result.as_str(), old_pattern.as_str(), new_pattern.as_str());
        k = k + 1;
    }
    result
}

/// Nowhere in `s` does a `$` stand right before `d`.
pub open spec fn no_dollar(s: Seq<char>, d: char) -> bool {
    forall|i: int| #![trigger s[i]] 0 <= i < s.len() - 1 && s[i] == '$' ==> s[i + 1] != d
}

/// Every `$` of `r` opens a brace.
pub open spec fn dollars_braced(r: Seq<char>) -> bool {
    forall|i: int| #![trigger r[i]] 0 <= i < r.len() && r[i] == '$' ==> i + 1 < r.len() && r[i + 1] == '{'
}

proof fn lemma_no_dollar_concat(a: Seq<char>, b: Seq<char>, d: char)
    requires
        no_dollar(a, d),
        no_dollar(b, d),
        a.len() > 0 && b.len() > 0 ==> !(a.last() == '$' && b[0] == d),
    ensures
        no_dollar(a + b, d),
{
    let s = a + b;
    assert forall|i: int| 0 <= i < s.len() - 1 && #[trigger] s[i] == '$' implies s[i + 1] != d by {
        if i < a.len() - 1 {
            assert(s[i] == a[i] && s[i + 1] == a[i + 1]);
        } else if i == a.len() - 1 {
            assert(s[i] == a.last() && s[i + 1] == b[0]);
        } else {
            assert(s[i] == b[i - a.len()] && s[i + 1] == b[i - a.len() + 1]);
        }
    }
}

proof fn lemma_no_dollar_skip(s: Seq<char>, n: int, d: char)
    requires
        no_dollar(s, d),
        0 <= n <= s.len(),
    ensures
        no_dollar(s.skip(n), d),
{
    let t = s.skip(n);
    assert forall|i: int| 0 <= i < t.len() - 1 && #[trigger] t[i] == '$' implies t[i + 1] != d by {
        assert(t[i] == s[i + n] && t[i + 1] == s[i + n + 1]);
    }
}

proof fn lemma_braced_no_dollar(r: Seq<char>, d: char)
    requires
        dollars_braced(r),
        d != '{',
    ensures
        no_dollar(r, d),
        r.len() > 0 ==> r.last() != '$',
{
    if r.len() > 0 {
        assert(r[r.len() - 1] == r.last());
    }
}

/// Replacing `$k` by `r`, whose every `$` opens a brace, leaves no `$k`, and
/// makes no `$d` that was not there.
proof fn lemma_replace_dollar(s: Seq<char>, k: char, r: Seq<char>, d: char)
    requires
        dollars_braced(r),
        r.len() > 0 && r[0] == '$',
        d != '{' && d != '$',
        d == k || no_dollar(s, d),
    ensures
        no_dollar(replaced(s, seq!['$', k], r), d),
    decreases s.len(),
{
    let p = seq!['$', k];
    lemma_braced_no_dollar(r, d);
    if s.len() == 0 {
        assert(replaced(s, p, r) =~= Seq::<char>::empty());
    } else if s.len() >= 2 && s.take(2) == p {
        if d != k {
            lemma_no_dollar_skip(s, 2, d);
        }
        lemma_replace_dollar(s.skip(2), k, r, d);
        lemma_no_dollar_concat(r, replaced(s.skip(2), p, r), d);
    } else {
        let rest = s.skip(1);
        if d != k {
            lemma_no_dollar_skip(s, 1, d);
        }
        lemma_replace_dollar(rest, k, r, d);
        let rr = replaced(rest, p, r);
        if s[0] == '$' && rr.len() > 0 && rr[0] == d {
            if rest.len() >= 2 && rest.take(2) == p {
                assert(rr == r + replaced(rest.skip(2), p, r));
                assert(rr[0] == r[0]);
                assert(r[0] == '$' ==> r[1] == '{');
            } else {
                assert(rest.len() > 0);
                assert(rr == seq![rest[0]] + replaced(rest.skip(1), p, r));
                assert(rr[0] == s[1]);
                if d == k {
                    assert(s.take(2) =~= p);
                }
            }
        }
        lemma_no_dollar_concat(seq![s[0]], rr, d);
    }
}

/// Replacing what does not occur leaves `s` as it is.
proof fn lemma_replaced_absent(s: Seq<char>, p: Seq<char>, r: Seq<char>)
    requires
        p.len() > 0,
        forall|i: int| 0 <= i && i + p.len() <= s.len() ==> #[trigger] s.subrange(i, i + p.len()) != p,
    ensures
        replaced(s, p, r) == s,
    decreases s.len(),
{
    if s.len() > 0 {
        if s.len() >= p.len() {
            let z: int = 0;
            assert(s.subrange(z, z + p.len()) != p);
            assert(s.take(p.len() as int) =~= s.subrange(z, z + p.len()));
        }
        let rest = s.skip(1);
        assert forall|i: int| 0 <= i && i + p.len() <= rest.len() implies #[trigger] rest.subrange(
            i,
            i + p.len(),
        ) != p by {
            assert(rest.subrange(i, i + p.len()) =~= s.subrange(i + 1, i + 1 + p.len()));
        }
        lemma_replaced_absent(rest, p, r);
        assert(seq![s[0]] + rest =~= s);
    }
}

/// A pattern whose character at `j` is `$` and at `j + 1` is `d` does not
/// occur where no `$` stands before `d`.
proof fn lemma_pattern_absent(s: Seq<char>, p: Seq<char>, j: int, d: char, r: Seq<char>)
    requires
        no_dollar(s, d),
        0 <= j && j + 1 < p.len(),
        p[j] == '$' && p[j + 1] == d,
    ensures
        replaced(s, p, r) == s,
{
    assert forall|i: int| 0 <= i && i + p.len() <= s.len() implies #[trigger] s.subrange(
        i,
        i + p.len(),
    ) != p by {
        if s.subrange(i, i + p.len()) == p {
            assert(s[i + j] == s.subrange(i, i + p.len())[j]);
            assert(s[i + j + 1] == s.subrange(i, i + p.len())[j + 1]);
        }
    }
    lemma_replaced_absent(s, p, r);
}

pub open spec fn all_digits_free(s: Seq<char>) -> bool {
    forall|d: char| 0x31 <= (d as u32) <= 0x39 ==> #[trigger] no_dollar(s, d)
}

proof fn lemma_digit_char(k: nat)
    requires
        k <= 9,
    ensures
        digit_char(k) as u32 == 0x30 + k,
        digit_char(k) != '{',
{
    assert(('0' as u32 + k) <= 0x39);
}

proof fn lemma_args_from_free(x: Seq<char>, from: nat)
    requires
        2 <= from <= 10,
        forall|d: char| 0x31 <= (d as u32) < 0x30 + from ==> #[trigger] no_dollar(x, d),
    ensures
        all_digits_free(args_from(x, from)),
    decreases 10 - from,
{
    if from > 9 {
        assert forall|d: char| 0x31 <= (d as u32) <= 0x39 implies #[trigger] no_dollar(x, d) by {}
    } else {
        let k = digit_char(from);
        lemma_digit_char(from);
        let r = "${arg"@ + seq![k, '}'];
        reveal_strlit("${arg");
        assert(dollars_braced(r));
        let y = replaced(x, seq!['$', k], r);
        assert(r[0] == '$');
        assert forall|d: char| 0x31 <= (d as u32) < 0x30 + from + 1 implies #[trigger] no_dollar(y, d) by {
            if (d as u32) == 0x30 + from {
                vstd::utf8::char_u32_cast(d, d as u32);
                vstd::utf8::char_u32_cast(k, k as u32);
            }
            lemma_replace_dollar(x, k, r, d);
        }
        lemma_args_from_free(y, from + 1);
    }
}

proof fn lemma_args_from_fixed(x: Seq<char>, from: nat)
    requires
        2 <= from <= 10,
        all_digits_free(x),
    ensures
        args_from(x, from) == x,
    decreases 10 - from,
{
    if from <= 9 {
        let k = digit_char(from);
        lemma_digit_char(from);
        assert(no_dollar(x, k));
        lemma_pattern_absent(x, seq!['$', k], 0, k, "${arg"@ + seq![k, '}']);
        lemma_args_from_fixed(x, from + 1);
    }
}

proof fn lemma_braced_args_from_fixed(x: Seq<char>, from: nat)
    requires
        2 <= from <= 10,
        all_digits_free(x),
    ensures
        braced_args_from(x, from) == x,
    decreases 10 - from,
{
    if from <= 9 {
        let k = digit_char(from);
        lemma_digit_char(from);
        assert(no_dollar(x, k));
        lemma_pattern_absent(x, seq!['{', '$', k, '}'], 1, k, "{$arg"@ + seq![k, '}']);
        lemma_braced_args_from_fixed(x, from + 1);
    }
}

/// Converting variables twice is converting them once: the converted text
/// holds no `$1` to `$9` that a second pass would change.
pub proof fn lemma_input_variables_idempotent(s: Seq<char>)
    ensures
        all_digits_free(input_variables(s)),
        input_variables(input_variables(s)) == input_variables(s),
{
    reveal_strlit("{$1}");
    reveal_strlit("{$input}");
    reveal_strlit("$1");
    reveal_strlit("${input}");
    let x2 = braced_args_from(replaced(s, "{$1}"@, "{$input}"@), 2);
    let r1 = "${input}"@;
    assert(dollars_braced(r1));
    assert("$1"@ =~= seq!['$', '1']);
    let x3 = replaced(x2, "$1"@, r1);
    assert forall|d: char| 0x31 <= (d as u32) < 0x30 + 2 implies #[trigger] no_dollar(x3, d) by {
        vstd::utf8::char_u32_cast(d, d as u32);
        vstd::utf8::char_u32_cast('1', '1' as u32);
        lemma_replace_dollar(x2, '1', r1, d);
    }
    lemma_args_from_free(x3, 2);
    let t = input_variables(s);
    assert(('1' as u32) == 0x31);
    assert(no_dollar(t, '1'));
    assert("{$1}"@ =~= seq!['{', '$', '1', '}']);
    lemma_pattern_absent(t, "{$1}"@, 1, '1', "{$input}"@);
    lemma_braced_args_from_fixed(t, 2);
    lemma_pattern_absent(t, "$1"@, 0, '1', r1);
    lemma_args_from_fixed(t, 2);
}

/// `"$k"` → `{$k}` for each `k` from `from` to 9, in turn.
pub open spec fn quoted_from(s: Seq<char>, from: nat) -> Seq<char>
    decreases 10 - from,
{
    if from > 9 {
        s
    } else {
        quoted_from(
            replaced(
                s,
                seq!['"', '$', digit_char(from), '"'],
                seq!['{', '$', digit_char(from), '}'],
            ),
            from + 1,
        )
    }
}

/// `$k` → `{$k}` for each `k` from `from` to 9, in turn, where the text does
/// not already hold a `{$k}`.
pub open spec fn bare_from(s: Seq<char>, from: nat) -> Seq<char>
    decreases 10 - from,
{
    if from > 9 {
        s
    } else {
        let braced = seq!['{', '$', digit_char(from), '}'];
        bare_from(
            if contains_seq(s, braced) {
                s
            } else {
                replaced(s, seq!['$', digit_char(from)], braced)
            },
            from + 1,
        )
    }
}

/// A message text with its variables in Fluent's `{$k}` form.
pub open spec fn fluent_variables(text: Seq<char>) -> Seq<char> {
    bare_from(quoted_from(text, 1), 1)
}

/// Converts `$1`, `"$1"` .. `$9` to Fluent's `{$1}` .. `{$9}`, leaving a
/// variable alone where the text already has it in braces.
pub fn convert_variables(text: &str) -> (r: String)
    ensures
        r@ == fluent_variables(text@),
{
    let mut result = String::new();
    push_str(&mut result, text);
    let mut k: u32 = 1;
    while k <= 9
        invariant
            1 <= k <= 10,
            quoted_from(text@, 1) == quoted_from(result@, k as nat),
        decreases 10 - k,
    {
        let d = digit_of(k);
        let mut old_pattern = String::new();
        push_char(&mut old_pattern, '"');
        push_char(&mut old_pattern, '$');
        push_char(&mut old_pattern, d);
        push_char(&mut old_pattern, '"');
        let mut new_pattern = String::new();
        push_char(&mut new_pattern, '{');
        push_char(&mut new_pattern, '$');
        push_char(&mut new_pattern, d);
        push_char(&mut new_pattern, '}');
        assert(old_pattern@ =~= seq!['"', '$', digit_char(k as nat), '"']);
        assert(new_pattern@ =~= seq!['{', '$', digit_char(k as nat), '}']);
        result = replace_all(result.as_str(), old_pattern.as_str(), new_pattern.as_str());
        k = k + 1;
    }
    let ghost quoted = result@;
    let mut k: u32 = 1;
    while k <= 9
        invariant
            1 <= k <= 10,
            bare_from(quoted, 1) == bare_from(result@, k as nat),
        decreases 10 - k,
    {
        let d = digit_of(k);
        let mut old_pattern = String::new();
        push_char(&mut old_pattern, '$');
        push_char(&mut old_pattern, d);
        let mut new_pattern = String::new();
        push_char(&mut new_pattern, '{');
        push_char(&mut new_pattern, '$');
        push_char(&mut new_pattern, d);
        push_char(&mut new_pattern, '}');
        assert(old_pattern@ =~= seq!['$', digit_char(k as nat)]);
        assert(new_pattern@ =~= seq!['{', '$', digit_char(k as nat), '}']);
        if !contains_str(result.as_str(), new_pattern.as_str()) {
            result = replace_all(result.as_str(), old_pattern.as_str(), new_pattern.as_str());
        }
        k = k + 1;
    }
    result
}

/// A reference of an error message.
#[derive(Debug)]
pub struct Reference {
    pub n: String,
}

/// An example sentence of an error message, in a language.
#[derive(Debug)]
pub struct Example {
    pub lang: String,
    pub text: String,
}

/// The titles of an error message, one per language, and its references.
#[derive(Debug)]
pub struct Header {
    pub titles: Vec<(String, String)>,
    pub references: Option<Vec<Reference>>,
}

/// The descriptions of an error message, one per language, and its examples.
#[derive(Debug)]
pub struct Body {
    pub descriptions: Vec<(String, String)>,
    pub examples: Option<Vec<Example>>,
}

/// `    .example-i = text` for each example in `lang`, `i` counting all
/// examples from 1.
pub open spec fn example_lines(ex: Seq<Example>, lang: Seq<char>) -> Seq<char>
    decreases ex.len(),
{
    if ex.len() == 0 {
        Seq::empty()
    } else {
        example_lines(ex.drop_last(), lang) + if ex.last().lang@ == lang {
            "    .example-"@ + dec_digits(ex.len()) + " = "@ + ex.last().text@ + seq!['\n']
        } else {
            Seq::empty()
        }
    }
}

/// `    .ref-i = n` for each reference, `i` counting from 1.
pub open spec fn reference_lines(refs: Seq<Reference>) -> Seq<char>
    decreases refs.len(),
{
    if refs.len() == 0 {
        Seq::empty()
    } else {
        reference_lines(refs.drop_last()) + "    .ref-"@ + dec_digits(refs.len()) + " = "@
            + refs.last().n@ + seq!['\n']
    }
}

/// The example and reference attributes of a message.
pub open spec fn examples_and_refs(
    examples: Option<Vec<Example>>,
    references: Option<Vec<Reference>>,
    lang: Seq<char>,
) -> Seq<char> {
    (match examples {
        Some(ex) => example_lines(ex@, lang),
        None => Seq::empty(),
    }) + match references {
        Some(refs) => reference_lines(refs@),
        None => Seq::empty(),
    }
}

/// Appends a message's examples in `lang` and its references, as Fluent
/// attributes.
pub fn add_examples_and_refs(
    output: &mut String,
    examples: &Option<Vec<Example>>,
    references: Option<&Vec<Reference>>,
    lang: &str,
)
    ensures
        final(output)@ == old(output)@ + examples_and_refs(
            *examples,
            match references {
                Some(r) => Some(*r),
                None => None,
            },
            lang@,
        ),
{
    let ghost o0 = output@;
    if let Some(ex) = examples {
        let mut i: usize = 0;
        while i < ex.len()
            invariant
                i <= ex@.len(),
                output@ == o0 + example_lines(ex@.take(i as int), lang@),
            decreases ex@.len() - i,
        {
            let ghost o1 = output@;
            assert(ex@.take(i + 1).drop_last() =~= ex@.take(i as int));
            if crate::text::str_eq(ex[i].lang.as_str(), lang) {
                push_str(output, "    .example-");
                push_dec(output, (i as u64) + 1);
                push_str(output, " = ");
                push_str(output, ex[i].text.as_str());
                push_char(output, '\n');
            }
            assert(output@ =~= o0 + example_lines(ex@.take(i + 1), lang@));
            i = i + 1;
        }
        assert(ex@.take(ex@.len() as int) =~= ex@);
    }
    let ghost o2 = output@;
    if let Some(refs) = references {
        let mut i: usize = 0;
        while i < refs.len()
            invariant
                i <= refs@.len(),
                output@ == o2 + reference_lines(refs@.take(i as int)),
            decreases refs@.len() - i,
        {
            assert(refs@.take(i + 1).drop_last() =~= refs@.take(i as int));
            push_str(output, "    .ref-");
            push_dec(output, (i as u64) + 1);
            push_str(output, " = ");
            push_str(output, refs[i].n.as_str());
            push_char(output, '\n');
            assert(output@ =~= o2 + reference_lines(refs@.take(i + 1)));
            i = i + 1;
        }
        assert(refs@.take(refs@.len() as int) =~= refs@);
    }
    assert(output@ =~= o0 + examples_and_refs(
        *examples,
        match references {
            Some(r) => Some(*r),
            None => None,
        },
        lang@,
    ));
}


/// How an error message is matched: by a pattern over error tags, or by one
/// error tag.
#[derive(Debug)]
pub enum Id {
    Regex { pattern: String },
    Explicit { value: String },
}

/// A message for every error tag that its ids match.
#[derive(Debug)]
pub struct Default {
    pub id: String,
    pub original_title: String,
    pub ids: Vec<Id>,
    pub header: Header,
    pub body: Body,
}

/// The message of one error tag.
#[derive(Debug)]
pub struct Error {
    pub id: String,
    pub original_id: String,
    pub header: Header,
    pub body: Body,
}

/// All error messages of a language's grammar checker.
#[derive(Debug)]
pub struct ErrorDocument {
    pub defaults: Vec<Default>,
    pub errors: Vec<Error>,
}

/// The `(key, value)` pairs as sequences.
pub open spec fn pairs_view(v: Seq<(String, String)>) -> Seq<(Seq<char>, Seq<char>)> {
    v.map_values(|p: (String, String)| (p.0@, p.1@))
}

/// The value of the first pair with key `k`.
pub open spec fn lookup_pair(m: Seq<(Seq<char>, Seq<char>)>, k: Seq<char>) -> Option<Seq<char>>
    decreases m.len(),
{
    if m.len() == 0 {
        None
    } else if m[0].0 == k {
        Some(m[0].1)
    } else {
        lookup_pair(m.drop_first(), k)
    }
}

/// The value of the first pair with key `k`.
pub fn get_pair<'a>(m: &'a Vec<(String, String)>, k: &str) -> (r: Option<&'a String>)
    ensures
        match lookup_pair(pairs_view(m@), k@) {
            Some(v) => r matches Some(x) && x@ == v,
            None => r is None,
        },
{
    let ghost pv = pairs_view(m@);
    let mut i: usize = 0;
    assert(pv.skip(0) =~= pv);
    while i < m.len()
        invariant
            i <= m@.len(),
            pv == pairs_view(m@),
            lookup_pair(pv, k@) == lookup_pair(pv.skip(i as int), k@),
        decreases m@.len() - i,
    {
        assert(pv.skip(i as int)[0] == (m@[i as int].0@, m@[i as int].1@));
        if crate::text::str_eq(m[i].0.as_str(), k) {
            return Some(&m[i].1);
        }
        assert(pv.skip(i as int).drop_first() =~= pv.skip(i + 1));
        i = i + 1;
    }
    None
}

} // verus!
