//! Carrying SSML overrides into a CG-3 stream: `<DRT-NAME:value>` tags,
//! with the value percent-encoded, appended to reading lines, and the
//! `<DRT-BREAK-AFTER:ms>` pause tag on the readings of a fragment's last
//! cohort.
use vstd::prelude::*;
use vstd::utf8::{decode_utf8, encode_scalar, encode_utf8, valid_utf8};
use crate::num::{dec_digits, hex_upper, hex_upper_char, push_dec};
use crate::cg3::join_lines;
use crate::sentences::{hex_byte, percent_decode_bytes};
use crate::text::{
    char_from_ascii, chars_of, join_by, join_strings, lines, push_char, push_chars, push_str,
    split_lines, strings_view,
};

verus! {

broadcast use vstd::string::group_string_axioms;

/// The characters that would break a CG-3 tag (whitespace, `<`, `>`) or the
/// `OPTS` prefix (`;`, `=`, `\x1F`), and `%` itself.
pub open spec fn tag_special(c: char) -> bool {
    c == ' ' || c == '\t' || c == '\n' || c == '\r' || c == '<' || c == '>' || c == ';' || c
        == '=' || c == '%' || c == '\x1F'
}

/// `c` as it stands in a tag value: `%XX` for a special character, else itself.
pub open spec fn escaped(c: char) -> Seq<char> {
    if tag_special(c) {
        seq!['%', hex_upper((c as nat) / 16), hex_upper((c as nat) % 16)]
    } else {
        seq![c]
    }
}

/// A value made safe to stand inside a `<DRT-..:value>` tag.
pub open spec fn tag_value(s: Seq<char>) -> Seq<char>
    decreases s.len(),
{
    if s.len() == 0 {
        Seq::empty()
    } else {
        escaped(s[0]) + tag_value(s.drop_first())
    }
}

fn is_tag_special(c: char) -> (r: bool)
    ensures
        r == tag_special(c),
{
    c == ' ' || c == '\t' || c == '\n' || c == '\r' || c == '<' || c == '>' || c == ';' || c
        == '=' || c == '%' || c == '\x1F'
}

/// Percent-encodes the characters that would break CG-3 tag tokenisation or
/// the `OPTS` prefix, and `%` for round-trip integrity; every other character
/// passes through.
pub fn encode_tag_value(s: &str) -> (r: String)
    ensures
        r@ == tag_value(s@),
{
    let v = chars_of(s);
    let mut out = String::new();
    let mut i: usize = 0;
    assert(v@.skip(0) =~= v@);
    while i < v.len()
        invariant
            i <= v@.len(),
            v@ == s@,
            out@ + tag_value(v@.skip(i as int)) == tag_value(v@),
        decreases v@.len() - i,
    {
        let c = v[i];
        let ghost o0 = out@;
        assert(v@.skip(i as int).drop_first() =~= v@.skip(i + 1));
        assert(tag_value(v@.skip(i as int)) == escaped(c) + tag_value(v@.skip(i + 1)));
        if is_tag_special(c) {
            let code = c as u32;
            push_char(&mut out, '%');
            push_char(&mut out, hex_upper_char(code / 16));
            push_char(&mut out, hex_upper_char(code % 16));
            assert(out@ =~= o0 + escaped(c));
        } else {
            push_char(&mut out, c);
            assert(out@ =~= o0 + escaped(c));
        }
        assert(out@ + tag_value(v@.skip(i + 1)) =~= o0 + tag_value(v@.skip(i as int)));
        i = i + 1;
    }
    assert(v@.skip(i as int) =~= Seq::<char>::empty());
    assert(out@ + tag_value(v@.skip(i as int)) =~= out@);
    out
}

proof fn lemma_encode_utf8_concat(a: Seq<char>, b: Seq<char>)
    ensures
        encode_utf8(a + b) == encode_utf8(a) + encode_utf8(b),
    decreases a.len(),
{
    if a.len() == 0 {
        assert(a + b =~= b);
    } else {
        assert((a + b).drop_first() =~= a.drop_first() + b);
        lemma_encode_utf8_concat(a.drop_first(), b);
        assert(encode_utf8(a + b) =~= encode_utf8(a) + encode_utf8(b));
    }
}

proof fn lemma_decode_passes(p: Seq<u8>, r: Seq<u8>)
    requires
        forall|i: int| 0 <= i < p.len() ==> p[i] != 0x25,
    ensures
        percent_decode_bytes(p + r) == p + percent_decode_bytes(r),
    decreases p.len(),
{
    if p.len() == 0 {
        assert(p + r =~= r);
    } else {
        assert((p + r)[0] == p[0]);
        assert((p + r).skip(1) =~= p.skip(1) + r);
        lemma_decode_passes(p.skip(1), r);
        assert(p + percent_decode_bytes(r) =~= seq![p[0]] + (p.skip(1) + percent_decode_bytes(r)));
    }
}

proof fn lemma_scalar_not_percent(s: u32)
    requires
        vstd::utf8::is_scalar(s),
        s != 0x25,
    ensures
        forall|i: int| 0 <= i < encode_scalar(s).len() ==> encode_scalar(s)[i] != 0x25,
{
    if vstd::utf8::has_width_1_encoding(s) {
        assert((s & 0x7F) as u8 != 0x25) by (bit_vector)
            requires
                s <= 0x7F,
                s != 0x25,
        ;
    } else {
        assert(0xC0 | ((s >> 6) & 0x1F) as u8 != 0x25) by (bit_vector);
        assert(0xE0 | ((s >> 12) & 0x0F) as u8 != 0x25) by (bit_vector);
        assert(0xF0 | ((s >> 18) & 0x7) as u8 != 0x25) by (bit_vector);
        assert(0x80 | (s & 0x3F) as u8 != 0x25) by (bit_vector);
        assert(0x80 | ((s >> 6) & 0x3F) as u8 != 0x25) by (bit_vector);
        assert(0x80 | ((s >> 12) & 0x3F) as u8 != 0x25) by (bit_vector);
    }
}

proof fn lemma_escape_decodes(c: char, rest: Seq<u8>)
    requires
        tag_special(c),
    ensures
        percent_decode_bytes(encode_utf8(escaped(c)) + rest) == encode_scalar(c as u32)
            + percent_decode_bytes(rest),
{
    let n = c as u32;
    let h = hex_upper((c as nat) / 16);
    let l = hex_upper((c as nat) % 16);
    assert(n < 128);
    assert(vstd::utf8::is_ascii_chars(escaped(c)));
    vstd::utf8::is_ascii_chars_encode_utf8(escaped(c));
    let e = encode_utf8(escaped(c));
    assert(e.len() == 3);
    assert(e[0] == 0x25);
    assert(e[1] == h as u8);
    assert(e[2] == l as u8);
    let b = e + rest;
    assert(b[0] == 0x25 && b[1] == h as u8 && b[2] == l as u8);
    assert(hex_byte(h as u8) == Some((n / 16) as nat));
    assert(hex_byte(l as u8) == Some((n % 16) as nat));
    assert(b.skip(3) =~= rest);
    assert(((n / 16) * 16 + n % 16) as u8 == n as u8);
    assert((n & 0x7F) as u8 == n as u8) by (bit_vector)
        requires
            n < 128,
    ;
    assert(encode_scalar(n) =~= seq![n as u8]);
}

/// Decoding an encoded tag value (the decoding that `cohort_opts` applies)
/// gives back the original value: every special character comes back from its
/// `%XX`, every other character's bytes pass through.
pub proof fn lemma_tag_value_round_trip(v: Seq<char>)
    ensures
        percent_decode_bytes(encode_utf8(tag_value(v))) == encode_utf8(v),
        valid_utf8(percent_decode_bytes(encode_utf8(tag_value(v)))),
        decode_utf8(percent_decode_bytes(encode_utf8(tag_value(v)))) == v,
    decreases v.len(),
{
    broadcast use vstd::utf8::group_utf8_lib;

    if v.len() == 0 {
    } else {
        let c = v[0];
        let t = tag_value(v.drop_first());
        lemma_tag_value_round_trip(v.drop_first());
        lemma_encode_utf8_concat(escaped(c), t);
        assert(tag_value(v) == escaped(c) + t);
        if tag_special(c) {
            lemma_escape_decodes(c, encode_utf8(t));
        } else {
            vstd::utf8::char_is_scalar(c);
            if c as u32 == 0x25 {
                vstd::utf8::char_u32_cast(c, c as u32);
                vstd::utf8::char_u32_cast('%', '%' as u32);
            }
            lemma_scalar_not_percent(c as u32);
            let e = seq![c];
            assert(escaped(c) == e);
            assert(e.drop_first() =~= Seq::<char>::empty());
            assert(encode_utf8(e.drop_first()) =~= Seq::<u8>::empty());
            assert(encode_utf8(e) == encode_scalar(e[0] as u32) + encode_utf8(e.drop_first()));
            assert(encode_utf8(escaped(c)) =~= encode_scalar(c as u32));
            lemma_decode_passes(encode_scalar(c as u32), encode_utf8(t));
        }
        assert(encode_utf8(v) == encode_scalar(c as u32) + encode_utf8(v.drop_first()));
    }
}

/// ` <DRT-name:value>`, the value encoded.
pub open spec fn drt_tag(name: Seq<char>, value: Seq<char>) -> Seq<char> {
    " <DRT-"@ + name + seq![':'] + tag_value(value) + seq!['>']
}

/// Appends ` <DRT-name:value>` to `tags`.
pub fn append_drt_tag(tags: &mut String, name: &str, value: &str)
    ensures
        final(tags)@ == old(tags)@ + drt_tag(name@, value@),
{
    push_str(tags, " <DRT-");
    push_str(tags, name);
    push_char(tags, ':');
    let v = encode_tag_value(value);
    push_str(tags, v.as_str());
    push_char(tags, '>');
    assert(tags@ =~= old(tags)@ + drt_tag(name@, value@));
}

/// The overrides in effect inside an SSML scope, in their SSML wire form
/// (`"fast"`, `"+20Hz"`); `None` where the scope sets nothing.
#[derive(Debug)]
pub struct SsmlFrame {
    pub prosody_rate: Option<String>,
    pub prosody_pitch: Option<String>,
    pub prosody_volume: Option<String>,
    pub prosody_range: Option<String>,
    pub prosody_contour: Option<String>,
    pub prosody_duration: Option<String>,
    pub voice_name: Option<String>,
    pub voice_gender: Option<String>,
    pub voice_age: Option<u8>,
    pub voice_variant: Option<u32>,
    pub voice_lang: Option<String>,
    pub lang: Option<String>,
    pub emphasis: Option<String>,
    pub say_as: Option<String>,
    pub say_as_format: Option<String>,
    pub say_as_detail: Option<String>,
    pub phoneme_ph: Option<String>,
    pub phoneme_alphabet: Option<String>,
    /// Text in this scope is not spoken (the inside of `<sub>`).
    pub suppress: bool,
}

pub struct FrameV {
    pub prosody_rate: Option<Seq<char>>,
    pub prosody_pitch: Option<Seq<char>>,
    pub prosody_volume: Option<Seq<char>>,
    pub prosody_range: Option<Seq<char>>,
    pub prosody_contour: Option<Seq<char>>,
    pub prosody_duration: Option<Seq<char>>,
    pub voice_name: Option<Seq<char>>,
    pub voice_gender: Option<Seq<char>>,
    pub voice_age: Option<u8>,
    pub voice_variant: Option<u32>,
    pub voice_lang: Option<Seq<char>>,
    pub lang: Option<Seq<char>>,
    pub emphasis: Option<Seq<char>>,
    pub say_as: Option<Seq<char>>,
    pub say_as_format: Option<Seq<char>>,
    pub say_as_detail: Option<Seq<char>>,
    pub phoneme_ph: Option<Seq<char>>,
    pub phoneme_alphabet: Option<Seq<char>>,
    pub suppress: bool,
}

pub open spec fn opt_view(o: Option<String>) -> Option<Seq<char>> {
    match o {
        Some(s) => Some(s@),
        None => None,
    }
}

impl View for SsmlFrame {
    type V = FrameV;

    open spec fn view(&self) -> FrameV {
        FrameV {
            prosody_rate: opt_view(self.prosody_rate),
            prosody_pitch: opt_view(self.prosody_pitch),
            prosody_volume: opt_view(self.prosody_volume),
            prosody_range: opt_view(self.prosody_range),
            prosody_contour: opt_view(self.prosody_contour),
            prosody_duration: opt_view(self.prosody_duration),
            voice_name: opt_view(self.voice_name),
            voice_gender: opt_view(self.voice_gender),
            voice_age: self.voice_age,
            voice_variant: self.voice_variant,
            voice_lang: opt_view(self.voice_lang),
            lang: opt_view(self.lang),
            emphasis: opt_view(self.emphasis),
            say_as: opt_view(self.say_as),
            say_as_format: opt_view(self.say_as_format),
            say_as_detail: opt_view(self.say_as_detail),
            phoneme_ph: opt_view(self.phoneme_ph),
            phoneme_alphabet: opt_view(self.phoneme_alphabet),
            suppress: self.suppress,
        }
    }
}

/// The frame of a document's root: nothing overridden, text spoken.
pub open spec fn root_frame() -> FrameV {
    FrameV {
        prosody_rate: None,
        prosody_pitch: None,
        prosody_volume: None,
        prosody_range: None,
        prosody_contour: None,
        prosody_duration: None,
        voice_name: None,
        voice_gender: None,
        voice_age: None,
        voice_variant: None,
        voice_lang: None,
        lang: None,
        emphasis: None,
        say_as: None,
        say_as_format: None,
        say_as_detail: None,
        phoneme_ph: None,
        phoneme_alphabet: None,
        suppress: false,
    }
}

impl Default for SsmlFrame {
    fn default() -> (f: SsmlFrame)
        ensures
            f@ == root_frame(),
    {
        SsmlFrame {
            prosody_rate: None,
            prosody_pitch: None,
            prosody_volume: None,
            prosody_range: None,
            prosody_contour: None,
            prosody_duration: None,
            voice_name: None,
            voice_gender: None,
            voice_age: None,
            voice_variant: None,
            voice_lang: None,
            lang: None,
            emphasis: None,
            say_as: None,
            say_as_format: None,
            say_as_detail: None,
            phoneme_ph: None,
            phoneme_alphabet: None,
            suppress: false,
        }
    }
}

pub fn copy_opt(o: &Option<String>) -> (r: Option<String>)
    ensures
        opt_view(r) == opt_view(*o),
{
    match o {
        Some(s) => Some(s.clone()),
        None => None,
    }
}

impl SsmlFrame {
    /// A copy of the frame.
    pub fn copy(&self) -> (f: SsmlFrame)
        ensures
            f@ == self@,
    {
        SsmlFrame {
            prosody_rate: copy_opt(&self.prosody_rate),
            prosody_pitch: copy_opt(&self.prosody_pitch),
            prosody_volume: copy_opt(&self.prosody_volume),
            prosody_range: copy_opt(&self.prosody_range),
            prosody_contour: copy_opt(&self.prosody_contour),
            prosody_duration: copy_opt(&self.prosody_duration),
            voice_name: copy_opt(&self.voice_name),
            voice_gender: copy_opt(&self.voice_gender),
            voice_age: self.voice_age,
            voice_variant: self.voice_variant,
            voice_lang: copy_opt(&self.voice_lang),
            lang: copy_opt(&self.lang),
            emphasis: copy_opt(&self.emphasis),
            say_as: copy_opt(&self.say_as),
            say_as_format: copy_opt(&self.say_as_format),
            say_as_detail: copy_opt(&self.say_as_detail),
            phoneme_ph: copy_opt(&self.phoneme_ph),
            phoneme_alphabet: copy_opt(&self.phoneme_alphabet),
            suppress: self.suppress,
        }
    }
}

/// The tag for an override that is set; nothing for one that is not.
pub open spec fn opt_tag(name: Seq<char>, v: Option<Seq<char>>) -> Seq<char> {
    match v {
        Some(x) => drt_tag(name, x),
        None => Seq::empty(),
    }
}

pub open spec fn num_view(n: Option<u32>) -> Option<Seq<char>> {
    match n {
        Some(k) => Some(dec_digits(k as nat)),
        None => None,
    }
}

/// The space-prefixed tags for the overrides of `f`, in a fixed order; the
/// tag names mirror the SSML element and attribute names.
pub open spec fn opts_tags(f: FrameV) -> Seq<char> {
    opt_tag("PROSODY-RATE"@, f.prosody_rate) + opt_tag("PROSODY-PITCH"@, f.prosody_pitch)
        + opt_tag("PROSODY-VOLUME"@, f.prosody_volume) + opt_tag("PROSODY-RANGE"@, f.prosody_range)
        + opt_tag("PROSODY-CONTOUR"@, f.prosody_contour) + opt_tag(
        "PROSODY-DURATION"@,
        f.prosody_duration,
    ) + opt_tag("VOICE-NAME"@, f.voice_name) + opt_tag("VOICE-GENDER"@, f.voice_gender)
        + opt_tag(
        "VOICE-AGE"@,
        match f.voice_age {
            Some(a) => Some(dec_digits(a as nat)),
            None => None,
        },
    ) + opt_tag("VOICE-VARIANT"@, num_view(f.voice_variant)) + opt_tag(
        "VOICE-LANG"@,
        f.voice_lang,
    ) + opt_tag("LANG"@, f.lang) + opt_tag("EMPHASIS"@, f.emphasis) + opt_tag(
        "SAY-AS"@,
        f.say_as,
    ) + opt_tag("SAY-AS-FORMAT"@, f.say_as_format) + opt_tag(
        "SAY-AS-DETAIL"@,
        f.say_as_detail,
    ) + opt_tag("PHONEME-PH"@, f.phoneme_ph) + opt_tag("PHONEME-ALPHABET"@, f.phoneme_alphabet)
}

fn append_opt(tags: &mut String, name: &str, v: &Option<String>)
    ensures
        final(tags)@ == old(tags)@ + opt_tag(name@, opt_view(*v)),
{
    match v {
        Some(x) => append_drt_tag(tags, name, x.as_str()),
        None => {
            assert(old(tags)@ + opt_tag(name@, opt_view(*v)) =~= old(tags)@);
        },
    }
}

fn append_num(tags: &mut String, name: &str, v: Option<u32>)
    ensures
        final(tags)@ == old(tags)@ + opt_tag(name@, num_view(v)),
{
    match v {
        Some(n) => {
            let d = crate::num::dec_string(n as u64);
            append_drt_tag(tags, name, d.as_str());
        },
        None => {
            assert(old(tags)@ + opt_tag(name@, num_view(v)) =~= old(tags)@);
        },
    }
}

/// The `<DRT-*:V>` tags for the overrides of `frame`; empty when it sets none.
pub fn format_opts_tags(frame: &SsmlFrame) -> (tags: String)
    ensures
        tags@ == opts_tags(frame@),
{
    let mut tags = String::new();
    append_opt(&mut tags, "PROSODY-RATE", &frame.prosody_rate);
    append_opt(&mut tags, "PROSODY-PITCH", &frame.prosody_pitch);
    append_opt(&mut tags, "PROSODY-VOLUME", &frame.prosody_volume);
    append_opt(&mut tags, "PROSODY-RANGE", &frame.prosody_range);
    append_opt(&mut tags, "PROSODY-CONTOUR", &frame.prosody_contour);
    append_opt(&mut tags, "PROSODY-DURATION", &frame.prosody_duration);
    append_opt(&mut tags, "VOICE-NAME", &frame.voice_name);
    append_opt(&mut tags, "VOICE-GENDER", &frame.voice_gender);
    let age: Option<u32> = match frame.voice_age {
        Some(a) => Some(a as u32),
        None => None,
    };
    append_num(&mut tags, "VOICE-AGE", age);
    append_num(&mut tags, "VOICE-VARIANT", frame.voice_variant);
    append_opt(&mut tags, "VOICE-LANG", &frame.voice_lang);
    append_opt(&mut tags, "LANG", &frame.lang);
    append_opt(&mut tags, "EMPHASIS", &frame.emphasis);
    append_opt(&mut tags, "SAY-AS", &frame.say_as);
    append_opt(&mut tags, "SAY-AS-FORMAT", &frame.say_as_format);
    append_opt(&mut tags, "SAY-AS-DETAIL", &frame.say_as_detail);
    append_opt(&mut tags, "PHONEME-PH", &frame.phoneme_ph);
    append_opt(&mut tags, "PHONEME-ALPHABET", &frame.phoneme_alphabet);
    assert(num_view(age) == match frame.voice_age {
        Some(a) => Some(dec_digits(a as nat)),
        None => None::<Seq<char>>,
    });
    assert(tags@ =~= opts_tags(frame@));
    tags
}

pub open spec fn starts_tab(l: Seq<char>) -> bool {
    l.len() > 0 && l[0] == '\t'
}

/// A line of a fragment with `tags` added when it is a reading line.
pub open spec fn tagged_line(l: Seq<char>, tags: Seq<char>) -> Seq<char> {
    if starts_tab(l) {
        l + tags + seq!['\n']
    } else {
        l + seq!['\n']
    }
}

pub open spec fn join_tagged(ls: Seq<Seq<char>>, tags: Seq<char>) -> Seq<char>
    decreases ls.len(),
{
    if ls.len() == 0 {
        Seq::empty()
    } else {
        join_tagged(ls.drop_last(), tags) + tagged_line(ls.last(), tags)
    }
}

/// `fragment` with `tags` added to every reading line (every line is ended
/// by a newline); the fragment unchanged when there are no tags.
pub open spec fn opts_injected(fragment: Seq<char>, tags: Seq<char>) -> Seq<char> {
    if tags.len() == 0 {
        fragment
    } else {
        join_tagged(lines(fragment), tags)
    }
}

/// Appends the frame's `<DRT-*:V>` tags to every reading line of a CG-3
/// fragment: the whole run was uttered inside the same SSML scope.
pub fn inject_opts_tags(fragment: &str, frame: &SsmlFrame) -> (r: String)
    ensures
        r@ == opts_injected(fragment@, opts_tags(frame@)),
{
    let tags = format_opts_tags(frame);
    if tags.as_str().is_empty() {
        return fragment.to_string();
    }
    let ghost tv = tags@;
    let v = chars_of(fragment);
    let ls = split_lines(&v);
    let ghost lv = lines(fragment@);
    let mut out = String::new();
    let mut i: usize = 0;
    while i < ls.len()
        invariant
            i <= ls@.len() == lv.len(),
            lv == lines(fragment@),
            tv == tags@,
            forall|k: int| 0 <= k < ls@.len() ==> #[trigger] ls@[k]@ == lv[k],
            out@ == join_tagged(lv.take(i as int), tv),
        decreases ls@.len() - i,
    {
        let l = &ls[i];
        let ghost o0 = out@;
        push_chars(&mut out, l, 0, l.len());
        assert(l@.subrange(0, l@.len() as int) =~= l@);
        if l.len() > 0 && l[0] == '\t' {
            push_str(&mut out, tags.as_str());
        }
        push_char(&mut out, '\n');
        assert(lv.take(i + 1).drop_last() =~= lv.take(i as int));
        assert(out@ =~= o0 + tagged_line(lv[i as int], tv));
        i = i + 1;
    }
    assert(lv.take(ls@.len() as int) =~= lv);
    out
}

/// `<DRT-BREAK-AFTER:ms>`.
pub open spec fn break_tag(ms: u32) -> Seq<char> {
    "<DRT-BREAK-AFTER:"@ + dec_digits(ms as nat) + seq!['>']
}

/// A cohort header line, `"<word>"`.
pub open spec fn is_header(l: Seq<char>) -> bool {
    l.len() >= 2 && l[0] == '"' && l[1] == '<'
}

/// The index of the last cohort header among `ls`.
pub open spec fn last_header(ls: Seq<Seq<char>>) -> Option<int>
    decreases ls.len(),
{
    if ls.len() == 0 {
        None
    } else if is_header(ls.last()) {
        Some(ls.len() - 1)
    } else {
        last_header(ls.drop_last())
    }
}

/// Line `i` of a fragment whose last cohort header is line `start`: a reading
/// line after it gets the tag.
pub open spec fn break_line(l: Seq<char>, i: int, start: int, tag: Seq<char>) -> Seq<char> {
    if i > start && starts_tab(l) {
        l + seq![' '] + tag + seq!['\n']
    } else {
        l + seq!['\n']
    }
}

pub open spec fn join_break(ls: Seq<Seq<char>>, start: int, tag: Seq<char>) -> Seq<char>
    decreases ls.len(),
{
    if ls.len() == 0 {
        Seq::empty()
    } else {
        join_break(ls.drop_last(), start, tag) + break_line(ls.last(), ls.len() - 1, start, tag)
    }
}

/// `fragment` with `<DRT-BREAK-AFTER:ms>` added to the readings of its last
/// cohort (every line then ended by a newline); unchanged when it has no
/// cohort.
pub open spec fn break_injected(fragment: Seq<char>, ms: u32) -> Seq<char> {
    match last_header(lines(fragment)) {
        Some(start) => join_break(lines(fragment), start, break_tag(ms)),
        None => fragment,
    }
}

proof fn lemma_last_header(ls: Seq<Seq<char>>, n: int)
    requires
        0 <= n <= ls.len(),
        forall|k: int| n <= k < ls.len() ==> !is_header(#[trigger] ls[k]),
    ensures
        last_header(ls) == last_header(ls.take(n)),
    decreases ls.len() - n,
{
    if n < ls.len() {
        assert(ls.take(n + 1).drop_last() =~= ls.take(n));
        assert(ls.take(n + 1).last() == ls[n]);
        lemma_last_header(ls, n + 1);
    } else {
        assert(ls.take(n) =~= ls);
    }
}

proof fn lemma_last_header_found(ls: Seq<Seq<char>>, n: int)
    requires
        0 <= n < ls.len(),
        is_header(ls[n]),
        forall|k: int| n < k < ls.len() ==> !is_header(#[trigger] ls[k]),
    ensures
        last_header(ls) == Some(n),
{
    lemma_last_header(ls, n + 1);
    assert(ls.take(n + 1).last() == ls[n]);
}

/// Appends `<DRT-BREAK-AFTER:ms>` to every reading line under the last
/// cohort header of a CG-3 fragment.
pub fn inject_break_after_tag(fragment: &str, ms: u32) -> (r: String)
    ensures
        r@ == break_injected(fragment@, ms),
{
    let v = chars_of(fragment);
    let ls = split_lines(&v);
    let ghost lv = lines(fragment@);
    let mut j = ls.len();
    let mut found = false;
    while j > 0
        invariant_except_break
            !found,
        invariant
            j <= ls@.len() == lv.len(),
            lv == lines(fragment@),
            forall|k: int| 0 <= k < ls@.len() ==> #[trigger] ls@[k]@ == lv[k],
            forall|k: int| j <= k < lv.len() ==> !is_header(#[trigger] lv[k]),
        ensures
            found ==> 0 < j <= lv.len() && is_header(lv[j - 1]),
            !found ==> j == 0,
            forall|k: int| j <= k < lv.len() ==> !is_header(#[trigger] lv[k]),
        decreases j,
    {
        let l = &ls[j - 1];
        if l.len() >= 2 && l[0] == '"' && l[1] == '<' {
            found = true;
            break;
        }
        j = j - 1;
    }
    if !found {
        proof {
            lemma_last_header(lv, 0);
        }
        return fragment.to_string();
    }
    let start = j - 1;
    proof {
        lemma_last_header_found(lv, start as int);
    }
    let tag_num = crate::num::dec_string(ms as u64);
    let mut tag = String::new();
    push_str(&mut tag, "<DRT-BREAK-AFTER:");
    push_str(&mut tag, tag_num.as_str());
    push_char(&mut tag, '>');
    let ghost tv = tag@;
    assert(tv =~= break_tag(ms));
    let mut out = String::new();
    let mut i: usize = 0;
    while i < ls.len()
        invariant
            i <= ls@.len() == lv.len(),
            start < lv.len(),
            lv == lines(fragment@),
            tv == tag@,
            forall|k: int| 0 <= k < ls@.len() ==> #[trigger] ls@[k]@ == lv[k],
            out@ == join_break(lv.take(i as int), start as int, tv),
        decreases ls@.len() - i,
    {
        let l = &ls[i];
        let ghost o0 = out@;
        push_chars(&mut out, l, 0, l.len());
        assert(l@.subrange(0, l@.len() as int) =~= l@);
        if i > start && l.len() > 0 && l[0] == '\t' {
            push_char(&mut out, ' ');
            push_str(&mut out, tag.as_str());
        }
        push_char(&mut out, '\n');
        assert(lv.take(i + 1).drop_last() =~= lv.take(i as int));
        assert(lv.take(i + 1).len() - 1 == i);
        assert(out@ =~= o0 + break_line(lv[i as int], i as int, start as int, tv));
        i = i + 1;
    }
    assert(lv.take(ls@.len() as int) =~= lv);
    out
}

/// SSML break strengths.
#[derive(Debug, PartialEq, Eq, Structural, Clone, Copy)]
pub enum BreakStrength {
    No,
    ExtraWeak,
    Weak,
    Medium,
    Strong,
    ExtraStrong,
}

/// The attributes of a `<break/>`: its `time` in whole milliseconds, where
/// given, and its `strength`.
#[derive(Debug, PartialEq, Eq, Structural, Clone, Copy)]
pub struct BreakAttrs {
    pub time_ms: Option<u128>,
    pub strength: Option<BreakStrength>,
}

/// The pause of a break whose length is neither given nor implied.
pub const DEFAULT_BREAK_MS: u32 = 500;

/// Strength to milliseconds: `medium` is an ordinary inter-sentence pause,
/// and the scale walks outward monotonically from there.
pub open spec fn strength_ms(s: BreakStrength) -> u32 {
    match s {
        BreakStrength::No => 0,
        BreakStrength::ExtraWeak => 100,
        BreakStrength::Weak => 250,
        BreakStrength::Medium => 500,
        BreakStrength::Strong => 1000,
        BreakStrength::ExtraStrong => 1500,
    }
}

pub fn strength_to_ms(s: BreakStrength) -> (ms: u32)
    ensures
        ms == strength_ms(s),
{
    match s {
        BreakStrength::No => 0,
        BreakStrength::ExtraWeak => 100,
        BreakStrength::Weak => 250,
        BreakStrength::Medium => 500,
        BreakStrength::Strong => 1000,
        BreakStrength::ExtraStrong => 1500,
    }
}

/// The length of a break: its `time` (capped at `u32::MAX`) where given,
/// which governs over `strength`; else its strength's; else the default.
pub open spec fn break_len(a: BreakAttrs) -> u32 {
    match a.time_ms {
        Some(t) => if t > u32::MAX {
            u32::MAX
        } else {
            t as u32
        },
        None => match a.strength {
            Some(s) => strength_ms(s),
            None => DEFAULT_BREAK_MS,
        },
    }
}

pub fn break_ms(attrs: &BreakAttrs) -> (ms: u32)
    ensures
        ms == break_len(*attrs),
{
    match attrs.time_ms {
        Some(t) => {
            if t > u32::MAX as u128 {
                u32::MAX
            } else {
                t as u32
            }
        },
        None => match attrs.strength {
            Some(s) => strength_to_ms(s),
            None => DEFAULT_BREAK_MS,
        },
    }
}


/// `t` stands somewhere in `s`.
pub open spec fn has_part(s: Seq<char>, t: Seq<char>) -> bool {
    exists|i: int| 0 <= i && i + t.len() <= s.len() && #[trigger] s.subrange(i, i + t.len()) == t
}

proof fn lemma_has_part_end(a: Seq<char>, t: Seq<char>)
    ensures
        has_part(a + t, t),
{
    assert((a + t).subrange(a.len() as int, (a.len() + t.len()) as int) =~= t);
}

proof fn lemma_has_part_extend(a: Seq<char>, b: Seq<char>, t: Seq<char>)
    requires
        has_part(a, t),
    ensures
        has_part(a + b, t),
{
    let i = choose|i: int| 0 <= i && i + t.len() <= a.len() && #[trigger] a.subrange(i, i + t.len()) == t;
    assert((a + b).subrange(i, i + t.len()) =~= a.subrange(i, i + t.len()));
}

/// Where each of `ps` is the one before it with a part added, what stands
/// in one of them stands in the last.
proof fn lemma_chain(ps: Seq<Seq<char>>, ts: Seq<Seq<char>>, k: int, t: Seq<char>)
    requires
        ps.len() == ts.len() + 1,
        forall|j: int| 0 <= j < ts.len() ==> #[trigger] ps[j + 1] == ps[j] + ts[j],
        0 <= k <= ts.len(),
        has_part(ps[k], t),
    ensures
        has_part(ps[ts.len() as int], t),
    decreases ts.len() - k,
{
    if k < ts.len() {
        //PS[k + 1] == ps[k] + ts[k]);
        lemma_has_part_extend(ps[k], ts[k], t);
        lemma_chain(ps, ts, k + 1, t);
    }
}

proof fn lemma_opt_tag_len(name: Seq<char>, v: Option<Seq<char>>)
    ensures
        opt_tag(name, v).len() == 0 <==> v is None,
{
    reveal_strlit(" <DRT-");
}

/// Every override a scope sets shows in its tags, as ` <DRT-NAME:value>`
/// with the value made safe for a tag (numbers in decimal), whichever other
/// overrides are set beside it; and the tags are empty exactly when the
/// scope sets no override.
pub proof fn lemma_opts_tags_show_overrides(f: FrameV)
    ensures
        f.prosody_rate matches Some(v) ==> has_part(opts_tags(f), drt_tag("PROSODY-RATE"@, v)),
        f.prosody_pitch matches Some(v) ==> has_part(opts_tags(f), drt_tag("PROSODY-PITCH"@, v)),
        f.prosody_volume matches Some(v) ==> has_part(opts_tags(f), drt_tag("PROSODY-VOLUME"@, v)),
        f.prosody_range matches Some(v) ==> has_part(opts_tags(f), drt_tag("PROSODY-RANGE"@, v)),
        f.prosody_contour matches Some(v) ==> has_part(opts_tags(f), drt_tag("PROSODY-CONTOUR"@, v)),
        f.prosody_duration matches Some(v) ==> has_part(opts_tags(f), drt_tag("PROSODY-DURATION"@, v)),
        f.voice_name matches Some(v) ==> has_part(opts_tags(f), drt_tag("VOICE-NAME"@, v)),
        f.voice_gender matches Some(v) ==> has_part(opts_tags(f), drt_tag("VOICE-GENDER"@, v)),
        f.voice_age matches Some(a) ==> has_part(opts_tags(f), drt_tag("VOICE-AGE"@, dec_digits(a as nat))),
        f.voice_variant matches Some(a) ==> has_part(opts_tags(f), drt_tag("VOICE-VARIANT"@, dec_digits(a as nat))),
        f.voice_lang matches Some(v) ==> has_part(opts_tags(f), drt_tag("VOICE-LANG"@, v)),
        f.lang matches Some(v) ==> has_part(opts_tags(f), drt_tag("LANG"@, v)),
        f.emphasis matches Some(v) ==> has_part(opts_tags(f), drt_tag("EMPHASIS"@, v)),
        f.say_as matches Some(v) ==> has_part(opts_tags(f), drt_tag("SAY-AS"@, v)),
        f.say_as_format matches Some(v) ==> has_part(opts_tags(f), drt_tag("SAY-AS-FORMAT"@, v)),
        f.say_as_detail matches Some(v) ==> has_part(opts_tags(f), drt_tag("SAY-AS-DETAIL"@, v)),
        f.phoneme_ph matches Some(v) ==> has_part(opts_tags(f), drt_tag("PHONEME-PH"@, v)),
        f.phoneme_alphabet matches Some(v) ==> has_part(opts_tags(f), drt_tag("PHONEME-ALPHABET"@, v)),
        opts_tags(f).len() == 0 <==> (f.prosody_rate is None && f.prosody_pitch is None && f.prosody_volume is None && f.prosody_range is None && f.prosody_contour is None && f.prosody_duration is None && f.voice_name is None && f.voice_gender is None && f.voice_age is None && f.voice_variant is None && f.voice_lang is None && f.lang is None && f.emphasis is None && f.say_as is None && f.say_as_format is None && f.say_as_detail is None && f.phoneme_ph is None && f.phoneme_alphabet is None),
{
    let t0 = opt_tag("PROSODY-RATE"@, f.prosody_rate);
    lemma_opt_tag_len("PROSODY-RATE"@, f.prosody_rate);
    let t1 = opt_tag("PROSODY-PITCH"@, f.prosody_pitch);
    lemma_opt_tag_len("PROSODY-PITCH"@, f.prosody_pitch);
    let t2 = opt_tag("PROSODY-VOLUME"@, f.prosody_volume);
    lemma_opt_tag_len("PROSODY-VOLUME"@, f.prosody_volume);
    let t3 = opt_tag("PROSODY-RANGE"@, f.prosody_range);
    lemma_opt_tag_len("PROSODY-RANGE"@, f.prosody_range);
    let t4 = opt_tag("PROSODY-CONTOUR"@, f.prosody_contour);
    lemma_opt_tag_len("PROSODY-CONTOUR"@, f.prosody_contour);
    let t5 = opt_tag("PROSODY-DURATION"@, f.prosody_duration);
    lemma_opt_tag_len("PROSODY-DURATION"@, f.prosody_duration);
    let t6 = opt_tag("VOICE-NAME"@, f.voice_name);
    lemma_opt_tag_len("VOICE-NAME"@, f.voice_name);
    let t7 = opt_tag("VOICE-GENDER"@, f.voice_gender);
    lemma_opt_tag_len("VOICE-GENDER"@, f.voice_gender);
    let t8 = opt_tag("VOICE-AGE"@, match f.voice_age {
        Some(a) => Some(dec_digits(a as nat)),
        None => None,
    });
    lemma_opt_tag_len("VOICE-AGE"@, match f.voice_age {
        Some(a) => Some(dec_digits(a as nat)),
        None => None,
    });
    let t9 = opt_tag("VOICE-VARIANT"@, num_view(f.voice_variant));
    lemma_opt_tag_len("VOICE-VARIANT"@, num_view(f.voice_variant));
    let t10 = opt_tag("VOICE-LANG"@, f.voice_lang);
    lemma_opt_tag_len("VOICE-LANG"@, f.voice_lang);
    let t11 = opt_tag("LANG"@, f.lang);
    lemma_opt_tag_len("LANG"@, f.lang);
    let t12 = opt_tag("EMPHASIS"@, f.emphasis);
    lemma_opt_tag_len("EMPHASIS"@, f.emphasis);
    let t13 = opt_tag("SAY-AS"@, f.say_as);
    lemma_opt_tag_len("SAY-AS"@, f.say_as);
    let t14 = opt_tag("SAY-AS-FORMAT"@, f.say_as_format);
    lemma_opt_tag_len("SAY-AS-FORMAT"@, f.say_as_format);
    let t15 = opt_tag("SAY-AS-DETAIL"@, f.say_as_detail);
    lemma_opt_tag_len("SAY-AS-DETAIL"@, f.say_as_detail);
    let t16 = opt_tag("PHONEME-PH"@, f.phoneme_ph);
    lemma_opt_tag_len("PHONEME-PH"@, f.phoneme_ph);
    let t17 = opt_tag("PHONEME-ALPHABET"@, f.phoneme_alphabet);
    lemma_opt_tag_len("PHONEME-ALPHABET"@, f.phoneme_alphabet);
    let p0 = Seq::<char>::empty();
    let p1 = t0;
    let p2 = p1 + t1;
    let p3 = p2 + t2;
    let p4 = p3 + t3;
    let p5 = p4 + t4;
    let p6 = p5 + t5;
    let p7 = p6 + t6;
    let p8 = p7 + t7;
    let p9 = p8 + t8;
    let p10 = p9 + t9;
    let p11 = p10 + t10;
    let p12 = p11 + t11;
    let p13 = p12 + t12;
    let p14 = p13 + t13;
    let p15 = p14 + t14;
    let p16 = p15 + t15;
    let p17 = p16 + t16;
    let p18 = p17 + t17;
    assert(opts_tags(f) == p18);
    assert(p0 + t0 =~= p1);
    let ps = seq![p0, p1, p2, p3, p4, p5, p6, p7, p8, p9, p10, p11, p12, p13, p14, p15, p16, p17, p18];
    let ts = seq![t0, t1, t2, t3, t4, t5, t6, t7, t8, t9, t10, t11, t12, t13, t14, t15, t16, t17];
    assert forall|j: int| 0 <= j < 18 implies #[trigger] ps[j + 1] == ps[j] + ts[j] by {}
    assert forall|k: int| 0 <= k < 18 implies has_part(ps[18], #[trigger] ts[k]) by {
        lemma_has_part_end(ps[k], ts[k]);
        lemma_chain(ps, ts, k + 1, ts[k]);
    }
}


proof fn lemma_join_tagged_lines(ls: Seq<Seq<char>>, tags: Seq<char>)
    ensures
        join_tagged(ls, tags) == join_lines(
            Seq::new(ls.len(), |k: int| ls[k] + if ls[k].len() > 0 && ls[k][0] == '\t' {
                tags
            } else {
                Seq::empty()
            }),
        ),
    decreases ls.len(),
{
    let out = Seq::new(ls.len(), |k: int| ls[k] + if ls[k].len() > 0 && ls[k][0] == '\t' {
        tags
    } else {
        Seq::empty()
    });
    if ls.len() > 0 {
        let d = ls.drop_last();
        lemma_join_tagged_lines(d, tags);
        let od = Seq::new(d.len(), |k: int| d[k] + if d[k].len() > 0 && d[k][0] == '\t' {
            tags
        } else {
            Seq::empty()
        });
        assert(out.drop_last() =~= od);
        let l = ls.last();
        assert(ls[ls.len() - 1] == l);
        if !starts_tab(l) {
            assert(l + Seq::<char>::empty() =~= l);
        }
        assert(tagged_line(l, tags) =~= out.last() + seq!['\n']);
    } else {
        assert(out.len() == 0);
    }
}

/// Under a scope that sets overrides, each line of a fragment comes out in
/// order, ended by a newline, and every reading line (one that opens with a
/// tab), wherever it stands, carries the scope's tags at its end; a scope
/// with no override leaves the fragment as it is.
pub proof fn lemma_injected_reading_lines(fragment: Seq<char>, f: FrameV)
    ensures
        opts_tags(f).len() == 0 ==> opts_injected(fragment, opts_tags(f)) == fragment,
        opts_tags(f).len() > 0 ==> opts_injected(fragment, opts_tags(f)) == join_lines(
            Seq::new(
                lines(fragment).len(),
                |k: int| lines(fragment)[k] + if lines(fragment)[k].len() > 0 && lines(fragment)[k][0] == '\t' {
                    opts_tags(f)
                } else {
                    Seq::empty()
                },
            ),
        ),
{
    lemma_join_tagged_lines(lines(fragment), opts_tags(f));
}

} // verus!
