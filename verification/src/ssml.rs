//! Walking an SSML document for the tokenizer. Each text run is tokenized
//! under the overrides of the scope it stands in; the caller runs the
//! tokenizer, and this walk decides what to tokenize, tags the resulting CG-3
//! fragments with their scope's overrides, and places the pauses that
//! `<break/>` asks for after the fragment before them. ssml-parser reads the
//! document into the events that the walk takes.
use vstd::prelude::*;
use ssml_parser::elements::{
    BreakAttributes, ParsedElement, ProsodyAttributes, Strength, VoiceAttributes,
};
use ssml_parser::ParserEvent;
use crate::hfst::{
    break_injected, break_len, break_ms, inject_break_after_tag, inject_opts_tags, opt_view,
    opts_injected, opts_tags, root_frame, BreakAttrs, BreakStrength, FrameV, SsmlFrame,
};
use crate::ssml_check::{all_ascii, all_ascii_exec, events_safe, time_fits, time_fits_exec};
use crate::text::{chars_of, join_by, join_strings, push_str, reversed, strings_view, trim, trimmed};

verus! {

broadcast use vstd::string::group_string_axioms;

/// `<prosody>`'s attributes, each in its wire form.
#[derive(Debug)]
pub struct ProsodyAttrs {
    pub rate: Option<String>,
    pub pitch: Option<String>,
    pub volume: Option<String>,
    pub range: Option<String>,
    pub contour: Option<String>,
    pub duration: Option<String>,
}

/// `<voice>`'s attributes.
#[derive(Debug)]
pub struct VoiceAttrs {
    pub names: Vec<String>,
    pub gender: Option<String>,
    pub age: Option<u8>,
    pub variant: Option<usize>,
    pub languages: Vec<String>,
}

/// `<say-as>`'s attributes.
#[derive(Debug)]
pub struct SayAsAttrs {
    pub interpret_as: String,
    pub format: Option<String>,
    pub detail: Option<String>,
}

/// `<phoneme>`'s attributes.
#[derive(Debug)]
pub struct PhonemeAttrs {
    pub ph: String,
    pub alphabet: Option<String>,
}

/// An element that opens a scope.
#[derive(Debug)]
pub enum SsmlElement {
    Prosody(ProsodyAttrs),
    Voice(VoiceAttrs),
    Lang(String),
    /// `<emphasis>` with its level, where given.
    Emphasis(Option<String>),
    SayAs(SayAsAttrs),
    Phoneme(PhonemeAttrs),
    /// `<sub>` with its alias, spoken in place of the inner text.
    Sub(String),
    Other,
}

/// A `<break/>` as read: its `time` as ssml-parser writes it back (a number
/// and `s` or `ms`), and its strength.
#[derive(Debug)]
pub struct BreakText {
    pub time: Option<String>,
    pub strength: Option<BreakStrength>,
}

/// What ssml-parser makes of a time written `text`: its duration in whole
/// milliseconds (`TimeDesignation::from_str`, `duration`, `as_millis`), or
/// `None` where it is no time.
pub uninterp spec fn time_millis(text: Seq<char>) -> Option<u128>;

/// ssml-parser's `TimeDesignation::from_str` of `text`, then `duration` and
/// `Duration::as_millis`; `None` where the text is no time. Named
/// `time_millis(text)`. Written in ASCII, the number parses as an `f32`
/// (the time pattern's Unicode digits are the only way its unwrap fails),
/// and below 10^19 seconds (`time_fits`) the duration fits.
#[verifier::external_body]
fn time_text_ms(text: &str) -> (r: Option<u128>)
    requires
        all_ascii(text@),
        time_fits(text@),
    ensures
        r == time_millis(text@),
{
    match text.parse::<ssml_parser::elements::TimeDesignation>() {
        Ok(t) => Some(t.duration().as_millis()),
        Err(_) => None,
    }
}

/// A break's attributes: its time in milliseconds, where it reads as one;
/// a time of 10^19 seconds or more (see `time_fits`), or one not written in
/// ASCII, counts as the longest pause, `u32::MAX` milliseconds.
pub open spec fn break_attrs_of(b: BreakText) -> BreakAttrs {
    BreakAttrs {
        time_ms: match b.time {
            Some(t) => if all_ascii(t@) && time_fits(t@) {
                time_millis(t@)
            } else {
                Some(u32::MAX as u128)
            },
            None => None,
        },
        strength: b.strength,
    }
}

/// A break's attributes, its time read by ssml-parser.
pub fn break_attrs(b: &BreakText) -> (r: BreakAttrs)
    ensures
        r == break_attrs_of(*b),
{
    let time_ms = match &b.time {
        Some(t) => {
            let v = chars_of(t.as_str());
            if all_ascii_exec(&v) && time_fits_exec(&v) {
                time_text_ms(t.as_str())
            } else {
                Some(u32::MAX as u128)
            }
        },
        None => None,
    };
    BreakAttrs { time_ms, strength: b.strength }
}

/// One event of a parsed SSML document.
#[derive(Debug)]
pub enum SsmlEvent {
    Text(String),
    Break(BreakText),
    Open(SsmlElement),
    Close,
    Other,
}

/// A text run to tokenize, with the frame whose overrides its fragment gets.
#[derive(Debug)]
pub struct TokenizeRequest {
    pub text: String,
    pub frame: SsmlFrame,
}

pub open spec fn set_if(o: Option<String>, cur: Option<Seq<char>>) -> Option<Seq<char>> {
    match o {
        Some(v) => Some(v@),
        None => cur,
    }
}

pub open spec fn joined_if(v: Seq<String>, cur: Option<Seq<char>>) -> Option<Seq<char>> {
    if v.len() > 0 {
        Some(join_by(strings_view(v), ','))
    } else {
        cur
    }
}

/// The frame of the scope that `e` opens inside a scope with frame `p`.
pub open spec fn opened(p: FrameV, e: SsmlElement) -> FrameV {
    match e {
        SsmlElement::Prosody(a) => FrameV {
            prosody_rate: set_if(a.rate, p.prosody_rate),
            prosody_pitch: set_if(a.pitch, p.prosody_pitch),
            prosody_volume: set_if(a.volume, p.prosody_volume),
            prosody_range: set_if(a.range, p.prosody_range),
            prosody_contour: set_if(a.contour, p.prosody_contour),
            prosody_duration: set_if(a.duration, p.prosody_duration),
            ..p
        },
        SsmlElement::Voice(a) => FrameV {
            voice_name: joined_if(a.names@, p.voice_name),
            voice_gender: set_if(a.gender, p.voice_gender),
            voice_age: match a.age {
                Some(n) => Some(n),
                None => p.voice_age,
            },
            voice_variant: match a.variant {
                Some(n) => Some(n as u32),
                None => p.voice_variant,
            },
            voice_lang: joined_if(a.languages@, p.voice_lang),
            ..p
        },
        SsmlElement::Lang(l) => FrameV { lang: Some(l@), ..p },
        SsmlElement::Emphasis(level) => FrameV { emphasis: set_if(level, p.emphasis), ..p },
        SsmlElement::SayAs(a) => FrameV {
            say_as: Some(a.interpret_as@),
            say_as_format: set_if(a.format, p.say_as_format),
            say_as_detail: set_if(a.detail, p.say_as_detail),
            ..p
        },
        SsmlElement::Phoneme(a) => FrameV {
            phoneme_ph: Some(a.ph@),
            phoneme_alphabet: set_if(a.alphabet, p.phoneme_alphabet),
            ..p
        },
        SsmlElement::Sub(_) => FrameV { suppress: true, ..p },
        SsmlElement::Other => p,
    }
}

/// The state of a walk: the tagged fragments so far, the pause still to be
/// placed, and the frames of the open scopes (the document's root first).
pub struct WalkV {
    pub fragments: Seq<Seq<char>>,
    pub pending: u32,
    pub stack: Seq<FrameV>,
}

pub open spec fn sat_add(a: u32, b: u32) -> u32 {
    if a + b > u32::MAX {
        u32::MAX
    } else {
        (a + b) as u32
    }
}

/// A text run to tokenize under `f`, unless `f` is silenced or the run is
/// blank; runs are trimmed.
pub open spec fn request_for(s: Seq<char>, f: FrameV) -> Option<(Seq<char>, FrameV)> {
    if f.suppress || trim(s).len() == 0 {
        None
    } else {
        Some((trim(s), f))
    }
}

/// What an event does to the walk, and the text run (with its frame) it asks
/// the caller to tokenize.
#[verifier::opaque]
pub open spec fn walk_step(w: WalkV, ev: SsmlEvent) -> (WalkV, Option<(Seq<char>, FrameV)>) {
    match ev {
        SsmlEvent::Text(s) => (w, request_for(s@, w.stack.last())),
        SsmlEvent::Break(a) => (
            WalkV { pending: sat_add(w.pending, break_len(break_attrs_of(a))), ..w },
            None,
        ),
        SsmlEvent::Open(e) => {
            let parent = w.stack.last();
            let w2 = WalkV { stack: w.stack.push(opened(parent, e)), ..w };
            match e {
                SsmlElement::Sub(alias) => (w2, request_for(alias@, parent)),
                _ => (w2, None),
            }
        },
        SsmlEvent::Close => if w.stack.len() > 1 {
            (WalkV { stack: w.stack.drop_last(), ..w }, None)
        } else {
            (w, None)
        },
        SsmlEvent::Other => (w, None),
    }
}

/// The fragments with the pending pause placed after the last one, where
/// there is a pause and a fragment to carry it.
pub open spec fn placed(w: WalkV) -> Seq<Seq<char>> {
    if w.pending > 0 && w.fragments.len() > 0 {
        w.fragments.update(
            w.fragments.len() - 1,
            break_injected(w.fragments.last(), w.pending),
        )
    } else {
        w.fragments
    }
}

/// The walk after the tokenizer answered a request with `raw`, the request
/// made under frame `f`: the pending pause goes after the fragment before,
/// and the new fragment, tagged with `f`'s overrides, is added.
pub open spec fn walk_accept(w: WalkV, raw: Seq<char>, f: FrameV) -> WalkV {
    WalkV {
        fragments: placed(w).push(opts_injected(raw, opts_tags(f))),
        pending: if w.pending > 0 && w.fragments.len() > 0 {
            0
        } else {
            w.pending
        },
        stack: w.stack,
    }
}

pub open spec fn concat_all(parts: Seq<Seq<char>>) -> Seq<char>
    decreases parts.len(),
{
    if parts.len() == 0 {
        Seq::empty()
    } else {
        concat_all(parts.drop_last()) + parts.last()
    }
}

/// The tokenized document: the fragments, the last pause placed, in order.
pub open spec fn walk_output(w: WalkV) -> Seq<char> {
    concat_all(placed(w))
}

pub open spec fn request_view(r: Option<TokenizeRequest>) -> Option<(Seq<char>, FrameV)> {
    match r {
        Some(q) => Some((q.text@, q.frame@)),
        None => None,
    }
}

/// A walk through an SSML document's events.
#[derive(Debug)]
pub struct SsmlWalk {
    fragments: Vec<String>,
    pending_break_ms: u32,
    stack: Vec<SsmlFrame>,
}

impl View for SsmlWalk {
    type V = WalkV;

    closed spec fn view(&self) -> WalkV {
        WalkV {
            fragments: strings_view(self.fragments@),
            pending: self.pending_break_ms,
            stack: self.stack@.map_values(|f: SsmlFrame| f@),
        }
    }
}

fn set_opt(target: &mut Option<String>, o: &Option<String>)
    ensures
        opt_view(*final(target)) == set_if(*o, opt_view(*old(target))),
{
    match o {
        Some(v) => {
            *target = Some(v.clone());
        },
        None => {},
    }
}

fn open_frame(parent: &SsmlFrame, e: &SsmlElement) -> (f: SsmlFrame)
    ensures
        f@ == opened(parent@, *e),
{
    let mut f = parent.copy();
    match e {
        SsmlElement::Prosody(a) => {
            set_opt(&mut f.prosody_rate, &a.rate);
            set_opt(&mut f.prosody_pitch, &a.pitch);
            set_opt(&mut f.prosody_volume, &a.volume);
            set_opt(&mut f.prosody_range, &a.range);
            set_opt(&mut f.prosody_contour, &a.contour);
            set_opt(&mut f.prosody_duration, &a.duration);
        },
        SsmlElement::Voice(a) => {
            if a.names.len() > 0 {
                f.voice_name = Some(join_strings(&a.names, ','));
            }
            set_opt(&mut f.voice_gender, &a.gender);
            match a.age {
                Some(n) => {
                    f.voice_age = Some(n);
                },
                None => {},
            }
            match a.variant {
                Some(n) => {
                    f.voice_variant = Some(n as u32);
                },
                None => {},
            }
            if a.languages.len() > 0 {
                f.voice_lang = Some(join_strings(&a.languages, ','));
            }
        },
        SsmlElement::Lang(l) => {
            f.lang = Some(l.clone());
        },
        SsmlElement::Emphasis(level) => {
            set_opt(&mut f.emphasis, level);
        },
        SsmlElement::SayAs(a) => {
            f.say_as = Some(a.interpret_as.clone());
            set_opt(&mut f.say_as_format, &a.format);
            set_opt(&mut f.say_as_detail, &a.detail);
        },
        SsmlElement::Phoneme(a) => {
            f.phoneme_ph = Some(a.ph.clone());
            set_opt(&mut f.phoneme_alphabet, &a.alphabet);
        },
        SsmlElement::Sub(_) => {
            f.suppress = true;
        },
        SsmlElement::Other => {},
    }
    f
}

fn request(s: &str, f: &SsmlFrame) -> (r: Option<TokenizeRequest>)
    ensures
        request_view(r) == request_for(s@, f@),
{
    if f.suppress {
        return None;
    }
    let t = trimmed(s);
    if t.as_str().is_empty() {
        None
    } else {
        Some(TokenizeRequest { text: t, frame: f.copy() })
    }
}

impl SsmlWalk {
    /// The walk is well formed: the document's root scope is always open.
    pub closed spec fn wf(&self) -> bool {
        self.stack@.len() > 0
    }

    /// A walk at the start of a document: nothing tokenized, no pause, the
    /// root scope open with nothing overridden.
    pub fn new() -> (w: SsmlWalk)
        ensures
            w.wf(),
            w@ == (WalkV { fragments: Seq::empty(), pending: 0, stack: seq![root_frame()] }),
    {
        let mut stack: Vec<SsmlFrame> = Vec::new();
        stack.push(SsmlFrame::default());
        let w = SsmlWalk { fragments: Vec::new(), pending_break_ms: 0, stack };
        assert(w@.fragments =~= Seq::<Seq<char>>::empty());
        assert(w@.stack =~= seq![root_frame()]);
        w
    }

    /// Takes one event; returns the text run that it asks to tokenize, if
    /// any, with the frame whose overrides the fragment gets.
    pub fn step(&mut self, ev: SsmlEvent) -> (req: Option<TokenizeRequest>)
        requires
            old(self).wf(),
        ensures
            final(self).wf(),
            (final(self)@, request_view(req)) == walk_step(old(self)@, ev),
    {
        reveal(walk_step);
        let ghost w = self@;
        let top = self.stack.len() - 1;
        match ev {
            SsmlEvent::Text(s) => {
                request(s.as_str(), &self.stack[top])
            },
            SsmlEvent::Break(a) => {
                let attrs = break_attrs(&a);
                self.pending_break_ms = self.pending_break_ms.saturating_add(break_ms(&attrs));
                None
            },
            SsmlEvent::Open(e) => {
                let frame = open_frame(&self.stack[top], &e);
                let r = match &e {
                    SsmlElement::Sub(alias) => request(alias.as_str(), &self.stack[top]),
                    _ => None,
                };
                self.stack.push(frame);
                assert(self@.stack =~= w.stack.push(opened(w.stack.last(), e)));
                r
            },
            SsmlEvent::Close => {
                if self.stack.len() > 1 {
                    self.stack.pop();
                    assert(self@.stack =~= w.stack.drop_last());
                }
                None
            },
            SsmlEvent::Other => None,
        }
    }

    fn place_pending(&mut self)
        ensures
            final(self).stack@ == old(self).stack@,
            strings_view(final(self).fragments@) == placed(old(self)@),
            final(self).pending_break_ms == (if old(self).pending_break_ms > 0
                && old(self).fragments@.len() > 0 {
                0
            } else {
                old(self).pending_break_ms
            }),
    {
        if self.pending_break_ms > 0 && self.fragments.len() > 0 {
            let last = self.fragments.len() - 1;
            let placed_last = inject_break_after_tag(self.fragments[last].as_str(), self.pending_break_ms);
            let ghost f0 = self.fragments@;
            self.fragments.set(last, placed_last);
            assert(strings_view(self.fragments@) =~= placed(old(self)@));
            self.pending_break_ms = 0;
        }
    }

    /// Takes the tokenizer's answer to a request made under `frame`.
    pub fn accept(&mut self, raw: &str, frame: &SsmlFrame)
        requires
            old(self).wf(),
        ensures
            final(self).wf(),
            final(self)@ == walk_accept(old(self)@, raw@, frame@),
    {
        let fragment = inject_opts_tags(raw, frame);
        self.place_pending();
        let ghost f1 = self.fragments@;
        self.fragments.push(fragment);
        assert(strings_view(self.fragments@) =~= strings_view(f1).push(
            opts_injected(raw@, opts_tags(frame@)),
        ));
        assert(self@.stack =~= old(self)@.stack);
    }

    /// The tokenized document, with the last pause placed.
    pub fn finish(self) -> (out: String)
        ensures
            out@ == walk_output(self@),
    {
        let mut w = self;
        w.place_pending();
        let ghost pv = strings_view(w.fragments@);
        let mut out = String::new();
        let mut i: usize = 0;
        while i < w.fragments.len()
            invariant
                i <= w.fragments@.len(),
                pv == strings_view(w.fragments@),
                out@ == concat_all(pv.take(i as int)),
            decreases w.fragments@.len() - i,
        {
            push_str(&mut out, w.fragments[i].as_str());
            assert(pv.take(i + 1).drop_last() =~= pv.take(i as int));
            i = i + 1;
        }
        assert(pv.take(w.fragments@.len() as int) =~= pv);
        out
    }
}

/// What ssml-parser reads a document as: its events, or its error message.
pub uninterp spec fn ssml_events(input: Seq<char>) -> Result<Seq<SsmlEvent>, Seq<char>>;

#[verifier::external_type_specification]
#[verifier::external_body]
pub struct ExParserEvent(ssml_parser::ParserEvent);

#[verifier::external_type_specification]
#[verifier::external_body]
pub struct ExParsedElement(ssml_parser::elements::ParsedElement);

#[verifier::external_type_specification]
#[verifier::external_body]
pub struct ExBreakAttributes(ssml_parser::elements::BreakAttributes);

#[verifier::external_type_specification]
#[verifier::external_body]
pub struct ExProsodyAttributes(ssml_parser::elements::ProsodyAttributes);

#[verifier::external_type_specification]
#[verifier::external_body]
pub struct ExVoiceAttributes(ssml_parser::elements::VoiceAttributes);

#[verifier::external_type_specification]
#[verifier::external_body]
pub struct ExStrength(ssml_parser::elements::Strength);

/// ssml-parser's break `Strength` as the library's, variant for variant.
#[verifier::external_body]
fn strength_from(s: Strength) -> BreakStrength {
    match s {
        Strength::No => BreakStrength::No,
        Strength::ExtraWeak => BreakStrength::ExtraWeak,
        Strength::Weak => BreakStrength::Weak,
        Strength::Medium => BreakStrength::Medium,
        Strength::Strong => BreakStrength::Strong,
        Strength::ExtraStrong => BreakStrength::ExtraStrong,
    }
}

/// A `<break/>`'s attributes: its `time` written back by its `Display`
/// (an `f32` and `s` or `ms`), its strength as above.
#[verifier::external_body]
fn break_from(a: BreakAttributes) -> BreakText {
    BreakText { time: a.time.map(|t| t.to_string()), strength: a.strength.map(strength_from) }
}

/// `<prosody>`'s attributes, each written back by its `Display`.
#[verifier::external_body]
fn prosody_from(a: ProsodyAttributes) -> ProsodyAttrs {
    ProsodyAttrs {
        rate: a.rate.map(|v| v.to_string()),
        pitch: a.pitch.map(|v| v.to_string()),
        volume: a.volume.map(|v| v.to_string()),
        range: a.range.map(|v| v.to_string()),
        contour: a.contour.map(|v| v.to_string()),
        duration: a.duration.map(|v| v.to_string()),
    }
}

/// `<voice>`'s attributes: the names as given, gender and languages written
/// back by their `Display`, the variant's number.
#[verifier::external_body]
fn voice_from(a: VoiceAttributes) -> VoiceAttrs {
    VoiceAttrs {
        names: a.name,
        gender: a.gender.map(|g| g.to_string()),
        age: a.age,
        variant: a.variant.map(|v| v.get()),
        languages: a.languages.iter().map(|p| p.to_string()).collect(),
    }
}

/// An opening element of ssml-parser as the library's, one arm per element
/// that the walk treats apart; the others become `Other`.
#[verifier::external_body]
fn element_from(e: ParsedElement) -> SsmlElement {
    match e {
        ParsedElement::Prosody(a) => SsmlElement::Prosody(prosody_from(a)),
        ParsedElement::Voice(a) => SsmlElement::Voice(voice_from(a)),
        ParsedElement::Lang(a) => SsmlElement::Lang(a.lang),
        ParsedElement::Emphasis(a) => SsmlElement::Emphasis(a.level.map(|l| l.to_string())),
        ParsedElement::SayAs(a) => SsmlElement::SayAs(
            SayAsAttrs { interpret_as: a.interpret_as, format: a.format, detail: a.detail },
        ),
        ParsedElement::Phoneme(a) => SsmlElement::Phoneme(
            PhonemeAttrs { ph: a.ph, alphabet: a.alphabet.map(|x| x.to_string()) },
        ),
        ParsedElement::Sub(a) => SsmlElement::Sub(a.alias),
        _ => SsmlElement::Other,
    }
}

/// A `ParserEvent` as the library's event: text, an opening, a closing, a
/// `<break/>`, or another empty element.
#[verifier::external_body]
fn event_from(ev: ParserEvent) -> SsmlEvent {
    match ev {
        ParserEvent::Text(s) => SsmlEvent::Text(s),
        ParserEvent::Open(e) => SsmlEvent::Open(element_from(e)),
        ParserEvent::Close(_) => SsmlEvent::Close,
        ParserEvent::Empty(ParsedElement::Break(a)) => SsmlEvent::Break(break_from(a)),
        ParserEvent::Empty(_) => SsmlEvent::Other,
    }
}

/// ssml-parser's `parse_ssml`, then `Ssml::event_iter` with each event
/// converted as above: the result is named `ssml_events`, the grammar behind
/// it not written out. ssml-parser panics on some documents (see
/// `ssml_check`); `events_safe` leaves them out. The conversion takes no
/// duration: a break's time is kept as text, read by `time_text_ms`.
#[verifier::external_body]
fn parse_ssml_events(input: &str) -> (r: Result<Vec<SsmlEvent>, String>)
    requires
        events_safe(input@),
    ensures
        match r {
            Ok(v) => ssml_events(input@) == Ok::<Seq<SsmlEvent>, Seq<char>>(v@),
            Err(e) => ssml_events(input@) == Err::<Seq<SsmlEvent>, Seq<char>>(e@),
        },
{
    match ssml_parser::parse_ssml(input) {
        Ok(ssml) => Ok(ssml.event_iter().map(event_from).collect()),
        Err(e) => Err(e.to_string()),
    }
}

/// Where a walk stands: a text run to tokenize under a frame, or the
/// tokenized document.
pub enum ForwardV {
    Need(Seq<char>, FrameV),
    Done(Seq<char>),
}

/// The walk at the start of a document.
pub open spec fn start_walk() -> WalkV {
    WalkV { fragments: Seq::empty(), pending: 0, stack: seq![root_frame()] }
}

/// The walk from `w` through `evs`, its requests answered by `answers` in
/// order: the document, or the first request no answer is left for.
pub open spec fn run_walk(w: WalkV, evs: Seq<SsmlEvent>, answers: Seq<Seq<char>>) -> ForwardV
    decreases evs.len(),
{
    if evs.len() == 0 {
        ForwardV::Done(walk_output(w))
    } else {
        let (w2, req) = walk_step(w, evs[0]);
        match req {
            None => run_walk(w2, evs.drop_first(), answers),
            Some((text, f)) => if answers.len() == 0 {
                ForwardV::Need(text, f)
            } else {
                run_walk(walk_accept(w2, answers[0], f), evs.drop_first(), answers.drop_first())
            },
        }
    }
}

/// A text run still to tokenize, or the tokenized document.
#[derive(Debug)]
pub enum SsmlForward {
    Need(TokenizeRequest),
    Done(String),
}

pub open spec fn forward_view(f: SsmlForward) -> ForwardV {
    match f {
        SsmlForward::Need(q) => ForwardV::Need(q.text@, q.frame@),
        SsmlForward::Done(s) => ForwardV::Done(s@),
    }
}

/// Walks a document's events from its start, the tokenizer's answers to its
/// requests given in order in `tokenized`. Where they run out before the
/// walk does, the request that needs the next answer comes back.
#[verifier::spinoff_prover]
pub fn walk_events(events: Vec<SsmlEvent>, tokenized: &Vec<String>) -> (f: SsmlForward)
    ensures
        forward_view(f) == run_walk(start_walk(), events@, strings_view(tokenized@)),
{
    let ghost evs = events@;
    let ghost answers = strings_view(tokenized@);
    let n = events.len();
    let mut rest = reversed(events);
    let mut walk = SsmlWalk::new();
    let mut i: usize = 0;
    let mut j: usize = 0;
    let mut need: Option<TokenizeRequest> = None;
    assert(evs.skip(0) =~= evs);
    assert(answers.skip(0) =~= answers);
    while rest.len() > 0
        invariant_except_break
            need is None,
            i + rest@.len() == n,
            run_walk(walk@, evs.skip(i as int), answers.skip(j as int)) == run_walk(
                start_walk(),
                evs,
                answers,
            ),
        invariant
            walk.wf(),
            n == evs.len(),
            i + rest@.len() <= n,
            forall|k: int| 0 <= k < rest@.len() ==> rest@[k] == evs[n - 1 - k],
            j <= tokenized@.len(),
            answers == strings_view(tokenized@),
        ensures
            match need {
                Some(q) => run_walk(start_walk(), evs, answers) == ForwardV::Need(
                    q.text@,
                    q.frame@,
                ),
                None => i == n && run_walk(walk@, evs.skip(i as int), answers.skip(j as int))
                    == run_walk(start_walk(), evs, answers),
            },
        decreases rest@.len(),
    {
        let ghost r0 = rest@;
        let ev = rest.pop().unwrap();
        proof {
            assert(ev == r0[r0.len() - 1]);
            assert(r0[r0.len() - 1] == evs[i as int]);
            assert(evs.skip(i as int)[0] == evs[i as int]);
            assert(evs.skip(i as int).drop_first() =~= evs.skip(i + 1));
        }
        let ghost w0 = walk@;
        let ghost e0 = ev;
        let req = walk.step(ev);
        match req {
            None => {},
            Some(q) => {
                if j == tokenized.len() {
                    assert(answers.skip(j as int).len() == 0);
                    need = Some(q);
                    break;
                }
                walk.accept(tokenized[j].as_str(), &q.frame);
                proof {
                    assert(answers.skip(j as int)[0] == answers[j as int]);
                    assert(answers.skip(j as int).drop_first() =~= answers.skip(j + 1));
                }
                j = j + 1;
            },
        }
        i = i + 1;
    }
    match need {
        Some(q) => SsmlForward::Need(q),
        None => {
            assert(evs.skip(i as int).len() == 0);
            SsmlForward::Done(walk.finish())
        },
    }
}

/// Tokenizes an SSML document: ssml-parser reads it, and its events are
/// walked with the tokenizer's answers in `tokenized`. The parser's error
/// message where it refuses the document.
pub fn forward_ssml(input: &str, tokenized: &Vec<String>) -> (r: Result<SsmlForward, String>)
    requires
        events_safe(input@),
    ensures
        match ssml_events(input@) {
            Ok(evs) => r matches Ok(f) && forward_view(f) == run_walk(
                start_walk(),
                evs,
                strings_view(tokenized@),
            ),
            Err(m) => r matches Err(e) && e@ == m,
        },
{
    match parse_ssml_events(input) {
        Ok(events) => Ok(walk_events(events, tokenized)),
        Err(e) => Err(e),
    }
}

} // verus!

