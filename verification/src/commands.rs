//! The small commands of a pipeline and the decisions of its streaming
//! loop: what a command does with each event it receives, how many of a
//! forward's values a tap lets through, and what a trickle emits.
use vstd::prelude::*;
use crate::num::{dec_digits, push_dec};
use crate::pipeline::TapOutput;
use crate::ssml_check::text_safe;
use crate::text::{chars_of, join_by, join_strings, push_char, push_str, str_eq, strings_view};
use crate::unicode::{to_uppercase, uppercased};

verus! {

broadcast use vstd::string::group_string_axioms;

/// Reverses its input string.
#[derive(Debug)]
pub struct Reverse;

impl Reverse {
    /// The characters of `input` in reverse order.
    pub fn run(&self, input: &str) -> (r: String)
        ensures
            r@ == input@.reverse(),
    {
        let v = chars_of(input);
        let mut out = String::new();
        let mut i = v.len();
        while i > 0
            invariant
                i <= v@.len(),
                v@ == input@,
                out@ == v@.skip(i as int).reverse(),
            decreases i,
        {
            i = i - 1;
            push_char(&mut out, v[i]);
            assert(out@ =~= v@.skip(i as int).reverse());
        }
        assert(v@.skip(0) =~= v@);
        out
    }
}

/// Converts its input string to upper case.
#[derive(Debug)]
pub struct Upper;

impl Upper {
    /// `input` in upper case (Unicode's mapping).
    pub fn run(&self, input: &str) -> (r: String)
        ensures
            r@ == uppercased(input@),
    {
        to_uppercase(input)
    }
}

/// What ssml-parser makes of a document: its text, or its error message.
pub uninterp spec fn ssml_text(input: Seq<char>) -> Result<Seq<char>, Seq<char>>;

/// ssml-parser's `parse_ssml` then `Ssml::get_text`: the synthesisable text
/// of a document, or the parser's error message. The result is named
/// `ssml_text`; the grammar behind it is not written out here. The parser
/// panics on a `contour` pair without a comma and on a time written with a
/// non-ASCII digit; `text_safe` leaves those documents out (see
/// `ssml_check` for the few others it leaves out with them).
#[verifier::external_body]
fn parse_ssml_text(input: &str) -> (r: Result<String, String>)
    requires
        text_safe(input@),
    ensures
        match r {
            Ok(t) => ssml_text(input@) == Ok::<Seq<char>, Seq<char>>(t@),
            Err(e) => ssml_text(input@) == Err::<Seq<char>, Seq<char>>(e@),
        },
{
    match ssml_parser::parse_ssml(input) {
        Ok(ssml) => Ok(ssml.get_text().to_string()),
        Err(e) => Err(e.to_string()),
    }
}

/// Strips the markup off an SSML document.
#[derive(Debug)]
pub struct Strip;

impl Strip {
    /// The text of an SSML document, or the parser's error message.
    pub fn run(&self, input: &str) -> (r: Result<String, String>)
        requires
            text_safe(input@),
        ensures
            match r {
                Ok(t) => ssml_text(input@) == Ok::<Seq<char>, Seq<char>>(t@),
                Err(e) => ssml_text(input@) == Err::<Seq<char>, Seq<char>>(e@),
            },
    {
        parse_ssml_text(input)
    }
}

/// The multi-word-expression splitter.
#[derive(Debug)]
pub struct MweSplit {
    _private: (),
}

impl MweSplit {
    pub fn new() -> (m: MweSplit) {
        MweSplit { _private: () }
    }
}

/// The settings of a Constraint Grammar run: whether to trace, so that
/// removed readings stay in the output marked with `;`.
#[derive(Debug)]
pub struct Applicator {
    trace: bool,
}

impl Applicator {
    /// A run without tracing.
    pub fn new() -> (a: Applicator)
        ensures
            !a.tracing(),
    {
        Applicator { trace: false }
    }

    pub closed spec fn tracing(&self) -> bool {
        self.trace
    }

    /// Turns tracing on or off for the runs that follow.
    pub fn set_trace(&mut self, trace: bool)
        ensures
            final(self).tracing() == trace,
    {
        self.trace = trace;
    }

    /// Whether runs trace.
    pub fn trace(&self) -> (t: bool)
        ensures
            t == self.tracing(),
    {
        self.trace
    }
}

/// The kinds of events that travel between the commands of a pipeline.
#[derive(Debug, PartialEq, Eq, Structural, Clone, Copy)]
pub enum EventKind {
    /// A value to work on.
    Value,
    /// The end of a run of values.
    Finish,
    /// An error upstream.
    Error,
    /// Stop the work on the current value; the pipeline stays alive.
    Cancel,
    /// Tear the pipeline down.
    Close,
}

/// What a stateless command does with an event.
#[derive(Debug, PartialEq, Eq, Structural, Clone, Copy)]
pub enum StreamStep {
    /// Forward the value and send what comes out.
    Forward,
    /// Pass the event on and keep listening.
    Pass,
    /// Pass the error on and end with it.
    PassAndFail,
    /// Pass the event on and end.
    PassAndEnd,
}

pub open spec fn stream_step_of(e: EventKind) -> StreamStep {
    match e {
        EventKind::Value => StreamStep::Forward,
        EventKind::Finish => StreamStep::Pass,
        EventKind::Error => StreamStep::PassAndFail,
        EventKind::Cancel => StreamStep::Pass,
        EventKind::Close => StreamStep::PassAndEnd,
    }
}

/// What a stateless command does with an event: a value is forwarded, an
/// error passed on and ended with, a close passed on and ended at, and a
/// finish or a cancel (nothing in flight to drop) passed on.
pub fn stream_step(e: EventKind) -> (s: StreamStep)
    ensures
        s == stream_step_of(e),
{
    match e {
        EventKind::Value => StreamStep::Forward,
        EventKind::Finish => StreamStep::Pass,
        EventKind::Error => StreamStep::PassAndFail,
        EventKind::Cancel => StreamStep::Pass,
        EventKind::Close => StreamStep::PassAndEnd,
    }
}

/// How many of a forward's values are sent, given what the tap says of
/// each: those before the first that it stops.
pub open spec fn sent_count(taps: Seq<TapOutput>) -> nat
    decreases taps.len(),
{
    if taps.len() == 0 {
        0
    } else if taps[0] == TapOutput::Stop {
        0
    } else {
        1 + sent_count(taps.drop_first())
    }
}

/// How many of a forward's values go out when a tap looks at each in turn:
/// up to (not including) the first it stops.
pub fn values_to_send(taps: &Vec<TapOutput>) -> (n: usize)
    ensures
        n == sent_count(taps@),
        n <= taps@.len(),
{
    let mut i: usize = 0;
    assert(taps@.skip(0) =~= taps@);
    while i < taps.len() && taps[i] == TapOutput::Continue
        invariant
            i <= taps@.len(),
            sent_count(taps@) == i + sent_count(taps@.skip(i as int)),
        decreases taps@.len() - i,
    {
        assert(taps@.skip(i as int).drop_first() =~= taps@.skip(i + 1));
        i = i + 1;
    }
    proof {
        if i < taps@.len() {
            assert(taps@.skip(i as int)[0] == taps@[i as int]);
        }
    }
    i
}

/// An event as a stateless command's streaming loop takes it in: a value
/// with what forwarding it gave (its values, or the forward's error), a
/// finish, a cancel, an error from upstream, or a close.
#[derive(Debug)]
pub enum StreamIn {
    Value(Result<Vec<String>, String>),
    Finish,
    Cancel,
    Error(String),
    Close,
}

/// An event the loop sends on.
#[derive(Debug)]
pub enum StreamOut {
    Value(String),
    Finish,
    Cancel,
    Error(String),
    Close,
}

pub open spec fn out_values(vs: Seq<String>) -> Seq<StreamOut> {
    vs.map_values(|v: String| StreamOut::Value(v))
}

/// What the loop sends for the events `evs`, with no tap, and how it ends:
/// `None` while it still listens; `Ok` after a close; `Err` with the message
/// of an error from upstream or from forwarding, each passed on first.
pub open spec fn stream_run(evs: Seq<StreamIn>) -> (Seq<StreamOut>, Option<Result<(), String>>)
    decreases evs.len(),
{
    if evs.len() == 0 {
        (Seq::empty(), None)
    } else {
        let rest = stream_run(evs.drop_first());
        match evs[0] {
            StreamIn::Value(Ok(vs)) => (out_values(vs@) + rest.0, rest.1),
            StreamIn::Value(Err(m)) => (seq![StreamOut::Error(m)], Some(Err(m))),
            StreamIn::Finish => (seq![StreamOut::Finish] + rest.0, rest.1),
            StreamIn::Cancel => (seq![StreamOut::Cancel] + rest.0, rest.1),
            StreamIn::Error(m) => (seq![StreamOut::Error(m)], Some(Err(m))),
            StreamIn::Close => (seq![StreamOut::Close], Some(Ok(()))),
        }
    }
}

/// A stateless command's loop takes its events one after another: what it
/// sends for `a` then `b` is what it sends for `a` followed, while it still
/// listens after `a`, by what it sends for `b`; once `a` has ended it (a
/// close or an error), nothing of `b` is read.
pub proof fn lemma_stream_run_in_order(a: Seq<StreamIn>, b: Seq<StreamIn>)
    ensures
        stream_run(a + b) == (if stream_run(a).1 is None {
            (stream_run(a).0 + stream_run(b).0, stream_run(b).1)
        } else {
            stream_run(a)
        }),
    decreases a.len(),
{
    if a.len() == 0 {
        assert(a + b =~= b);
        assert(Seq::<StreamOut>::empty() + stream_run(b).0 =~= stream_run(b).0);
    } else {
        assert((a + b)[0] == a[0]);
        assert((a + b).drop_first() =~= a.drop_first() + b);
        lemma_stream_run_in_order(a.drop_first(), b);
        let r = stream_run(a.drop_first());
        let rb = stream_run(b);
        match a[0] {
            StreamIn::Value(Ok(vs)) => {
                assert(out_values(vs@) + (r.0 + rb.0) =~= (out_values(vs@) + r.0) + rb.0);
            },
            StreamIn::Finish => {
                assert(seq![StreamOut::Finish] + (r.0 + rb.0) =~= (seq![StreamOut::Finish] + r.0) + rb.0);
            },
            StreamIn::Cancel => {
                assert(seq![StreamOut::Cancel] + (r.0 + rb.0) =~= (seq![StreamOut::Cancel] + r.0) + rb.0);
            },
            _ => {},
        }
    }
}

/// A stateless command's streaming loop over the events `evs` (with no
/// tap), each taken as `stream_step` decides: what it sends, in order, and
/// how it ends (`None` when the events run out while it listens).
pub fn run_stream(evs: Vec<StreamIn>) -> (r: (Vec<StreamOut>, Option<Result<(), String>>))
    ensures
        (r.0@, r.1) == stream_run(evs@),
{
    let ghost e0 = evs@;
    let n = evs.len();
    let mut rest = crate::text::reversed(evs);
    let mut sent: Vec<StreamOut> = Vec::new();
    let mut i: usize = 0;
    let mut end: Option<Result<(), String>> = None;
    assert(e0.skip(0) =~= e0);
    assert(Seq::<StreamOut>::empty() + stream_run(e0).0 =~= stream_run(e0).0);
    while rest.len() > 0
        invariant_except_break
            end is None,
            i + rest@.len() == n,
            (sent@ + stream_run(e0.skip(i as int)).0, stream_run(e0.skip(i as int)).1) == stream_run(e0),
        invariant
            n == e0.len(),
            i + rest@.len() <= n,
            forall|k: int| 0 <= k < rest@.len() ==> rest@[k] == e0[n - 1 - k],
        ensures
            match end {
                Some(x) => (sent@, Some(x)) == stream_run(e0),
                None => i == n && (sent@ + stream_run(e0.skip(i as int)).0, stream_run(
                    e0.skip(i as int),
                ).1) == stream_run(e0),
            },
        decreases rest@.len(),
    {
        let ghost r0 = rest@;
        let ghost s0 = sent@;
        let ev = rest.pop().unwrap();
        proof {
            assert(ev == r0[r0.len() - 1]);
            assert(r0[r0.len() - 1] == e0[i as int]);
            assert(e0.skip(i as int)[0] == e0[i as int]);
            assert(e0.skip(i as int).drop_first() =~= e0.skip(i + 1));
        }
        let ghost tail = stream_run(e0.skip(i + 1));
        let kind = match &ev {
            StreamIn::Value(_) => EventKind::Value,
            StreamIn::Finish => EventKind::Finish,
            StreamIn::Cancel => EventKind::Cancel,
            StreamIn::Error(_) => EventKind::Error,
            StreamIn::Close => EventKind::Close,
        };
        match stream_step(kind) {
            StreamStep::Forward => match ev {
                StreamIn::Value(Ok(vs)) => {
                    let ghost vv = vs@;
                    let mut j: usize = 0;
                    while j < vs.len()
                        invariant
                            j <= vs@.len(),
                            vv == vs@,
                            sent@ == s0 + out_values(vv.take(j as int)),
                        decreases vs@.len() - j,
                    {
                        sent.push(StreamOut::Value(vs[j].clone()));
                        assert(out_values(vv.take(j + 1)) =~= out_values(vv.take(j as int)).push(
                            StreamOut::Value(vv[j as int]),
                        ));
                        j = j + 1;
                    }
                    assert(vv.take(vv.len() as int) =~= vv);
                    assert(s0 + (out_values(vv) + tail.0) =~= sent@ + tail.0);
                },
                StreamIn::Value(Err(m)) => {
                    sent.push(StreamOut::Error(m.clone()));
                    end = Some(Err(m));
                    assert(sent@ =~= s0 + seq![StreamOut::Error(m)]);
                    break;
                },
                _ => {
                    assert(false);
                },
            },
            StreamStep::Pass => {
                let out = match ev {
                    StreamIn::Finish => StreamOut::Finish,
                    _ => StreamOut::Cancel,
                };
                sent.push(out);
                assert(s0 + (seq![out] + tail.0) =~= sent@ + tail.0);
            },
            StreamStep::PassAndFail => {
                match ev {
                    StreamIn::Error(m) => {
                        sent.push(StreamOut::Error(m.clone()));
                        end = Some(Err(m));
                        assert(sent@ =~= s0 + seq![StreamOut::Error(m)]);
                    },
                    _ => {
                        assert(false);
                    },
                }
                break;
            },
            StreamStep::PassAndEnd => {
                sent.push(StreamOut::Close);
                end = Some(Ok(()));
                assert(sent@ =~= s0 + seq![StreamOut::Close]);
                break;
            },
        }
        i = i + 1;
    }
    proof {
        if end is None {
            assert(e0.skip(i as int) =~= Seq::<StreamIn>::empty());
            assert(sent@ + Seq::<StreamOut>::empty() =~= sent@);
        }
    }
    (sent, end)
}

/// A streaming test command: trickles `count` values out, one at a time,
/// `delay_ms` apart; value `i` is the input suffixed with `#i`.
#[derive(Debug)]
pub struct Trickle {
    pub count: u32,
    pub delay_ms: u64,
}

/// Value `i` of a trickle of input `s`.
pub open spec fn trickled(s: Seq<char>, i: u32) -> Seq<char> {
    s + seq!['#'] + dec_digits(i as nat)
}

/// What a trickle does with an event that arrives while it emits.
#[derive(Debug, PartialEq, Eq, Structural, Clone, Copy)]
pub enum TrickleStep {
    /// Pass the cancel on and stop this input's emission, then listen on.
    StopEmission,
    /// Pass the close on and end.
    End,
    /// Pass the error on and end with it.
    Fail,
    /// Pass the event on and go on emitting.
    PassThrough,
}

pub open spec fn trickle_step_of(e: EventKind) -> TrickleStep {
    match e {
        EventKind::Cancel => TrickleStep::StopEmission,
        EventKind::Close => TrickleStep::End,
        EventKind::Error => TrickleStep::Fail,
        _ => TrickleStep::PassThrough,
    }
}

/// A moment in a trickle's timeline: an event from upstream, or a `Tick`,
/// the delay before the next value running out first.
#[derive(Debug)]
pub enum TrickleIn {
    Value(String),
    Finish,
    Cancel,
    Error(String),
    Close,
    Tick,
}

/// What was sent, as text.
pub ghost enum Sent {
    Value(Seq<char>),
    Finish,
    Cancel,
    Error(Seq<char>),
    Close,
}

pub open spec fn sent_of(o: StreamOut) -> Sent {
    match o {
        StreamOut::Value(v) => Sent::Value(v@),
        StreamOut::Finish => Sent::Finish,
        StreamOut::Cancel => Sent::Cancel,
        StreamOut::Error(m) => Sent::Error(m@),
        StreamOut::Close => Sent::Close,
    }
}

/// The emission in progress: the input and the index of the next value.
pub open spec fn emitting(st: Option<(String, u32)>) -> Option<(Seq<char>, u32)> {
    match st {
        Some((s, i)) => Some((s@, i)),
        None => None,
    }
}

/// What a trickle of `count` values sends over the timeline `evs`, from
/// state `st` (`None` while it waits for an input; `Some((s, i))` while it
/// emits input `s` and value `i` is next), and how it ends. A value starts an
/// emission, which ends with a finish after its last value; a tick while
/// waiting does nothing. Mid-emission, a cancel is passed on and stops the
/// emission without a finish, a close or an error is passed on and ends the
/// loop, and a value or a finish is passed on unchanged.
pub open spec fn trickle_run(count: u32, evs: Seq<TrickleIn>, st: Option<(Seq<char>, u32)>) -> (
    Seq<Sent>,
    Option<Result<(), String>>,
)
    decreases evs.len(),
{
    if evs.len() == 0 {
        (Seq::empty(), None)
    } else {
        let more = evs.drop_first();
        match st {
            None => match evs[0] {
                TrickleIn::Value(v) => if count == 0 {
                    let r = trickle_run(count, more, None);
                    (seq![Sent::Finish] + r.0, r.1)
                } else {
                    trickle_run(count, more, Some((v@, 0)))
                },
                TrickleIn::Tick => trickle_run(count, more, None),
                TrickleIn::Finish => {
                    let r = trickle_run(count, more, None);
                    (seq![Sent::Finish] + r.0, r.1)
                },
                TrickleIn::Cancel => {
                    let r = trickle_run(count, more, None);
                    (seq![Sent::Cancel] + r.0, r.1)
                },
                TrickleIn::Error(m) => (seq![Sent::Error(m@)], Some(Err(m))),
                TrickleIn::Close => (seq![Sent::Close], Some(Ok(()))),
            },
            Some((s, i)) => match evs[0] {
                TrickleIn::Tick => if i + 1 >= count {
                    let r = trickle_run(count, more, None);
                    (seq![Sent::Value(trickled(s, i)), Sent::Finish] + r.0, r.1)
                } else {
                    let r = trickle_run(count, more, Some((s, (i + 1) as u32)));
                    (seq![Sent::Value(trickled(s, i))] + r.0, r.1)
                },
                TrickleIn::Cancel => {
                    let r = trickle_run(count, more, None);
                    (seq![Sent::Cancel] + r.0, r.1)
                },
                TrickleIn::Close => (seq![Sent::Close], Some(Ok(()))),
                TrickleIn::Error(m) => (seq![Sent::Error(m@)], Some(Err(m))),
                TrickleIn::Value(v) => {
                    let r = trickle_run(count, more, st);
                    (seq![Sent::Value(v@)] + r.0, r.1)
                },
                TrickleIn::Finish => {
                    let r = trickle_run(count, more, st);
                    (seq![Sent::Finish] + r.0, r.1)
                },
            },
        }
    }
}

impl Trickle {
    /// Value `i` of the trickle of input `s`.
    pub fn item(&self, s: &str, i: u32) -> (r: String)
        ensures
            r@ == trickled(s@, i),
    {
        let mut r = String::new();
        push_str(&mut r, s);
        push_char(&mut r, '#');
        push_dec(&mut r, i as u64);
        r
    }

    /// What the trickle does with an event that arrives mid-emission.
    pub fn on_event(&self, e: EventKind) -> (s: TrickleStep)
        ensures
            s == trickle_step_of(e),
    {
        match e {
            EventKind::Cancel => TrickleStep::StopEmission,
            EventKind::Close => TrickleStep::End,
            EventKind::Error => TrickleStep::Fail,
            _ => TrickleStep::PassThrough,
        }
    }

    /// Whether a finish follows the emission: only when it was not
    /// cancelled.
    pub fn finishes(&self, cancelled: bool) -> (f: bool)
        ensures
            f == !cancelled,
    {
        !cancelled
    }

    /// A trickle's streaming loop over the timeline `evs` (a `Tick` being a
    /// delay that ran out before any event came): what it sends, in order,
    /// and how it ends (`None` when the timeline runs out while it listens).
    pub fn run_events(&self, evs: Vec<TrickleIn>) -> (r: (Vec<StreamOut>, Option<Result<(), String>>))
        ensures
            (r.0@.map_values(|o: StreamOut| sent_of(o)), r.1) == trickle_run(self.count, evs@, None),
    {
        let ghost e0 = evs@;
        let ghost count = self.count;
        let n = evs.len();
        let mut rest = crate::text::reversed(evs);
        let mut sent: Vec<StreamOut> = Vec::new();
        let mut st: Option<(String, u32)> = None;
        let mut i: usize = 0;
        let mut end: Option<Result<(), String>> = None;
        assert(e0.skip(0) =~= e0);
        assert(Seq::<Sent>::empty() + trickle_run(count, e0, None).0 =~= trickle_run(count, e0, None).0);
        assert(sent@.map_values(|o: StreamOut| sent_of(o)) =~= Seq::<Sent>::empty());
        while rest.len() > 0
            invariant_except_break
                end is None,
                i + rest@.len() == n,
                (sent@.map_values(|o: StreamOut| sent_of(o)) + trickle_run(count, e0.skip(i as int), emitting(st)).0,
                    trickle_run(count, e0.skip(i as int), emitting(st)).1) == trickle_run(count, e0, None),
            invariant
                count == self.count,
                n == e0.len(),
                i + rest@.len() <= n,
                forall|k: int| 0 <= k < rest@.len() ==> rest@[k] == e0[n - 1 - k],
            ensures
                match end {
                    Some(x) => (sent@.map_values(|o: StreamOut| sent_of(o)), Some(x)) == trickle_run(count, e0, None),
                    None => i == n && (sent@.map_values(|o: StreamOut| sent_of(o)) + trickle_run(
                        count,
                        e0.skip(i as int),
                        emitting(st),
                    ).0, trickle_run(count, e0.skip(i as int), emitting(st)).1) == trickle_run(count, e0, None),
                },
            decreases rest@.len(),
        {
            let ghost r0 = rest@;
            let ghost s0 = sent@.map_values(|o: StreamOut| sent_of(o));
            let ghost st0 = emitting(st);
            let ev = rest.pop().unwrap();
            proof {
                assert(ev == r0[r0.len() - 1]);
                assert(r0[r0.len() - 1] == e0[i as int]);
                assert(e0.skip(i as int)[0] == e0[i as int]);
                assert(e0.skip(i as int).drop_first() =~= e0.skip(i + 1));
            }
            let ghost more = e0.skip(i + 1);
            let cur = st;
            st = None;
            match cur {
                None => match ev {
                    TrickleIn::Value(v) => {
                        if self.count == 0 {
                            if self.finishes(false) {
                                sent.push(StreamOut::Finish);
                            }
                            assert(sent@.map_values(|o: StreamOut| sent_of(o)) =~= s0.push(Sent::Finish));
                            assert(s0 + (seq![Sent::Finish] + trickle_run(count, more, None).0)
                                =~= s0.push(Sent::Finish) + trickle_run(count, more, None).0);
                        } else {
                            st = Some((v, 0));
                        }
                    },
                    TrickleIn::Tick => {},
                    TrickleIn::Finish => {
                        sent.push(StreamOut::Finish);
                        assert(sent@.map_values(|o: StreamOut| sent_of(o)) =~= s0.push(Sent::Finish));
                        assert(s0 + (seq![Sent::Finish] + trickle_run(count, more, None).0)
                            =~= s0.push(Sent::Finish) + trickle_run(count, more, None).0);
                    },
                    TrickleIn::Cancel => {
                        sent.push(StreamOut::Cancel);
                        assert(sent@.map_values(|o: StreamOut| sent_of(o)) =~= s0.push(Sent::Cancel));
                        assert(s0 + (seq![Sent::Cancel] + trickle_run(count, more, None).0)
                            =~= s0.push(Sent::Cancel) + trickle_run(count, more, None).0);
                    },
                    TrickleIn::Error(m) => {
                        sent.push(StreamOut::Error(m.clone()));
                        assert(sent@.map_values(|o: StreamOut| sent_of(o)) =~= s0 + seq![Sent::Error(m@)]);
                        end = Some(Err(m));
                        break;
                    },
                    TrickleIn::Close => {
                        sent.push(StreamOut::Close);
                        assert(sent@.map_values(|o: StreamOut| sent_of(o)) =~= s0 + seq![Sent::Close]);
                        end = Some(Ok(()));
                        break;
                    },
                },
                Some((s, k)) => match ev {
                    TrickleIn::Tick => {
                        let item = self.item(s.as_str(), k);
                        let ghost it = Sent::Value(item@);
                        sent.push(StreamOut::Value(item));
                        if k as u64 + 1 >= self.count as u64 {
                            if self.finishes(false) {
                                sent.push(StreamOut::Finish);
                            }
                            assert(sent@.map_values(|o: StreamOut| sent_of(o)) =~= s0 + seq![it, Sent::Finish]);
                            assert(s0 + (seq![it, Sent::Finish] + trickle_run(count, more, None).0)
                                =~= (s0 + seq![it, Sent::Finish]) + trickle_run(count, more, None).0);
                        } else {
                            assert(sent@.map_values(|o: StreamOut| sent_of(o)) =~= s0.push(it));
                            assert(s0 + (seq![it] + trickle_run(count, more, Some((s@, (k + 1) as u32))).0)
                                =~= s0.push(it) + trickle_run(count, more, Some((s@, (k + 1) as u32))).0);
                            st = Some((s, k + 1));
                        }
                    },
                    other => {
                        let kind = match &other {
                            TrickleIn::Value(_) => EventKind::Value,
                            TrickleIn::Finish => EventKind::Finish,
                            TrickleIn::Cancel => EventKind::Cancel,
                            TrickleIn::Error(_) => EventKind::Error,
                            _ => EventKind::Close,
                        };
                        match self.on_event(kind) {
                            TrickleStep::StopEmission => {
                                sent.push(StreamOut::Cancel);
                                assert(sent@.map_values(|o: StreamOut| sent_of(o)) =~= s0.push(Sent::Cancel));
                                assert(s0 + (seq![Sent::Cancel] + trickle_run(count, more, None).0)
                                    =~= s0.push(Sent::Cancel) + trickle_run(count, more, None).0);
                            },
                            TrickleStep::End => {
                                sent.push(StreamOut::Close);
                                assert(sent@.map_values(|o: StreamOut| sent_of(o)) =~= s0 + seq![Sent::Close]);
                                end = Some(Ok(()));
                                break;
                            },
                            TrickleStep::Fail => {
                                match other {
                                    TrickleIn::Error(m) => {
                                        sent.push(StreamOut::Error(m.clone()));
                                        assert(sent@.map_values(|o: StreamOut| sent_of(o))
                                            =~= s0 + seq![Sent::Error(m@)]);
                                        end = Some(Err(m));
                                    },
                                    _ => {
                                        assert(false);
                                    },
                                }
                                break;
                            },
                            TrickleStep::PassThrough => {
                                let out = match other {
                                    TrickleIn::Value(v) => StreamOut::Value(v),
                                    _ => StreamOut::Finish,
                                };
                                let ghost o = sent_of(out);
                                sent.push(out);
                                assert(sent@.map_values(|o: StreamOut| sent_of(o)) =~= s0.push(o));
                                assert(s0 + (seq![o] + trickle_run(count, more, st0).0)
                                    =~= s0.push(o) + trickle_run(count, more, st0).0);
                                st = Some((s, k));
                            },
                        }
                    },
                },
            }
            i = i + 1;
        }
        proof {
            if end is None {
                assert(e0.skip(i as int) =~= Seq::<TrickleIn>::empty());
                assert(sent@.map_values(|o: StreamOut| sent_of(o)) + Seq::<Sent>::empty()
                    =~= sent@.map_values(|o: StreamOut| sent_of(o)));
            }
        }
        (sent, end)
    }
}

/// `n` ticks in a row.
pub open spec fn ticks(n: nat) -> Seq<TrickleIn> {
    Seq::new(n, |_x: int| TrickleIn::Tick)
}

/// Values `j` up to (not including) `k` of the trickle of `s`.
pub open spec fn trickled_from(s: Seq<char>, j: nat, k: nat) -> Seq<Sent> {
    Seq::new((k - j) as nat, |x: int| Sent::Value(trickled(s, (j + x) as u32)))
}

proof fn lemma_ticks_emit(count: u32, s: Seq<char>, j: nat, k: nat, tail: Seq<TrickleIn>)
    requires
        j <= k < count,
    ensures
        trickle_run(count, ticks((k - j) as nat) + tail, Some((s, j as u32))) == (
            trickled_from(s, j, k) + trickle_run(count, tail, Some((s, k as u32))).0,
            trickle_run(count, tail, Some((s, k as u32))).1,
        ),
    decreases k - j,
{
    let evs = ticks((k - j) as nat) + tail;
    if j == k {
        assert(evs =~= tail);
        assert(trickled_from(s, j, k) + trickle_run(count, tail, Some((s, k as u32))).0
            =~= trickle_run(count, tail, Some((s, k as u32))).0);
    } else {
        assert(evs[0] == TrickleIn::Tick);
        assert(evs.drop_first() =~= ticks((k - (j + 1)) as nat) + tail);
        lemma_ticks_emit(count, s, j + 1, k, tail);
        assert(trickled_from(s, j, k) =~= seq![Sent::Value(trickled(s, j as u32))] + trickled_from(
            s,
            j + 1,
            k,
        ));
        let r = trickle_run(count, tail, Some((s, k as u32)));
        assert(seq![Sent::Value(trickled(s, j as u32))] + (trickled_from(s, j + 1, k) + r.0)
            =~= trickled_from(s, j, k) + r.0);
    }
}

/// A cancel that comes while a trickle emits an input stops that input's
/// values and is passed on: the values emitted so far come out in index
/// order, then the cancel, with no finish and no later value of that input,
/// and the trickle goes on listening as before the input came.
pub proof fn lemma_cancel_stops_emission(count: u32, s: String, k: nat, rest: Seq<TrickleIn>)
    requires
        k < count,
    ensures
        trickle_run(count, seq![TrickleIn::Value(s)] + ticks(k) + seq![TrickleIn::Cancel] + rest, None)
            == (trickled_from(s@, 0, k) + seq![Sent::Cancel] + trickle_run(count, rest, None).0,
            trickle_run(count, rest, None).1),
{
    let evs = seq![TrickleIn::Value(s)] + ticks(k) + seq![TrickleIn::Cancel] + rest;
    let tail = seq![TrickleIn::Cancel] + rest;
    assert(evs[0] == TrickleIn::Value(s));
    assert(evs.drop_first() =~= ticks((k - 0) as nat) + tail);
    lemma_ticks_emit(count, s@, 0, k, tail);
    assert(tail[0] == TrickleIn::Cancel);
    assert(tail.drop_first() =~= rest);
    let r = trickle_run(count, rest, None);
    assert(trickled_from(s@, 0, k) + (seq![Sent::Cancel] + r.0) =~= trickled_from(s@, 0, k) + seq![
        Sent::Cancel,
    ] + r.0);
}

/// An input that no event interrupts comes out whole: its `count` values in
/// index order, then a finish, and the trickle listens on.
pub proof fn lemma_emission_runs_to_finish(count: u32, s: String, rest: Seq<TrickleIn>)
    requires
        count > 0,
    ensures
        trickle_run(count, seq![TrickleIn::Value(s)] + ticks(count as nat) + rest, None) == (
            trickled_from(s@, 0, count as nat) + seq![Sent::Finish] + trickle_run(count, rest, None).0,
            trickle_run(count, rest, None).1,
        ),
{
    let k = (count - 1) as nat;
    let evs = seq![TrickleIn::Value(s)] + ticks(count as nat) + rest;
    let tail = seq![TrickleIn::Tick] + rest;
    assert(evs[0] == TrickleIn::Value(s));
    assert(evs.drop_first() =~= ticks((k - 0) as nat) + tail);
    lemma_ticks_emit(count, s@, 0, k, tail);
    assert(tail[0] == TrickleIn::Tick);
    assert(tail.drop_first() =~= rest);
    let r = trickle_run(count, rest, None);
    assert(trickled_from(s@, 0, k) + (seq![Sent::Value(trickled(s@, k as u32)), Sent::Finish] + r.0)
        =~= trickled_from(s@, 0, count as nat) + seq![Sent::Finish] + r.0);
}

/// A field of a stream command's settings, as the command reads it: a
/// null, a boolean, number or string (by its text), an array (by the JSON
/// text of each element), or an object.
#[derive(Debug)]
pub enum ConfigField {
    Null,
    Scalar(String),
    Array(Vec<String>),
    Object,
}

/// A stream command's settings, as the command reads them: a null, a
/// boolean, number or string (by its text), an array (by the JSON text of
/// each element), or an object (its fields in order).
#[derive(Debug)]
pub enum ConfigValue {
    Null,
    Scalar(String),
    Array(Vec<String>),
    Object(Vec<(String, ConfigField)>),
}

/// A field as `key=value`: the key alone for a null or an object, the
/// elements in brackets for an array.
pub open spec fn field_text(k: Seq<char>, f: ConfigField) -> Seq<char> {
    match f {
        ConfigField::Null => k,
        ConfigField::Scalar(s) => k + seq!['='] + s@,
        ConfigField::Array(v) => k + seq!['=', '['] + join_by(strings_view(v@), ',') + seq![']'],
        ConfigField::Object => k,
    }
}

/// The value a `SETVAR`/`REMVAR` command carries: nothing for a null or an
/// empty array or object; the text of a scalar; the elements, or the fields,
/// joined by commas.
pub open spec fn streamcmd_value(c: ConfigValue) -> Option<Seq<char>> {
    match c {
        ConfigValue::Null => None,
        ConfigValue::Scalar(s) => Some(s@),
        ConfigValue::Array(v) => if v@.len() == 0 {
            None
        } else {
            Some(join_by(strings_view(v@), ','))
        },
        ConfigValue::Object(m) => if m@.len() == 0 {
            None
        } else {
            Some(join_by(m@.map_values(|p: (String, ConfigField)| field_text(p.0@, p.1)), ','))
        },
    }
}

/// The stream with the command line before it: `<STREAMCMD:KEY>`, or for
/// `SETVAR` and `REMVAR` `<STREAMCMD:KEY:value>`, which is left out when
/// there is no value.
pub open spec fn streamcmd_out(key: Seq<char>, input: Seq<char>, c: ConfigValue) -> Seq<char> {
    if key != "REMVAR"@ && key != "SETVAR"@ {
        "<STREAMCMD:"@ + key + seq!['>', '\n'] + input
    } else {
        match streamcmd_value(c) {
            None => input,
            Some(v) => "<STREAMCMD:"@ + key + seq![':'] + v + seq!['>', '\n'] + input,
        }
    }
}

/// Puts a CG-3 stream command before the stream.
#[derive(Debug)]
pub struct StreamCmd {
    pub key: String,
}

impl StreamCmd {
    fn field(k: &String, f: &ConfigField) -> (s: String)
        ensures
            s@ == field_text(k@, *f),
    {
        let mut s = k.clone();
        match f {
            ConfigField::Null => {},
            ConfigField::Scalar(x) => {
                push_char(&mut s, '=');
                push_str(&mut s, x.as_str());
            },
            ConfigField::Array(v) => {
                push_char(&mut s, '=');
                push_char(&mut s, '[');
                let j = join_strings(v, ',');
                push_str(&mut s, j.as_str());
                push_char(&mut s, ']');
            },
            ConfigField::Object => {},
        }
        s
    }

    /// The stream `input` with this command before it, `config` being the
    /// settings it runs with.
    pub fn run(&self, input: &str, config: &ConfigValue) -> (r: String)
        ensures
            r@ == streamcmd_out(self.key@, input@, *config),
    {
        proof {
            reveal_strlit("REMVAR");
            reveal_strlit("SETVAR");
            reveal_strlit("<STREAMCMD:");
        }
        let mut out = "<STREAMCMD:".to_string();
        push_str(&mut out, self.key.as_str());
        if !str_eq(self.key.as_str(), "REMVAR") && !str_eq(self.key.as_str(), "SETVAR") {
            push_char(&mut out, '>');
            push_char(&mut out, '\n');
            push_str(&mut out, input);
            return out;
        }
        let value = match config {
            ConfigValue::Null => None,
            ConfigValue::Scalar(s) => Some(s.clone()),
            ConfigValue::Array(v) => if v.len() == 0 {
                None
            } else {
                Some(join_strings(v, ','))
            },
            ConfigValue::Object(m) => if m.len() == 0 {
                None
            } else {
                let mut parts: Vec<String> = Vec::new();
                let mut i: usize = 0;
                while i < m.len()
                    invariant
                        i <= m@.len(),
                        strings_view(parts@) == m@.take(i as int).map_values(
                            |p: (String, ConfigField)| field_text(p.0@, p.1),
                        ),
                    decreases m@.len() - i,
                {
                    let ghost p0 = strings_view(parts@);
                    parts.push(StreamCmd::field(&m[i].0, &m[i].1));
                    assert(strings_view(parts@) =~= p0.push(field_text(m@[i as int].0@, m@[i as int].1)));
                    assert(m@.take(i + 1).map_values(|p: (String, ConfigField)| field_text(p.0@, p.1))
                        =~= m@.take(i as int).map_values(|p: (String, ConfigField)| field_text(p.0@, p.1)).push(
                        field_text(m@[i as int].0@, m@[i as int].1),
                    ));
                    i = i + 1;
                }
                assert(m@.take(i as int) =~= m@);
                Some(join_strings(&parts, ','))
            },
        };
        match value {
            None => input.to_string(),
            Some(v) => {
                push_char(&mut out, ':');
                push_str(&mut out, v.as_str());
                push_char(&mut out, '>');
                push_char(&mut out, '\n');
                push_str(&mut out, input);
                out
            },
        }
    }
}

} // verus!
