use divvun_runtime::commands::{
    run_stream, stream_step, values_to_send, StreamIn, StreamOut, TrickleIn, Applicator, EventKind, Reverse, StreamStep, Strip, Trickle,
    TrickleStep, Upper,
};
use divvun_runtime::config::{CaughtPanic, InputValue, Level, LogLevel, Ref, WorkerGone};
use divvun_runtime::pipeline::{glob_match, Error, ErrorLocation, TapOutput, Ty};

fn name(t: &Ty) -> String {
    t.as_dr_type()
}

#[test]
fn type_names_read_back() {
    for s in ["path", "string", "json", "bytes", "int", "[string]", "[bytes]", "{path}", "{string}", "{bytes}"] {
        let t = Ty::from_str(s).unwrap();
        assert_eq!(name(&t), s);
    }
    assert!(Ty::from_str("[path]").is_err());
    assert!(Ty::from_str("{int}").is_err());
    assert!(Ty::from_str("[[string]]").is_err());
    assert!(Ty::from_str("").is_err());
    assert!(Ty::from_str("Foo").is_err());
}

#[test]
fn union_and_struct_names() {
    let t = Ty::Union(vec![Ty::String, Ty::Struct("Config".to_string()), Ty::ArrayBytes]);
    assert_eq!(name(&t), "string | Config | [bytes]");
    assert_eq!(name(&Ty::Union(vec![])), "");
}

#[test]
fn glob_matching() {
    assert!(glob_match("errors-*.ftl", "errors-se.ftl"));
    assert!(!glob_match("errors-*.ftl", "errors-se.txt"));
    assert!(glob_match("errors.ftl", "errors.ftl"));
    assert!(!glob_match("errors.ftl", "errors-se.ftl"));
    assert!(glob_match("ab*ba", "aba"));
    assert!(glob_match("*", ""));
}

#[test]
fn error_locations() {
    let e = Error::msg("model_path missing").at("pipeline.json", "/args/model_path");
    assert_eq!(e.message(), "model_path missing");
    assert_eq!(e.help(), Some("at pipeline.json:/args/model_path".to_string()));
    assert_eq!(e.location.to_string(), " at pipeline.json:/args/model_path");
    let f = Error::msg("x").at_file("config.json");
    assert_eq!(f.help(), Some("at config.json".to_string()));
    assert_eq!(f.location.to_string(), " at config.json");
    assert_eq!(Error::msg("y").help(), None);
    assert_eq!(ErrorLocation::new().to_string(), "");
}

#[test]
fn small_commands() {
    assert_eq!(Reverse.run("abc åø"), "øå cba");
    assert_eq!(Upper.run("sámi"), "SÁMI");
    assert_eq!(Strip.run("<speak>Hello <break/>world</speak>").map(|t| t.contains("Hello")), Ok(true));
    let mut a = Applicator::new();
    assert!(!a.trace());
    a.set_trace(true);
    assert!(a.trace());
}

#[test]
fn stream_decisions() {
    assert!(stream_step(EventKind::Value) == StreamStep::Forward);
    assert!(stream_step(EventKind::Cancel) == StreamStep::Pass);
    assert!(stream_step(EventKind::Close) == StreamStep::PassAndEnd);
    assert!(stream_step(EventKind::Error) == StreamStep::PassAndFail);
    assert_eq!(values_to_send(&vec![TapOutput::Continue, TapOutput::Continue, TapOutput::Stop, TapOutput::Continue]), 2);
    assert_eq!(values_to_send(&vec![]), 0);
    let t = Trickle { count: 3, delay_ms: 0 };
    assert_eq!(t.item("hi", 2), "hi#2");
    assert!(t.on_event(EventKind::Cancel) == TrickleStep::StopEmission);
    assert!(t.on_event(EventKind::Finish) == TrickleStep::PassThrough);
    assert!(t.finishes(false) && !t.finishes(true));
}

#[test]
fn plain_data() {
    let i = InputValue::Multiple(vec![Ref { reference: "a".to_string() }, Ref { reference: "b".to_string() }]);
    assert_eq!(i.references(), vec!["a".to_string(), "b".to_string()]);
    assert_eq!(WorkerGone.message(), "worker thread is no longer running");
    assert_eq!(CaughtPanic("boom".to_string()).message(), "boom");
    assert_eq!(Level::from_log_level(LogLevel::Warn).code(), 16);
    assert_eq!(Level::Debug.code(), 2);
}

fn shown(out: &[StreamOut]) -> Vec<String> {
    out.iter()
        .map(|o| match o {
            StreamOut::Value(v) => format!("value {v}"),
            StreamOut::Finish => "finish".to_string(),
            StreamOut::Cancel => "cancel".to_string(),
            StreamOut::Error(e) => format!("error {e}"),
            StreamOut::Close => "close".to_string(),
        })
        .collect()
}

#[test]
fn a_stream_run_sends_in_order_and_ends_at_close() {
    let evs = vec![
        StreamIn::Value(Ok(vec!["a".to_string(), "b".to_string()])),
        StreamIn::Finish,
        StreamIn::Cancel,
        StreamIn::Value(Ok(vec![])),
        StreamIn::Close,
        StreamIn::Value(Ok(vec!["late".to_string()])),
    ];
    let (out, end) = run_stream(evs);
    assert_eq!(shown(&out), vec!["value a", "value b", "finish", "cancel", "close"]);
    assert_eq!(end, Some(Ok(())));
}

#[test]
fn a_stream_run_ends_at_an_error() {
    let (out, end) = run_stream(vec![
        StreamIn::Value(Ok(vec!["x".to_string()])),
        StreamIn::Value(Err("bad".to_string())),
        StreamIn::Close,
    ]);
    assert_eq!(shown(&out), vec!["value x", "error bad"]);
    assert_eq!(end, Some(Err("bad".to_string())));
    let (out, end) = run_stream(vec![StreamIn::Error("up".to_string()), StreamIn::Finish]);
    assert_eq!(shown(&out), vec!["error up"]);
    assert_eq!(end, Some(Err("up".to_string())));
    let (out, end) = run_stream(vec![StreamIn::Finish]);
    assert_eq!(shown(&out), vec!["finish"]);
    assert_eq!(end, None);
}

#[test]
fn trickle_cancel_stops_emission_and_keeps_listening() {
    let t = Trickle { count: 100, delay_ms: 10 };
    let (out, end) = t.run_events(vec![
        TrickleIn::Value("a".to_string()),
        TrickleIn::Tick,
        TrickleIn::Tick,
        TrickleIn::Tick,
        TrickleIn::Cancel,
        TrickleIn::Tick,
        TrickleIn::Value("b".to_string()),
        TrickleIn::Tick,
        TrickleIn::Close,
    ]);
    assert_eq!(shown(&out), vec!["value a#0", "value a#1", "value a#2", "cancel", "value b#0", "close"]);
    assert_eq!(end, Some(Ok(())));
}

#[test]
fn trickle_runs_to_finish_and_passes_events_through() {
    let t = Trickle { count: 2, delay_ms: 0 };
    let (out, end) = t.run_events(vec![
        TrickleIn::Value("x".to_string()),
        TrickleIn::Tick,
        TrickleIn::Finish,
        TrickleIn::Value("y".to_string()),
        TrickleIn::Tick,
        TrickleIn::Tick,
        TrickleIn::Error("boom".to_string()),
        TrickleIn::Close,
    ]);
    assert_eq!(
        shown(&out),
        vec!["value x#0", "finish", "value y", "value x#1", "finish", "error boom"]
    );
    assert_eq!(end, Some(Err("boom".to_string())));
    let none = Trickle { count: 0, delay_ms: 0 };
    let (out, end) = none.run_events(vec![TrickleIn::Value("z".to_string())]);
    assert_eq!(shown(&out), vec!["finish"]);
    assert_eq!(end, None);
}
