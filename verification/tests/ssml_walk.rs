use divvun_runtime::hfst::BreakStrength;
use divvun_runtime::ssml::{
    break_attrs, forward_ssml, walk_events, BreakText, ProsodyAttrs, SsmlElement, SsmlEvent, SsmlForward, SsmlWalk,
};
use divvun_runtime::ssml_check::{events_checked, text_checked};
use divvun_runtime::commands::Strip;

/// A stand-in tokenizer: one cohort per text run.
fn tokenize(text: &str) -> String {
    format!("\"<{text}>\"\n\t\"{text}\" N <W:0.0>\n")
}

fn walk(events: Vec<SsmlEvent>) -> String {
    let mut w = SsmlWalk::new();
    for ev in events {
        if let Some(req) = w.step(ev) {
            let raw = tokenize(&req.text);
            w.accept(&raw, &req.frame);
        }
    }
    w.finish()
}

fn brk(strength: Option<BreakStrength>) -> SsmlEvent {
    SsmlEvent::Break(BreakText { time: None, strength })
}

#[test]
fn prosody_scope_tags_its_text_and_pauses_follow_the_text_before() {
    let out = walk(vec![
        SsmlEvent::Text("  Hello ".to_string()),
        brk(Some(BreakStrength::Strong)),
        SsmlEvent::Open(SsmlElement::Prosody(ProsodyAttrs {
            rate: Some("fast".to_string()),
            pitch: None,
            volume: None,
            range: None,
            contour: None,
            duration: None,
        })),
        SsmlEvent::Text("world".to_string()),
        SsmlEvent::Close,
        SsmlEvent::Text("again".to_string()),
        brk(None),
    ]);
    assert_eq!(
        out,
        "\"<Hello>\"\n\t\"Hello\" N <W:0.0> <DRT-BREAK-AFTER:1000>\n\
\"<world>\"\n\t\"world\" N <W:0.0> <DRT-PROSODY-RATE:fast>\n\
\"<again>\"\n\t\"again\" N <W:0.0> <DRT-BREAK-AFTER:500>\n"
    );
}

#[test]
fn sub_speaks_its_alias_and_silences_its_text() {
    let out = walk(vec![
        SsmlEvent::Open(SsmlElement::Sub("World Wide Web".to_string())),
        SsmlEvent::Text("WWW".to_string()),
        SsmlEvent::Close,
        SsmlEvent::Text("   ".to_string()),
        SsmlEvent::Close,
        SsmlEvent::Close,
    ]);
    assert_eq!(out, "\"<World Wide Web>\"\n\t\"World Wide Web\" N <W:0.0>\n");
}

#[test]
fn a_pause_before_any_text_waits_for_a_fragment() {
    let out = walk(vec![brk(Some(BreakStrength::Weak)), SsmlEvent::Text("a".to_string()), SsmlEvent::Text("b".to_string())]);
    assert_eq!(
        out,
        "\"<a>\"\n\t\"a\" N <W:0.0> <DRT-BREAK-AFTER:250>\n\
\"<b>\"\n\t\"b\" N <W:0.0>\n"
    );
}

/// Runs the tokenizing walk over a document, answering each request.
fn run_ssml(doc: &str) -> String {
    let mut answers: Vec<String> = Vec::new();
    loop {
        match forward_ssml(doc, &answers).expect("parses") {
            SsmlForward::Need(req) => answers.push(tokenize(&req.text)),
            SsmlForward::Done(out) => return out,
        }
    }
}

#[test]
fn a_document_is_read_and_walked() {
    let doc = "<speak>Hello <break strength=\"strong\"/><prosody rate=\"fast\">world</prosody></speak>";
    assert!(events_checked(doc));
    assert_eq!(
        run_ssml(doc),
        "\"<Hello>\"\n\t\"Hello\" N <W:0.0> <DRT-BREAK-AFTER:1000>\n\
\"<world>\"\n\t\"world\" N <W:0.0> <DRT-PROSODY-RATE:fast>\n"
    );
}

#[test]
fn a_walk_asks_for_its_first_text_run() {
    let doc = "<?xml version=\"1.0\"?>\n<speak xml:lang=\"se\">  Bures  </speak>";
    assert!(events_checked(doc));
    match forward_ssml(doc, &Vec::new()) {
        Ok(SsmlForward::Need(req)) => assert_eq!(req.text, "Bures"),
        other => panic!("expected a request, got {other:?}"),
    }
}

#[test]
fn break_time_is_read_in_milliseconds() {
    let doc = "<speak>a<break time=\"1.5s\"/></speak>";
    assert!(events_checked(doc));
    assert_eq!(run_ssml(doc), "\"<a>\"\n\t\"a\" N <W:0.0> <DRT-BREAK-AFTER:1500>\n");
}

#[test]
fn sub_alias_is_read_from_the_document() {
    let doc = "<speak><sub alias=\"World Wide Web\">WWW</sub></speak>";
    assert_eq!(run_ssml(doc), "\"<World Wide Web>\"\n\t\"World Wide Web\" N <W:0.0>\n");
}

#[test]
fn a_refused_document_gives_the_parser_message() {
    let doc = "<speak><speak>x</speak></speak>";
    assert!(events_checked(doc));
    let err = forward_ssml(doc, &Vec::new()).unwrap_err();
    assert!(err.contains("Speak element cannot be placed inside a Speak"), "{err}");
}

#[test]
fn walk_events_stops_at_the_first_unanswered_request() {
    let events = vec![SsmlEvent::Text("one".to_string()), SsmlEvent::Text("two".to_string())];
    match walk_events(events, &vec![tokenize("one")]) {
        SsmlForward::Need(req) => assert_eq!(req.text, "two"),
        other => panic!("expected a request, got {other:?}"),
    }
}

#[test]
fn contour_pairs_without_a_comma_are_refused() {
    assert!(!text_checked("<speak><prosody contour=\"(50%)\">x</prosody></speak>"));
    assert!(!text_checked("<speak><prosody contour=\"(0%,+20Hz) (50%)\">x</prosody></speak>"));
    assert!(!text_checked("<speak><prosody contour=\"&#40;50%)\">x</prosody></speak>"));
    assert!(text_checked("<speak><prosody contour=\"(0%,+20Hz) (50%,-10Hz)\">x</prosody></speak>"));
    assert!(text_checked("<speak>(aside)</speak>"));
}

#[test]
fn text_before_speak_and_overlong_times_are_refused() {
    assert!(!events_checked("hello<speak>x</speak>"));
    assert!(!events_checked("<speak/>x<speak>y</speak>"));
    assert!(!events_checked("<speak><break time=\"99999999999999999999s\"/></speak>"));
    assert!(!events_checked("<speak><break time=\"١s\"/></speak>"));
    assert!(!text_checked("<speak><prosody duration=\"١s\">x</prosody></speak>"));
    assert!(events_checked("  <speak version=\"1.1\">x</speak>"));
}

#[test]
fn strip_reads_a_contoured_document() {
    let doc = "<speak><prosody contour=\"(0%,+20Hz) (50%,-10Hz)\">Hello</prosody></speak>";
    assert_eq!(Strip.run(doc).map(|t| t.trim().to_string()), Ok("Hello".to_string()));
}

#[test]
fn ordinary_documents_are_admitted() {
    assert!(events_checked("<speak>Tom &amp; Jerry have time</speak>"));
    assert!(events_checked("<speak>Call 12345678901234567890123 now</speak>"));
    assert!(events_checked("<?xml version=\"1.0\"?>\n<!-- a note -->\n<!DOCTYPE speak PUBLIC \"-//W3C//DTD SYNTHESIS 1.0//EN\" \"synthesis.dtd\">\n<speak xml:lang='se'>x<break time=\"500ms\"/></speak>"));
    assert!(events_checked("just text, no markup"));
    assert!(text_checked("<speak><prosody contour=\"(0%,+20Hz)\">x &amp; y</prosody></speak>"));
    assert!(!events_checked("<!-- note --> text <speak>x</speak>"));
    assert!(events_checked("<speak><break time=\"1.000000000000000000000s\"/></speak>"));
    assert!(events_checked("<speak><break time=\"00000000000000000000000001s\"/></speak>"));
    assert!(events_checked("<speak><break time=\"9999999999999999999999ms\"/></speak>"));
    assert!(!events_checked("<speak><break time=\"99999999999999999999999ms\"/></speak>"));
}

#[test]
fn break_times_are_read_by_the_parser() {
    let b = BreakText { time: Some("1.5s".to_string()), strength: None };
    assert_eq!(break_attrs(&b).time_ms, Some(1500));
    let b = BreakText { time: Some("250ms".to_string()), strength: None };
    assert_eq!(break_attrs(&b).time_ms, Some(250));
    let b = BreakText { time: Some("12345678901234567890s".to_string()), strength: None };
    assert_eq!(break_attrs(&b).time_ms, Some(u128::from(u32::MAX)));
    let b = BreakText { time: Some("+0000000000000000000000002s".to_string()), strength: None };
    assert_eq!(break_attrs(&b).time_ms, Some(2000));
}
