use divvun_runtime::hfst::{
    break_ms, encode_tag_value, format_opts_tags, inject_break_after_tag, inject_opts_tags,
    BreakAttrs, BreakStrength, SsmlFrame,
};
use divvun_runtime::sentences::percent_decode;
use ssml_parser::elements::{ParsedElement, Strength};
use ssml_parser::ParserEvent;

#[test]
fn inject_into_last_cohort_only() {
    let frag = "\"<Hello>\"\n\t\"Hello\" N <W:0.0>\n\"<world>\"\n\t\"world\" N <W:0.0>\n";
    let out = inject_break_after_tag(frag, 500);
    assert!(
        out.contains("\t\"Hello\" N <W:0.0>\n"),
        "first cohort untouched, got: {out}"
    );
    assert!(
        out.contains("\t\"world\" N <W:0.0> <DRT-BREAK-AFTER:500>\n"),
        "got: {out}"
    );
}

#[test]
fn inject_with_multiple_readings() {
    let frag = "\"<x>\"\n\t\"x\" N <W:0.0>\n\t\"x\" V <W:0.5>\n";
    let out = inject_break_after_tag(frag, 250);
    assert!(out.contains("\t\"x\" N <W:0.0> <DRT-BREAK-AFTER:250>\n"));
    assert!(out.contains("\t\"x\" V <W:0.5> <DRT-BREAK-AFTER:250>\n"));
}

#[test]
fn inject_into_empty_fragment_is_passthrough() {
    assert_eq!(inject_break_after_tag("", 500), "");
}

fn strength_of(s: Strength) -> BreakStrength {
    match s {
        Strength::No => BreakStrength::No,
        Strength::ExtraWeak => BreakStrength::ExtraWeak,
        Strength::Weak => BreakStrength::Weak,
        Strength::Medium => BreakStrength::Medium,
        Strength::Strong => BreakStrength::Strong,
        Strength::ExtraStrong => BreakStrength::ExtraStrong,
    }
}

fn parse_break(ssml: &str) -> BreakAttrs {
    let parsed = ssml_parser::parse_ssml(ssml).expect("parse");
    for ev in parsed.event_iter() {
        if let ParserEvent::Empty(ParsedElement::Break(attrs)) = ev {
            return BreakAttrs {
                time_ms: attrs.time.map(|t| t.duration().as_millis()),
                strength: attrs.strength.map(strength_of),
            };
        }
    }
    panic!("no <break> in {ssml:?}");
}

#[test]
fn break_ms_time_only() {
    let attrs = parse_break("<speak><break time=\"500ms\"/></speak>");
    assert_eq!(break_ms(&attrs), 500);
}

#[test]
fn break_ms_time_fractional_seconds() {
    let attrs = parse_break("<speak><break time=\"1.5s\"/></speak>");
    assert_eq!(break_ms(&attrs), 1500);
}

#[test]
fn break_ms_strength_only() {
    assert_eq!(
        break_ms(&parse_break("<speak><break strength=\"none\"/></speak>")),
        0
    );
    assert_eq!(
        break_ms(&parse_break("<speak><break strength=\"x-weak\"/></speak>")),
        100
    );
    assert_eq!(
        break_ms(&parse_break("<speak><break strength=\"weak\"/></speak>")),
        250
    );
    assert_eq!(
        break_ms(&parse_break("<speak><break strength=\"medium\"/></speak>")),
        500
    );
    assert_eq!(
        break_ms(&parse_break("<speak><break strength=\"strong\"/></speak>")),
        1000
    );
    assert_eq!(
        break_ms(&parse_break(
            "<speak><break strength=\"x-strong\"/></speak>"
        )),
        1500
    );
}

#[test]
fn break_ms_no_attrs_is_medium_default() {
    assert_eq!(break_ms(&parse_break("<speak><break/></speak>")), 500);
}

#[test]
fn break_ms_time_wins_over_strength() {
    assert_eq!(
        break_ms(&parse_break(
            "<speak><break time=\"2s\" strength=\"weak\"/></speak>"
        )),
        2000
    );
}

#[test]
fn break_ms_caps_a_huge_time() {
    let attrs = BreakAttrs { time_ms: Some(u128::from(u32::MAX) + 7), strength: None };
    assert_eq!(break_ms(&attrs), u32::MAX);
}

#[test]
fn inject_opts_prosody_rate() {
    let frag = "\"<a>\"\n\t\"a\" N <W:0.0>\n\"<b>\"\n\t\"b\" N <W:0.0>\n";
    let frame = SsmlFrame {
        prosody_rate: Some("fast".to_string()),
        ..Default::default()
    };
    let out = inject_opts_tags(frag, &frame);
    assert!(out.contains("\t\"a\" N <W:0.0> <DRT-PROSODY-RATE:fast>\n"));
    assert!(out.contains("\t\"b\" N <W:0.0> <DRT-PROSODY-RATE:fast>\n"));
    assert!(out.contains("\"<a>\"\n"), "cohort header untouched: {out}");
}

#[test]
fn inject_opts_multiple_attrs() {
    let frag = "\"<a>\"\n\t\"a\" N <W:0.0>\n";
    let frame = SsmlFrame {
        prosody_rate: Some("fast".to_string()),
        prosody_pitch: Some("high".to_string()),
        voice_gender: Some("female".to_string()),
        voice_age: Some(30),
        emphasis: Some("strong".to_string()),
        ..Default::default()
    };
    let out = inject_opts_tags(frag, &frame);
    assert!(out.contains("<DRT-PROSODY-RATE:fast>"));
    assert!(out.contains("<DRT-PROSODY-PITCH:high>"));
    assert!(out.contains("<DRT-VOICE-GENDER:female>"));
    assert!(out.contains("<DRT-VOICE-AGE:30>"));
    assert!(out.contains("<DRT-EMPHASIS:strong>"));
}

#[test]
fn inject_opts_no_overrides_is_passthrough() {
    let frag = "\"<a>\"\n\t\"a\" N <W:0.0>\n";
    let frame = SsmlFrame::default();
    assert_eq!(inject_opts_tags(frag, &frame), frag);
}

#[test]
fn encode_tag_value_passthrough_simple() {
    assert_eq!(encode_tag_value("fast"), "fast");
    assert_eq!(encode_tag_value("+20Hz"), "+20Hz");
    assert_eq!(encode_tag_value("200"), "200");
    assert_eq!(encode_tag_value("Alice,Bob"), "Alice,Bob");
}

#[test]
fn encode_tag_value_escapes_problematic() {
    assert_eq!(
        encode_tag_value("(0%,+20Hz) (50%,+30Hz)"),
        "(0%25,+20Hz)%20(50%25,+30Hz)"
    );
    assert_eq!(encode_tag_value("a<b>c"), "a%3Cb%3Ec");
    assert_eq!(encode_tag_value("a\tb"), "a%09b");
    assert_eq!(encode_tag_value("200%"), "200%25");
}

#[test]
fn inject_opts_encodes_problematic_values() {
    let frag = "\"<a>\"\n\t\"a\" N <W:0.0>\n";
    let frame = SsmlFrame {
        prosody_contour: Some("(0%,+20Hz) (50%,+30Hz)".to_string()),
        ..Default::default()
    };
    let out = inject_opts_tags(frag, &frame);
    assert!(
        out.contains("<DRT-PROSODY-CONTOUR:(0%25,+20Hz)%20(50%25,+30Hz)>"),
        "got: {out}"
    );
}

#[test]
fn encoded_values_decode_back() {
    for v in ["(0%,+20Hz) (50%,+30Hz)", "Čáhcesuolu; x=y", "a\x1Fb<c>", "plain", ""] {
        assert_eq!(percent_decode(&encode_tag_value(v)), v);
    }
}

#[test]
fn non_ascii_passes_through_encoding() {
    assert_eq!(encode_tag_value("sámi giella"), "sámi%20giella");
}

#[test]
fn format_opts_tags_keeps_its_order() {
    let frame = SsmlFrame {
        emphasis: Some("strong".to_string()),
        prosody_rate: Some("fast".to_string()),
        voice_variant: Some(2),
        ..Default::default()
    };
    assert_eq!(
        format_opts_tags(&frame),
        " <DRT-PROSODY-RATE:fast> <DRT-VOICE-VARIANT:2> <DRT-EMPHASIS:strong>"
    );
    assert_eq!(format_opts_tags(&SsmlFrame::default()), "");
}
