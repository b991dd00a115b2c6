use divvun_runtime::sentences::break_sentinel_string;
use divvun_runtime::speech::{parse_break_sentinel, parse_opts_prefix, NormalizedCohort, NormalizedReading};

fn pace(opts: &divvun_runtime::speech::SentenceOpts) -> Option<f32> {
    opts.pace.as_deref().and_then(|v| v.parse::<f32>().ok())
}

#[test]
fn sentinel_round_trip() {
    assert_eq!(parse_break_sentinel("\x1FBREAK:500\x1F"), Some(500));
    assert_eq!(parse_break_sentinel("\x1FBREAK:0\x1F"), Some(0));
    assert_eq!(parse_break_sentinel("\x1FBREAK:1500\x1F"), Some(1500));
}

#[test]
fn sentinel_rejects_non_matches() {
    assert_eq!(parse_break_sentinel("hello"), None);
    assert_eq!(parse_break_sentinel("BREAK:500"), None);
    assert_eq!(parse_break_sentinel("\x1FBREAK:abc\x1F"), None);
    assert_eq!(parse_break_sentinel("\x1FBREAK:500"), None);
    assert_eq!(parse_break_sentinel("BREAK:500\x1F"), None);
}

#[test]
fn sentinel_written_by_extraction_reads_back() {
    for ms in [0u32, 7, 500, 1234, u32::MAX] {
        assert_eq!(parse_break_sentinel(&break_sentinel_string(ms)), Some(ms));
    }
}

#[test]
fn opts_prefix_extracted() {
    let (opts, text) = parse_opts_prefix("\x1FOPTS:pace=1.25\x1FHello world.");
    assert_eq!(pace(&opts), Some(1.25));
    assert_eq!(text, "Hello world.");
}

#[test]
fn opts_prefix_absent_passes_through() {
    let (opts, text) = parse_opts_prefix("Hello world.");
    assert!(pace(&opts).is_none());
    assert_eq!(text, "Hello world.");
}

#[test]
fn opts_prefix_unknown_keys_ignored() {
    let (opts, text) = parse_opts_prefix("\x1FOPTS:pace=2.0;unknown=foo\x1Fhi");
    assert_eq!(pace(&opts), Some(2.0));
    assert_eq!(text, "hi");
}

#[test]
fn opts_prefix_malformed_passes_through() {
    let (opts, text) = parse_opts_prefix("\x1FOPTS:pace=1.0 no closer");
    assert!(pace(&opts).is_none());
    assert_eq!(text, "\x1FOPTS:pace=1.0 no closer");
}

#[test]
fn opts_prefix_last_pace_counts() {
    let (opts, text) = parse_opts_prefix("\x1FOPTS:pace=1.5;x=y;pace=0.5\x1F");
    assert_eq!(opts.pace.as_deref(), Some("0.5"));
    assert_eq!(text, "");
}

#[test]
fn normalized_reading_lines() {
    let r = NormalizedReading {
        base_form: "guokte".to_string(),
        tags: vec!["Num".to_string(), "Sg".to_string()],
        phonological_form: "guokte".to_string(),
        old_lemma: "2".to_string(),
        depth: 2,
    };
    assert_eq!(
        r.to_cg3_format(),
        "\t\t\"guokte\" Num Sg \"guokte\"phon \"2\"oldlemma"
    );
    let c = NormalizedCohort {
        readings: vec![
            NormalizedReading {
                base_form: "a".to_string(),
                tags: vec!["N".to_string()],
                phonological_form: "a".to_string(),
                old_lemma: "a".to_string(),
                depth: 1,
            },
            r,
        ],
    };
    assert_eq!(
        c.to_cg3_format(),
        "\t\"a\" N \"a\"phon \"a\"oldlemma\n\t\t\"guokte\" Num Sg \"guokte\"phon \"2\"oldlemma"
    );
}
