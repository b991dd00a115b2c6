use divvun_runtime::cg3::{Block, Cohort, Output};
use divvun_runtime::cg3_util::default_sentence_breakers;
use divvun_runtime::sentences::{after_break_ms, cohort_opts, extract_sentences, SentenceMode};

const SOUTH_SAMI: &str = "\"<Gïelejarngi>\"\n\t\"gïelejarnge\" N Sem/Plc Pl Gen <W:0.0> @>N #1->2 \"gïelejarngi\"phon\n: \n\"<darjomh>\"\n\t\"darjome\" N Sem/Feat Pl Nom <W:0.0> @SUBJ> #2->3 \"darjomh\"phon\n: \n\"<viehkiehtieh>\"\n\t\"viehkiehtidh\" <mv> V TV Ind Prs Pl3 <W:0.0> @FMV #3->0 \"viehkiehtieh\"phon\n: \n\"<saemien>\"\n\t\"saemien\" A Attr <W:0.0> @>N #4->5 \"saemien\"phon\n: \n\"<gïelem>\"\n\t\"gïele\" N Sem/Lang_Tool Sg Acc <W:0.0> @<OBJ #5->3 \"gïelem\"phon\n: \n\"<våajnoes>\"\n\t\"våajnoes\" Adv <W:0.0> @<ADVL #6->3 \"våajnoes\"phon\n: \n\"<darjodh>\"\n\t\"darjodh\" <mv> V TV Inf <W:0.0> @IMV #7->3 \"darjodh\"phon\n: \n\"<voengesne>\"\n\t\"voenge\" N Sem/Plc-abstr Sg Ine <W:0.0> @<ADVL #8->7 \"voengesne\"phon\n\"<.>\"\n\t\".\" CLB <W:0.0> #9->3 \".\"phon\n: \n\"<Gïelejarngh>\"\n\t\"gïelejarnge\" N Sem/Plc Pl Nom <W:0.0> @SUBJ> #1->5 \"gïelejarngh\"phon\n: \n\"<sijjen>\"\n\t\"sijjieh\" Pron Logo Pl3 Gen <W:0.0> @>N #2->3 \"sijjen\"phon\n: \n\"<gïeledajvh>\"\n\t\"gïeledajve\" N Sem/Plc Pl Nom <W:0.0> @SUBJ> #3->5 \"gïeledajvh\"phon\n: \n\"<våaroeminie>\"\n\t\"våarome\" N Sem/Semcon Ess <W:0.0> @ADVL> #4->5 \"våaroeminie\"phon\n: \n\"<utnieh>\"\n\t\"utnedh\" <mv> V <TH-Acc-Any><RO-Ess-Any> TV Ind Prs Pl3 <W:0.0> @FMV #5->0 \"utnieh\"phon\n\"<,>\"\n\t\",\" CLB <W:0.0> #6->7 \",\"phon\n: \n\"<jïh>\"\n\t\"jïh\" CC <W:0.0> @CNP #7->5 \"jïh\"phon\n: \n\"<råajvarimmiejgujmie>\"\n\t\"råajvarimmie\" N Sem/Act Pl Com NoUml <W:0.0> @<ADVL #8->5 \"råajvarimmiejgujmie\"phon\n: \n\"<nierhkieh>\"\n\t\"nïerhkedh\" <mv> V TV Ind Prs Pl3 Uml <W:0.0> @FMV #9->5 \"nierhkieh\"phon\n: \n\"<mah>\"\n\t\"mij\" Pron Interr Pl Nom <W:0.0> @SUBJ> #10->11 \"mah\"phon\n: \n\"<leah>\"\n\t\"lea\" <aux> V IV Ind Prs Pl3 <W:0.0> @FAUX #11->5 \"leah\"phon\n: \n\"<daerpiesvoetide>\"\n\t\"daerpiesvoete\" N Sem/Perc-phys Pl Acc <W:0.0> @OBJ> #12->13 \"daerpiesvoetide\"phon\n: \n\"<sjïehtedamme>\"\n\t\"sjïehtedidh\" v1 <mv> V TV PrfPrc <W:0.0> @IMV #13->11 \"sjïehtedamme\"phon\n: \n\"<dejnie>\"\n\t\"dïhte\" Pron Dem Pl Ine <W:0.0> @>N #14->16 \"dejnie\"phon\n: \n\"<ovmessie>\"\n\t\"ovmessie\" A Attr <W:0.0> @>N #15->16 \"ovmessie\"phon\n: \n\"<dajvine>\"\n\t\"dajve\" N Sem/Plc Pl Ine <W:0.0> @<ADVL #16->13 \"dajvine\"phon\n\"<?>\"\n\t\"?\" CLB <W:0.0> #17->5 \"?\"phon\n";

fn first_cohort(cg3: &str) -> Cohort {
    let output = Output::new(cg3);
    output
        .iter()
        .into_iter()
        .filter_map(Result::ok)
        .find_map(|b| {
            if let Block::Cohort(c) = b {
                Some(c)
            } else {
                None
            }
        })
        .expect("cohort")
}

fn get<'a>(opts: &'a [(String, String)], key: &str) -> Option<&'a str> {
    opts.iter().find(|(k, _)| k == key).map(|(_, v)| v.as_str())
}

#[test]
fn south_sami_splits_into_two_sentences_surface() {
    let breakers = default_sentence_breakers();
    let sentences = extract_sentences(SOUTH_SAMI, SentenceMode::SurfaceForm, &breakers);
    assert_eq!(
        sentences.len(),
        2,
        "expected 2 sentences (split on . and ?), got: {sentences:#?}"
    );
    assert!(
        sentences[0].ends_with('.'),
        "sentence 1 should retain its boundary '.', got: {:?}",
        sentences[0]
    );
    assert!(
        sentences[1].ends_with('?'),
        "sentence 2 should retain its boundary '?', got: {:?}",
        sentences[1]
    );
    assert!(
        sentences[1].contains(','),
        "comma should be retained mid-sentence, not split on, got: {:?}",
        sentences[1]
    );
}

#[test]
fn south_sami_splits_into_two_sentences_phonological() {
    let breakers = default_sentence_breakers();
    let sentences = extract_sentences(SOUTH_SAMI, SentenceMode::PhonologicalForm, &breakers);
    assert_eq!(
        sentences.len(),
        2,
        "expected 2 sentences in phonological mode, got: {sentences:#?}"
    );
    assert!(sentences[0].ends_with('.'));
    assert!(sentences[1].ends_with('?'));
}

#[test]
fn break_tag_emits_sentinel() {
    let cg3 = "\"<Hello>\"\n\t\"Hello\" N <W:0.0> <DRT-BREAK-AFTER:500>\n\"<world>\"\n\t\"world\" N <W:0.0>\n\"<.>\"\n\t\".\" CLB <W:0.0>\n";
    let breakers = default_sentence_breakers();
    let sentences = extract_sentences(cg3, SentenceMode::SurfaceForm, &breakers);
    assert_eq!(
        sentences,
        vec![
            "Hello".to_string(),
            "\x1FBREAK:500\x1F".to_string(),
            "world .".to_string(),
        ],
        "got: {sentences:#?}"
    );
}

#[test]
fn break_tag_without_sentence_punct_still_flushes() {
    let cg3 = "\"<foo>\"\n\t\"foo\" N <W:0.0> <DRT-BREAK-AFTER:250>\n\"<bar>\"\n\t\"bar\" N <W:0.0>\n";
    let breakers = default_sentence_breakers();
    let sentences = extract_sentences(cg3, SentenceMode::SurfaceForm, &breakers);
    assert_eq!(
        sentences,
        vec![
            "foo".to_string(),
            "\x1FBREAK:250\x1F".to_string(),
            "bar".to_string(),
        ]
    );
}

#[test]
fn after_break_ms_helper() {
    let cg3 = "\"<x>\"\n\t\"x\" N <W:0.0> <DRT-BREAK-AFTER:1234>\n";
    let cohort = first_cohort(cg3);
    assert_eq!(after_break_ms(&cohort), Some(1234));
}

#[test]
fn prosody_rate_synthesises_pace_in_opts() {
    let cg3 = "\"<Hello>\"\n\t\"Hello\" N <W:0.0> <DRT-PROSODY-RATE:fast>\n\"<world>\"\n\t\"world\" N <W:0.0> <DRT-PROSODY-RATE:fast>\n\"<.>\"\n\t\".\" CLB <W:0.0> <DRT-PROSODY-RATE:fast>\n";
    let breakers = default_sentence_breakers();
    let sentences = extract_sentences(cg3, SentenceMode::SurfaceForm, &breakers);
    assert_eq!(sentences.len(), 1);
    let s = &sentences[0];
    assert!(
        s.starts_with("\x1FOPTS:pace=1.25;prosody-rate=fast\x1F"),
        "got: {s:?}"
    );
    assert!(s.ends_with("Hello world ."), "got: {s:?}");
}

#[test]
fn no_drt_tag_means_no_opts_prefix() {
    let cg3 = "\"<Hello>\"\n\t\"Hello\" N <W:0.0>\n\"<.>\"\n\t\".\" CLB <W:0.0>\n";
    let breakers = default_sentence_breakers();
    let sentences = extract_sentences(cg3, SentenceMode::SurfaceForm, &breakers);
    assert_eq!(sentences, vec!["Hello .".to_string()]);
}

#[test]
fn prosody_rate_and_break_combine() {
    let cg3 = "\"<Hello>\"\n\t\"Hello\" N <W:0.0> <DRT-PROSODY-RATE:slow> <DRT-BREAK-AFTER:500>\n\"<world>\"\n\t\"world\" N <W:0.0>\n\"<.>\"\n\t\".\" CLB <W:0.0>\n";
    let breakers = default_sentence_breakers();
    let sentences = extract_sentences(cg3, SentenceMode::SurfaceForm, &breakers);
    assert_eq!(
        sentences,
        vec![
            "\x1FOPTS:pace=0.75;prosody-rate=slow\x1FHello".to_string(),
            "\x1FBREAK:500\x1F".to_string(),
            "world .".to_string(),
        ]
    );
}

#[test]
fn cohort_opts_collects_many_drt_tags() {
    let cg3 = "\"<a>\"\n\t\"a\" N <W:0.0> <DRT-PROSODY-RATE:fast> <DRT-VOICE-GENDER:female> <DRT-EMPHASIS:strong> <DRT-BREAK-AFTER:500>\n";
    let cohort = first_cohort(cg3);
    let opts = cohort_opts(&cohort);
    assert_eq!(get(&opts, "prosody-rate"), Some("fast"));
    assert_eq!(get(&opts, "voice-gender"), Some("female"));
    assert_eq!(get(&opts, "emphasis"), Some("strong"));
    assert!(get(&opts, "break-after").is_none());
}

#[test]
fn cohort_opts_percent_decodes() {
    let cg3 = "\"<a>\"\n\t\"a\" N <W:0.0> <DRT-PROSODY-CONTOUR:(0%25,+20Hz)%20(50%25,+30Hz)>\n";
    let cohort = first_cohort(cg3);
    let opts = cohort_opts(&cohort);
    assert_eq!(get(&opts, "prosody-contour"), Some("(0%,+20Hz) (50%,+30Hz)"));
}

#[test]
fn multi_attr_opts_emits_sorted_keys() {
    let cg3 = "\"<Hello>\"\n\t\"Hello\" N <W:0.0> <DRT-VOICE-GENDER:female> <DRT-PROSODY-RATE:fast> <DRT-EMPHASIS:strong>\n\"<.>\"\n\t\".\" CLB <W:0.0>\n";
    let breakers = default_sentence_breakers();
    let sentences = extract_sentences(cg3, SentenceMode::SurfaceForm, &breakers);
    assert_eq!(sentences.len(), 1);
    assert!(
        sentences[0].starts_with(
            "\x1FOPTS:pace=1.25;emphasis=strong;prosody-rate=fast;voice-gender=female\x1F"
        ),
        "got: {:?}",
        sentences[0]
    );
}

#[test]
fn sentence_mode_names() {
    assert!(SentenceMode::from_str("surface") == Ok(SentenceMode::SurfaceForm));
    assert!(SentenceMode::from_str("phonological") == Ok(SentenceMode::PhonologicalForm));
    assert!(SentenceMode::from_str("other").is_err());
}

#[test]
fn a_written_stream_reads_back_as_written() {
    let stream = "\"<Mun>\"\n\t\"mun\" Pron Pers Sg1 Nom\n:\n\"<boađán>\"\n\t\"boahtit\" V IV Ind Prs Sg1\n;\t\"boahtit\" V IV Ind Prt Sg1\n\t\t\"boađán\" N\n<STREAMCMD:FLUSH>\n";
    let mut written = String::new();
    for item in Output::new(stream).iter() {
        written.push_str(&item.expect("reads").to_cg_string());
    }
    assert_eq!(written, stream);
}
