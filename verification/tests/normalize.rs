use divvun_runtime::cg3::{Block, Cohort, Output, Reading};
use divvun_runtime::lookup::{Answer, Query, Step, Transducer};
use divvun_runtime::normalize::{
    build_reading_hierarchy, cohort_normalizable, extract_regentags, extract_surface_form, needs_expansion,
    process_cg3, stream_normalizable, trim_quotes,
};
use divvun_runtime::phon;

fn strings(v: &[&str]) -> Vec<String> {
    v.iter().map(|s| s.to_string()).collect()
}

fn reading(base: &str, tags: &[&str], depth: usize) -> Reading {
    Reading {
        raw_line: String::new(),
        base_form: base.to_string(),
        tags: strings(tags),
        depth,
        removed: false,
    }
}

fn first_cohort(text: &str) -> Cohort {
    let out = Output::new(text);
    for item in out.iter() {
        if let Ok(Block::Cohort(c)) = item {
            return c;
        }
    }
    panic!("no cohort in {text:?}");
}

/// Runs a command to completion against a fixed lookup table, and records
/// the lookups it asked for, in order.
fn drive<F>(table: &[(Transducer, &str, &[&str])], mut run: F) -> (String, Vec<(Transducer, String)>)
where
    F: FnMut(&Vec<Answer>) -> Step<String>,
{
    let mut answers: Vec<Answer> = Vec::new();
    let mut asked = Vec::new();
    loop {
        match run(&answers) {
            Step::Done(s) => return (s, asked),
            Step::Need(q) => {
                asked.push((q.transducer, q.input.clone()));
                let results = table
                    .iter()
                    .find(|(t, i, _)| *t == q.transducer && *i == q.input)
                    .map(|(_, _, r)| strings(r))
                    .unwrap_or_default();
                answers.push(Answer { query: Query { transducer: q.transducer, input: q.input }, results });
                assert!(asked.len() < 100, "too many lookups");
            }
        }
    }
}

#[test]
fn regeneration_tags_skip_quoted_and_marked_tags_and_drop_the_normaliser_tags() {
    let r = reading("3", &["Num", "Arab", "\"x\"phon", "<W:0>", "@SUBJ>", "Sg", "Nom", "#1->2", "Gen"], 1);
    assert_eq!(extract_regentags(&r, &strings(&["Arab"])), "Num+Sg+Nom");
    let r = reading("a", &["N", "ABBR", "Cmpnd", "Sg"], 1);
    assert_eq!(extract_regentags(&r, &strings(&[])), "N");
    let r = reading("a", &["N", "ABBR", "Sg"], 1);
    assert_eq!(extract_regentags(&r, &strings(&[])), "N+Sg");
}

#[test]
fn the_first_normaliser_whose_tag_the_reading_has_is_chosen() {
    let r = reading("a", &["N", "ABBR", "Arab"], 1);
    assert_eq!(needs_expansion(&r, &strings(&["Arab", "ABBR"])), Some(0));
    assert_eq!(needs_expansion(&r, &strings(&["Roman", "ABBR"])), Some(1));
    assert_eq!(needs_expansion(&r, &strings(&["Roman"])), None);
}

#[test]
fn the_surface_form_comes_from_phon_then_form_tags_then_the_lemma() {
    let c = Cohort { word_form: "wf".to_string(), readings: vec![] };
    assert_eq!(extract_surface_form(&c, &reading("a", &["\"say\"phon", "\"<re>\""], 1)), "say");
    assert_eq!(extract_surface_form(&c, &reading("a", &["\"<re>\""], 1)), "re");
    assert_eq!(extract_surface_form(&c, &reading("\"part\"", &["N"], 2)), "part");
    assert_eq!(extract_surface_form(&c, &reading("\"q\"", &["N"], 1)), "q");
    assert_eq!(extract_surface_form(&c, &reading("plain", &["N"], 1)), "wf");
    assert_eq!(trim_quotes("\"\"a\"\""), "a");
}

#[test]
fn each_reading_hangs_under_the_last_less_deep_one() {
    let rs = vec![
        reading("a", &[], 1),
        reading("b", &[], 2),
        reading("c", &[], 3),
        reading("d", &[], 2),
        reading("e", &[], 1),
    ];
    let h = build_reading_hierarchy(&rs);
    let subs: Vec<Vec<usize>> = h.iter().map(|n| n.subreadings.clone()).collect();
    assert_eq!(subs, vec![vec![1, 3], vec![2], vec![], vec![], vec![]]);
    assert_eq!(h[2].depth, 3);
}

const NUM: &str = "\"<3>\"\n\t\"3\" Num Arab Sg Nom\n";

#[test]
fn a_number_is_expanded_regenerated_and_reanalysed() {
    let tags = strings(&["Arab"]);
    assert!(stream_normalizable(NUM, &tags));
    let table: Vec<(Transducer, &str, &[&str])> = vec![
        (Transducer::Tagged(0), "3", &["golbma"]),
        (Transducer::Generator, "golbma+Num+Sg+Nom", &["golbma"]),
        (Transducer::Generator, "3+Num+Sg+Nom", &[]),
        (Transducer::Analyzer, "golbma", &["golbma+Num+Sg+Nom"]),
    ];
    let (out, asked) = drive(&table, |a| process_cg3(a, NUM, &tags));
    assert_eq!(out, "\"<3>\"\n\t\"golbma\" Num Sg Nom \"golbma\"phon \"3\"oldlemma\n");
    assert_eq!(
        asked,
        vec![
            (Transducer::Tagged(0), "3".to_string()),
            (Transducer::Generator, "golbma+Num+Sg+Nom".to_string()),
            (Transducer::Generator, "3+Num+Sg+Nom".to_string()),
            (Transducer::Analyzer, "golbma".to_string()),
        ]
    );
}

#[test]
fn a_normaliser_that_knows_nothing_is_asked_again_with_a_full_stop() {
    let tags = strings(&["Arab"]);
    let table: Vec<(Transducer, &str, &[&str])> = vec![(Transducer::Tagged(0), "3.", &[])];
    let (out, asked) = drive(&table, |a| process_cg3(a, NUM, &tags));
    assert_eq!(out, format!("{NUM}\n"));
    assert_eq!(
        asked,
        vec![(Transducer::Tagged(0), "3".to_string()), (Transducer::Tagged(0), "3.".to_string())]
    );
}

#[test]
fn when_no_form_regenerates_the_last_expansion_is_kept_as_it_is() {
    let tags = strings(&["Arab"]);
    let table: Vec<(Transducer, &str, &[&str])> = vec![
        (Transducer::Tagged(0), "3", &["one", "two"]),
        (Transducer::Generator, "one+Num+Sg+Nom", &["one"]),
        (Transducer::Analyzer, "one", &["one+Num+Pl"]),
        (Transducer::Analyzer, "two", &["two+Num+Pl"]),
    ];
    let (out, _) = drive(&table, |a| process_cg3(a, NUM, &tags));
    assert_eq!(out, "\"<3>\"\n\t\"two\" Num Sg Nom \"two\"phon \"3\"oldlemma\n");
}

#[test]
fn without_regenerations_an_unanalysable_form_is_taken_as_it_is() {
    let tags = strings(&["Arab"]);
    let table: Vec<(Transducer, &str, &[&str])> = vec![(Transducer::Tagged(0), "3", &["golbma"])];
    let (out, asked) = drive(&table, |a| process_cg3(a, NUM, &tags));
    assert_eq!(out, "\"<3>\"\n\t\"golbma\" Num Sg Nom \"golbma\"phon \"3\"oldlemma\n");
    assert_eq!(asked.last(), Some(&(Transducer::Analyzer, "golbma".to_string())));
}

#[test]
fn a_compound_gets_the_prefix_of_its_parts() {
    let text = "\"<diehtosátnegirji>\"\n\t\"girji\" N Sg Nom\n\t\t\"sátni\" N Cmp\n\t\t\t\"diehtu\" N Cmp\n:\n";
    let tags = strings(&[]);
    let c = first_cohort(text);
    assert!(cohort_normalizable(&c, &tags));
    let table: Vec<(Transducer, &str, &[&str])> = vec![
        (Transducer::Generator, "girji+N+Sg+Nom", &["girji"]),
        (Transducer::Analyzer, "girji", &["girji+N+Sg+Nom"]),
    ];
    let (out, asked) = drive(&table, |a| process_cg3(a, text, &tags));
    assert_eq!(
        out,
        "\"<diehtosátnegirji>\"\n\
         \t\"girji\" N Sg Nom \"diehtusátnigirji\"phon \"girji\"oldlemma\n\
         \t\t\"sátni\" N \"diehtusátnigirji\"phon \"sátni\"oldlemma\n\
         :\n"
    );
    assert_eq!(asked.len(), 2);
}

#[test]
fn a_cohort_nothing_applies_to_is_written_as_it_was() {
    let text = "\"<ja>\"\n\t\"ja\" CC\nplain text\n";
    let (out, asked) = drive(&[], |a| process_cg3(a, text, &strings(&["Arab"])));
    assert_eq!(out, "\"<ja>\"\n\t\"ja\" CC\n\nplain text\n");
    assert!(asked.is_empty());
}

#[test]
fn phon_looks_up_the_first_reading_in_the_model_of_its_tag() {
    let text = "\"<hei>\"\n\t\"hei\" Interj \"hai\"phon\n\t\"hei\" N\n";
    assert!(phon::stream_transcribable(text));
    let table: Vec<(Transducer, &str, &[&str])> = vec![(Transducer::Tagged(0), "hai", &["h a j", "h e j"])];
    let (out, asked) = drive(&table, |a| phon::process_cg3(a, text, &strings(&["Interj"])));
    assert_eq!(out, "\"<hei>\"\n\t\"hei\" Interj \"h a j\"phon\n");
    assert_eq!(asked, vec![(Transducer::Tagged(0), "hai".to_string())]);
}

#[test]
fn phon_falls_back_to_the_word_form_and_keeps_cohorts_it_cannot_transcribe() {
    let text = "\"<hei>\"\n\t\"hei\" Interj\n";
    let (out, asked) = drive(&[], |a| phon::process_cg3(a, text, &strings(&[])));
    assert_eq!(out, "\"<hei>\"\n\t\"hei\" Interj\n\n");
    assert_eq!(asked, vec![(Transducer::Main, "hei".to_string())]);
}
