use divvun_runtime::cg3::{Block, Cohort, Output};
use divvun_runtime::cg3_util::{default_sentence_breakers, is_sentence_boundary};

fn with_first_cohort<F: FnOnce(&Cohort)>(cg: &str, f: F) {
    let output = Output::new(cg);
    for block in output.iter().into_iter().filter_map(Result::ok) {
        if let Block::Cohort(c) = block {
            f(&c);
            return;
        }
    }
    panic!("no cohort parsed from {cg:?}");
}

#[test]
fn period_with_clb_is_boundary() {
    with_first_cohort("\"<.>\"\n\t\".\" CLB <W:0.0>\n", |c| {
        assert!(is_sentence_boundary(c, &default_sentence_breakers()));
    });
}

#[test]
fn comma_with_clb_is_not_boundary() {
    with_first_cohort("\"<,>\"\n\t\",\" CLB <W:0.0>\n", |c| {
        assert!(!is_sentence_boundary(c, &default_sentence_breakers()));
    });
}

#[test]
fn period_without_clb_is_not_boundary() {
    with_first_cohort("\"<.>\"\n\t\".\" PUNCT <W:0.0>\n", |c| {
        assert!(!is_sentence_boundary(c, &default_sentence_breakers()));
    });
}

#[test]
fn question_mark_respects_custom_whitelist() {
    with_first_cohort("\"<?>\"\n\t\"?\" CLB <W:0.0>\n", |c| {
        let only_period: Vec<String> = vec![".".to_string()];
        assert!(!is_sentence_boundary(c, &only_period));
    });
}

#[test]
fn bang_with_clb_is_boundary() {
    with_first_cohort("\"<!>\"\n\t\"!\" CLB <W:0.0>\n", |c| {
        assert!(is_sentence_boundary(c, &default_sentence_breakers()));
    });
}

#[test]
fn default_breakers_are_the_sentence_ends() {
    let b = default_sentence_breakers();
    assert_eq!(b.len(), 3);
    for s in [".", "!", "?"] {
        assert!(b.iter().any(|x| x == s));
    }
}
