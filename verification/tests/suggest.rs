use divvun_runtime::cg3::{Block, Output};
use divvun_runtime::suggest::{
    byte_to_utf16_offset, clean_blank, default_delimiters, demote_targets, error_slots,
    expand_errs, fallback_query, get_casing, ids_for, ids_of_entries, preferred_title,
    proc_subreading, regex_is_match, sort_dedup, squash_ws, with_casing, AddedStatus, Casing,
    ErrMark, ErrOutput, FlushOn, Id, IdSet, Suggester,
};

fn strings(v: &[&str]) -> Vec<String> {
    v.iter().map(|s| s.to_string()).collect()
}

fn first_cohort(stream: &str) -> divvun_runtime::cg3::Cohort {
    let out = Output::new(stream);
    for item in out.iter() {
        if let Ok(Block::Cohort(c)) = item {
            return c;
        }
    }
    panic!("no cohort in {stream:?}");
}

/// Reads a stream, marks its errors with the given messages, and returns
/// the sentence.
fn mark(
    suggester: &Suggester,
    stream: &str,
    generated: Vec<Vec<Vec<String>>>,
    msg: (&str, &str),
) -> divvun_runtime::suggest::Sentence {
    let mut sentence = suggester
        .run_sentence(stream, FlushOn::Nul, &generated)
        .expect("positions fit");
    demote_targets(&mut sentence);
    let slots = error_slots(&sentence);
    for (i_c, e) in &slots {
        assert!(suggester.slot_ok(&sentence, *i_c, e));
    }
    let msgs: Vec<(String, String)> = slots
        .iter()
        .map(|_| (msg.0.to_string(), msg.1.to_string()))
        .collect();
    suggester.mk_errs(&mut sentence, &slots, &msgs);
    sentence
}

#[test]
fn subreading_tags_are_sorted_into_their_kinds() {
    let c = first_cohort(
        "\"<Mån>\"\n\t\"mån\" N Sg Nom &err-typo co&err-x ID:4 R:LEFT:3 SUGGEST @SUBJ> \"mon\"S <fixedcase>\n",
    );
    let r = proc_subreading(&c.readings[0], false);
    assert_eq!(r.ana, "mån+N+Sg+Nom");
    assert_eq!(r.errtypes, strings(&["err-typo"]));
    assert_eq!(r.coerrtypes, strings(&["err-x"]));
    assert_eq!(r.id, 4);
    assert_eq!(r.rels, vec![("LEFT".to_string(), 3)]);
    assert!(r.suggest);
    assert!(!r.suggestwf);
    assert_eq!(r.wf, "mon");
    assert!(r.fixedcase);
    assert!(r.sforms.is_empty());
    assert_eq!(r.added, AddedStatus::NotAdded);
}

#[test]
fn delete_relates_a_reading_to_itself_and_suggestwf_suggests_its_form() {
    let c = first_cohort("\"<a>\"\n\t\"a\" X ID:7 DELETE &ADDED-BEFORE-BLANK \"<b>\" SUGGESTWF\n");
    let r = proc_subreading(&c.readings[0], false);
    assert_eq!(r.rels, vec![("DELETE".to_string(), 7)]);
    assert_eq!(r.added, AddedStatus::AddedBeforeBlank);
    assert_eq!(r.sforms, strings(&["b"]));
    assert_eq!(r.ana, "a+X");
}

#[test]
fn clean_blank_drops_the_colon_brackets_and_escapes() {
    assert_eq!(clean_blank(":\\n"), "\n");
    assert_eq!(clean_blank(": [x]y\\\\"), " xy\\");
    assert_eq!(clean_blank("a:b"), "ab");
}

#[test]
fn casing_of_words() {
    assert_eq!(get_casing("Hello"), Casing::Title);
    assert_eq!(get_casing("HELLO"), Casing::Upper);
    assert_eq!(get_casing("hello"), Casing::Lower);
    assert_eq!(get_casing("hELLo"), Casing::Mixed);
    assert_eq!(get_casing(""), Casing::Mixed);
    assert_eq!(get_casing("123"), Casing::Mixed);
}

#[test]
fn suggestions_take_the_casing_of_the_word() {
    assert_eq!(with_casing(false, Casing::Title, "1 álgu"), "1 Álgu");
    assert_eq!(with_casing(false, Casing::Upper, "álgu"), "ÁLGU");
    assert_eq!(with_casing(false, Casing::Lower, "ÁLGU"), "álgu");
    assert_eq!(with_casing(true, Casing::Upper, "álgu"), "álgu");
    assert_eq!(with_casing(false, Casing::Mixed, "áLgu"), "áLgu");
}

#[test]
fn sorting_and_squashing() {
    assert_eq!(sort_dedup(&strings(&["b", "a", "b", "ab"])), strings(&["a", "ab", "b"]));
    assert_eq!(squash_ws("  a \n b  "), "a b");
    assert_eq!(default_delimiters(), strings(&[".", "?", "!"]));
}

#[test]
fn unknown_analyses_fall_back_to_the_base_form() {
    assert_eq!(fallback_query("dat+N+?"), Some("dat".to_string()));
    assert_eq!(fallback_query("dat+N"), None);
}

#[test]
fn utf16_offsets() {
    assert_eq!(byte_to_utf16_offset("a😀b", 5), 3);
    assert_eq!(byte_to_utf16_offset("Mån", 4), 3);
}

#[test]
fn relation_names_are_matched_by_regular_expression() {
    assert!(regex_is_match("^DELETE[0-9]*$", "DELETE12"));
    assert!(!regex_is_match("^DELETE[0-9]*$", "LEFT"));
    assert!(Id::Regex("^err-.*$".to_string()).matches("err-typo"));
    assert!(!Id::Explicit("err-x".to_string()).matches("err-typo"));
}

#[test]
fn error_ids_from_entries() {
    let ids = ids_of_entries(&vec![
        (Some("err-a".to_string()), Some("ignored".to_string())),
        (None, Some("^err-b".to_string())),
        (None, Some("(".to_string())),
        (None, None),
    ]);
    assert_eq!(ids, vec![Id::Explicit("err-a".to_string()), Id::Regex("^err-b".to_string())]);
    let set = ids_for(
        &strings(&["typos", "missing"]),
        &vec![("typos".to_string(), ids)],
    );
    assert!(set.matches("err-a"));
    assert!(set.matches("err-bx"));
    assert!(!set.matches("err-c"));
}

#[test]
fn preferred_titles() {
    let titles = vec![Some("A".to_string()), None, Some("B".to_string()), None];
    assert_eq!(preferred_title("k", &titles, &Some("D".to_string())), "B");
    assert_eq!(preferred_title("k", &vec![None], &Some("D".to_string())), "D");
    assert_eq!(preferred_title("k", &vec![], &None), "k");
}

#[test]
fn a_typo_gets_its_generated_suggestion_in_the_words_casing() {
    let s = Suggester::new("se".to_string(), false, None, None);
    let sentence = mark(
        &s,
        "\"<Mån>\"\n\t\"mån\" N Sg Nom &err-typo SUGGEST\n",
        vec![vec![strings(&["mon"])]],
        ("Typo €1", "Did you mean €1?"),
    );
    assert_eq!(sentence.text, "Mån");
    assert_eq!(sentence.errs.len(), 1);
    let e = &sentence.errs[0];
    assert_eq!(e.form, "Mån");
    assert_eq!((e.beg, e.end), (0, 4));
    assert_eq!(e.err, "err-typo");
    assert_eq!(e.rep, strings(&["Mon"]));
    assert_eq!(e.msg, ("Typo Mon".to_string(), "Did you mean Mon?".to_string()));
    let o = ErrOutput::from_err_utf16(e, &sentence.text);
    assert_eq!((o.beg, o.end), (0, 3));
    let b = ErrOutput::from_err_bytes(e);
    assert_eq!((b.beg, b.end), (0, 4));
}

#[test]
fn a_deleted_double_word_is_underlined_with_its_source() {
    let s = Suggester::new("se".to_string(), false, None, None);
    let sentence = mark(
        &s,
        "\"<leat>\"\n\t\"leat\" V &err-double R:DELETE1:2 ID:1\n\"<leat>\"\n\t\"leat\" V ID:2\n",
        vec![],
        ("Double", "Remove €1"),
    );
    assert_eq!(sentence.text, "leatleat");
    assert_eq!(sentence.errs.len(), 1);
    let e = &sentence.errs[0];
    assert_eq!((e.beg, e.end), (0, 8));
    assert_eq!(e.form, "leatleat");
    assert_eq!(e.rep, strings(&["leat"]));
    assert_eq!(e.msg.1, "Remove leat");
}

#[test]
fn ignored_errors_are_not_marked() {
    let s = Suggester::new(
        "se".to_string(),
        false,
        Some(IdSet { ids: vec![Id::Explicit("err-typo".to_string())] }),
        None,
    );
    let sentence = mark(
        &s,
        "\"<Mån>\"\n\t\"mån\" N &err-typo SUGGEST\n",
        vec![vec![strings(&["mon"])]],
        ("t", "d"),
    );
    assert!(sentence.errs.is_empty());
}

#[test]
fn a_delimiter_ends_the_sentence_when_asked() {
    let s = Suggester::new("se".to_string(), false, None, None);
    let stream = "\"<a>\"\n\t\"a\" X\n\"<.>\"\n\t\".\" CLB\n\"<b>\"\n\t\"b\" X\n";
    let whole = s.run_sentence(stream, FlushOn::Nul, &vec![]).unwrap();
    assert_eq!(whole.text, "a.b");
    let first = s.run_sentence(stream, FlushOn::NulAndDelimiters, &vec![]).unwrap();
    assert_eq!(first.text, "a.");
    assert_eq!(first.cohorts.len(), 2);
    assert_eq!(first.cohorts[1].pos, 1);
}

#[test]
fn overlapping_errors_are_stretched_over_each_other() {
    let text = "abcdef";
    let mk = |beg: usize, end: usize, rep: &str| ErrMark {
        form: text[beg..end].to_string(),
        beg,
        end,
        err: "e".to_string(),
        msg: (String::new(), String::new()),
        rep: vec![rep.to_string()],
    };
    let mut errs = vec![mk(2, 5, "X"), mk(0, 3, "Y")];
    expand_errs(&mut errs, text);
    assert_eq!(errs.len(), 2);
    assert_eq!((errs[0].beg, errs[0].end, errs[0].form.as_str()), (0, 5, "abcde"));
    assert_eq!(errs[0].rep, strings(&["Yde"]));
    assert_eq!((errs[1].beg, errs[1].end, errs[1].form.as_str()), (0, 5, "abcde"));
    assert_eq!(errs[1].rep, strings(&["abX"]));
}

#[test]
fn each_cohort_stands_at_its_byte_position() {
    let s = Suggester::new("se".to_string(), false, None, None);
    let stream = "\"<Mån>\"\n\t\"mån\" N\n: \n\"<ja>\"\n\t\"ja\" CC\n\"<ođđa>\"\n\t\"ođas\" A\n";
    let sentence = s.run_sentence(stream, FlushOn::Nul, &vec![]).unwrap();
    let mut last = 0;
    for c in &sentence.cohorts {
        assert_eq!(&sentence.text[c.pos..c.pos + c.form.len()], c.form);
        assert!(c.pos >= last);
        last = c.pos;
    }
    assert_eq!(sentence.cohorts.len(), 3);
}

#[test]
fn expanded_forms_are_the_text_of_their_spans() {
    let text = "abc def ghi";
    let mk = |form: &str, beg: usize, end: usize, err: &str| ErrMark {
        form: form.to_string(),
        beg,
        end,
        err: err.to_string(),
        msg: ("t".to_string(), "d".to_string()),
        rep: vec![],
    };
    let mut errs = vec![mk("abc def", 0, 7, "a"), mk("def ghi", 4, 11, "b")];
    expand_errs(&mut errs, text);
    assert_eq!(errs.len(), 2);
    for e in &errs {
        assert_eq!(&text[e.beg..e.end], e.form);
    }
}

#[test]
fn checked_marking_marks_as_mk_errs_does() {
    let s = Suggester::new("se".to_string(), false, None, None);
    let stream = "\"<Mån>\"\n\t\"mån\" N &err-typo SUGGEST\n";
    let generated = vec![vec![strings(&["mon"])]];
    let expected = mark(&s, stream, generated.clone(), ("t", "d"));
    let mut sentence = s.run_sentence(stream, FlushOn::Nul, &generated).unwrap();
    demote_targets(&mut sentence);
    let slots = error_slots(&sentence);
    let msgs: Vec<(String, String)> = slots.iter().map(|_| ("t".to_string(), "d".to_string())).collect();
    assert!(s.mk_errs_checked(&mut sentence, &slots, &msgs));
    assert_eq!(sentence.errs.len(), expected.errs.len());
    assert_eq!(sentence.errs.len(), 1);
    assert_eq!(sentence.errs[0].form, expected.errs[0].form);
    assert_eq!(sentence.errs[0].rep, expected.errs[0].rep);
}

#[test]
fn relation_ids_lead_to_their_cohorts() {
    let s = Suggester::new("se".to_string(), false, None, None);
    let stream = "\"<a>\"\n\t\"a\" N ID:1\n\"<b>\"\n\t\"b\" V ID:2 R:LEFT:1\n\"<c>\"\n\t\"c\" Adv\n";
    let sentence = s.run_sentence(stream, FlushOn::Nul, &vec![]).unwrap();
    assert_eq!(sentence.ids_cohorts.get(&1), Some(&0));
    assert_eq!(sentence.ids_cohorts.get(&2), Some(&1));
    assert_eq!(sentence.ids_cohorts.get(&0), None);
    assert_eq!(sentence.ids_cohorts.len(), 2);
    for (id, &i) in &sentence.ids_cohorts {
        assert_eq!(sentence.cohorts[i].id, *id);
    }
}
