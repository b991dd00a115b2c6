use divvun_runtime::fluent_loader::{accepted_languages, error_message, error_preferences, selectors_checked, FluentLoader};

fn files() -> Vec<(String, String)> {
    vec![
        (
            "errors-en.ftl".to_string(),
            "err-a = Title A\n    .desc = Wrong { \"word\" }\nerr-only-en = Only English\n".to_string(),
        ),
        ("errors-se.ftl".to_string(), "err-a = Tittel\n".to_string()),
        ("notes.txt".to_string(), "not fluent".to_string()),
    ]
}

fn args(form: &str) -> Vec<(String, String)> {
    vec![("1".to_string(), form.to_string())]
}

#[test]
fn a_bundle_is_loaded_per_language_code() {
    let l = FluentLoader::new(&files(), "en").unwrap();
    let langs: Vec<&str> = l.bundles.iter().map(|(k, _)| k.as_str()).collect();
    assert_eq!(langs, vec!["en", "se"]);
    assert_eq!(
        l.find_first_available_locale(&vec!["fr".to_string(), "se".to_string()]),
        Some("se".to_string())
    );
    assert_eq!(l.find_first_available_locale(&vec!["fr".to_string()]), None);
}

#[test]
fn messages_are_formatted_without_isolation_marks() {
    let l = FluentLoader::new(&files(), "en").unwrap();
    assert_eq!(
        l.get_message(Some("en"), "err-a", &args("teh")).unwrap(),
        ("Title A".to_string(), "Wrong word".to_string())
    );
}

#[test]
fn a_message_without_a_description_is_described_by_its_title() {
    let l = FluentLoader::new(&files(), "en").unwrap();
    assert_eq!(
        l.get_message(Some("se"), "err-a", &args("x")).unwrap(),
        ("Tittel".to_string(), "Tittel".to_string())
    );
}

#[test]
fn lookup_falls_back_message_by_message() {
    let l = FluentLoader::new(&files(), "se").unwrap();
    assert_eq!(
        l.get_message(Some("fr"), "err-only-en", &vec![]).unwrap().0,
        "Only English"
    );
    assert_eq!(
        l.get_message_localized(&vec!["fr".to_string()], "err-a", &vec![]),
        Some(("Tittel".to_string(), "Tittel".to_string()))
    );
    assert_eq!(l.get_message(None, "err-b", &vec![]).unwrap_err(), "Message err-b not found");
}

#[test]
fn an_invalid_language_code_fails_the_load() {
    let files = vec![("errors-!!.ftl".to_string(), "a = b\n".to_string())];
    let e = FluentLoader::new(&files, "en").err().unwrap();
    assert!(e.starts_with("Invalid language identifier !!: "), "{e}");
}

#[test]
fn without_bundles_nothing_is_found() {
    let l = FluentLoader::new(&vec![], "en").unwrap();
    assert_eq!(l.get_message_localized(&vec!["en".to_string()], "err-a", &vec![]), None);
    assert_eq!(
        error_message(&l, "en", "err-a", "teh"),
        ("err-a".to_string(), "err-a".to_string())
    );
}

#[test]
fn suggester_messages_use_the_word_as_argument() {
    let l = FluentLoader::new(&files(), "en").unwrap();
    assert_eq!(
        error_message(&l, "se", "err-a", "teh"),
        ("Tittel".to_string(), "Tittel".to_string())
    );
    assert_eq!(
        error_message(&l, "fr", "err-a", "teh"),
        ("Title A".to_string(), "Wrong word".to_string())
    );
}

#[test]
fn error_preferences_take_the_last_language_that_has_a_title() {
    let l = FluentLoader::new(&files(), "en").unwrap();
    let prefs = error_preferences(
        &l,
        &vec!["err-a".to_string(), "err-z".to_string()],
        &vec!["en".to_string(), "se".to_string()],
    );
    assert_eq!(
        prefs,
        vec![("err-a".to_string(), "Tittel".to_string()), ("err-z".to_string(), "err-z".to_string())]
    );
}

#[test]
fn accept_language_keeps_the_tags_unic_langid_reads() {
    let v = accepted_languages("fr-CH, fr;q=0.9, en;q=0.8, de;q=0.7, *;q=0.5");
    assert_eq!(
        v,
        vec![
            ("fr-CH".to_string(), None),
            ("fr".to_string(), Some("0.9".to_string())),
            ("en".to_string(), Some("0.8".to_string())),
            ("de".to_string(), Some("0.7".to_string())),
        ]
    );
    assert_eq!(accepted_languages("invalid-lang-tag, en"), vec![("en".to_string(), None)]);
    assert_eq!(accepted_languages(""), Vec::<(String, Option<String>)>::new());
}

#[test]
fn accept_language_writes_tags_in_canonical_form() {
    assert_eq!(accepted_languages("EN-us"), vec![("en-US".to_string(), None)]);
}

#[test]
fn long_number_selectors_are_found() {
    assert!(!selectors_checked("m = { 1.00000000000000000000 -> [one] a *[other] b }\n"));
    assert!(!selectors_checked("m = { 123456789012345678901\n    -> [one] a *[other] b }\n"));
    assert!(selectors_checked("m = { 1.5 -> [one] a *[other] b }\n"));
    assert!(selectors_checked("m = Account 123456789012345678901234 -> closed\n") == false);
    assert!(selectors_checked("m = Account 123456789012345678901234, closed\n"));
}
