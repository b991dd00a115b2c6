use divvun_runtime::fluent::{
    attribute_without_equals, diagnose, extract_language_code, find_first_available_locale,
    invalid_placeable, line_col, render_parse_errors, report_parse_errors, tab_indent,
    FluentParseError,
};

#[test]
fn fluent_loader_test_extract_language_code() {
    assert_eq!(
        extract_language_code("errors-en.ftl"),
        Some("en".to_string())
    );
    assert_eq!(
        extract_language_code("errors-se.ftl"),
        Some("se".to_string())
    );
    assert_eq!(extract_language_code("errors.ftl"), None);
    assert_eq!(
        extract_language_code("errors-en-US.ftl"),
        Some("US".to_string())
    );
}

#[test]
fn util_test_extract_language_code() {
    assert_eq!(
        extract_language_code("errors-en.ftl"),
        Some("en".to_string())
    );
    assert_eq!(
        extract_language_code("errors-se.ftl"),
        Some("se".to_string())
    );
    assert_eq!(extract_language_code("errors.ftl"), None);
    assert_eq!(
        extract_language_code("errors-en-US.ftl"),
        Some("US".to_string())
    );
}

/// Parse `src`, expect it to fail, and render the report the loader logs.
fn report(src: &str) -> String {
    report_parse_errors("errors-se.ftl", src).expect("should not parse")
}

#[test]
fn points_at_an_invalid_placeable() {
    let report = report("unreal-girjji = Title\n    .desc = Oaivvildat go \"{€1}\"?\n");

    assert!(
        report.contains("errors-se.ftl:2:28: `{€1}` is not a valid placeable"),
        "{report}"
    );
    assert!(
        report.contains(
            "\n  2 |     .desc = Oaivvildat go \"{€1}\"?\
             \n    |                            ^^^^"
        ),
        "caret should sit under `{{€1}}`:\n{report}"
    );
    assert!(report.contains("mistyped `$`"), "{report}");
}

#[test]
fn points_at_an_attribute_missing_its_equals() {
    let report = report("msg = Title\n    .example-1 Dohkko sáhttále buot\n");

    assert!(
        report.contains("errors-se.ftl:2:5: attribute `.example-1` is missing its `=`"),
        "{report}"
    );
    assert!(
        report.contains("help: write `.example-1 = ...`"),
        "{report}"
    );
}

#[test]
fn points_at_tab_indentation() {
    let report = report("msg = Title\n\t.example-3 = Loga eanet\n");

    assert!(
        report.contains("errors-se.ftl:2:1: line is indented with a tab"),
        "{report}"
    );
    assert!(report.contains("only accepts spaces"), "{report}");
}

#[test]
fn falls_back_to_the_parser_message() {
    let report = report("= Value\n");

    assert!(report.contains("errors-se.ftl:1:1: "), "{report}");
    assert!(
        report.contains("1 message(s) could not be parsed"),
        "{report}"
    );
}

#[test]
fn accepts_select_expressions_and_string_literals() {
    for src in [
        "msg = Title\n    .desc = { $count ->\n        [one] one\n       *[other] many\n    }\n",
        "msg = Title\n    .desc = A brace: {\"{\"}.\n",
        "msg = Title\n    .desc = The word {$input} means something else.\n",
    ] {
        assert!(
            report_parse_errors("errors-se.ftl", src).is_none(),
            "should parse: {src:?}"
        );
    }
}

#[test]
fn test_line_col() {
    let src = "key1 = a\nkey2 = b\nbad@ = c\n";
    assert_eq!(line_col(src, 0), (1, 1));
    assert_eq!(line_col(src, 9), (2, 1));
    assert_eq!(line_col(src, 21), (3, 4));
    let utf8 = "á = x\nkéy = y";
    assert_eq!(line_col(utf8, utf8.find("y =").unwrap()), (2, 3));
}

#[test]
fn test_find_first_available_locale() {
    let available = vec!["en".to_string(), "se".to_string(), "no".to_string()];

    let preferred = vec!["fr".to_string(), "se".to_string(), "en".to_string()];
    assert_eq!(
        find_first_available_locale(&available, &preferred),
        Some("se".to_string())
    );

    let preferred = vec!["en".to_string(), "se".to_string()];
    assert_eq!(
        find_first_available_locale(&available, &preferred),
        Some("en".to_string())
    );

    let preferred = vec!["fr".to_string(), "de".to_string()];
    assert_eq!(find_first_available_locale(&available, &preferred), None);

    let preferred: Vec<String> = vec![];
    assert_eq!(find_first_available_locale(&available, &preferred), None);
}

#[test]
fn diagnoses_on_given_slices() {
    let t = tab_indent(10, "x\n\t\t.a = b").unwrap();
    assert_eq!((t.start, t.end), (12, 14));
    assert!(tab_indent(0, "no tabs").is_none());

    let a = attribute_without_equals(3, "m = T\n  .déjà vu\n").unwrap();
    assert_eq!((a.start, a.end), (11, 18));
    assert_eq!(a.message, "attribute `.déjà` is missing its `=`");
    assert!(attribute_without_equals(0, "m = T\n  .desc = x\n").is_none());

    let p = invalid_placeable(5, "a {€1} b").unwrap();
    assert_eq!((p.start, p.end), (7, 13));
    assert_eq!(p.message, "`{€1}` is not a valid placeable");
    assert!(invalid_placeable(0, "a {$1} {-t} {\"x\"} b").is_none());
    let open = invalid_placeable(0, "a { ").unwrap();
    assert_eq!((open.start, open.end), (2, 4));
}

#[test]
fn diagnosis_falls_back_outside_the_source() {
    let e = FluentParseError { pos: (3, 4), slice: Some((2, 400)), message: "oops".to_string() };
    let d = diagnose("short", &e);
    assert_eq!((d.start, d.end), (3, 4));
    assert_eq!(d.message, "oops");
    assert!(d.help.is_none());
    let r = render_parse_errors("f.ftl", "short", &vec![e]);
    assert_eq!(
        r,
        "f.ftl: 1 message(s) could not be parsed and were skipped; the rest of the file loaded.\n  f.ftl:1:4: oops\n  1 | short\n    |    ^"
    );
}
