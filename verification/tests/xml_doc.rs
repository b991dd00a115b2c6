use divvun_runtime::xml_conv::Id;
use divvun_runtime::xml_fluent::{document_languages, fluent_files, to_fluent};
use divvun_runtime::xml_kdl::to_kdl;
use divvun_runtime::xml_parse::parse_xml_to_errors;

const XML: &str = r#"<errors>
  <defaults>
    <default>
      <ids><re v="msyn-.*"/><e id="typo"/></ids>
      <header>
        <title xml:lang="en">Spelling error</title>
        <title xml:lang="se">Čállinmeattáhus</title>
      </header>
      <body>
        <description xml:lang="en">The word "$1" is misspelled</description>
        <examples><ex lang="en">teh</ex></examples>
      </body>
    </default>
  </defaults>
  <error id="real word">
    <header><title xml:lang="en">Real word</title><references><ref n="1"/></references></header>
    <body><description xml:lang="en">Use $2</description></body>
  </error>
</errors>"#;

#[test]
fn messages_are_read_from_the_xml() {
    let doc = parse_xml_to_errors(XML).unwrap();
    assert_eq!(doc.defaults.len(), 1);
    let d = &doc.defaults[0];
    assert_eq!(d.id, "err-spelling-error");
    assert_eq!(d.original_title, "Spelling error");
    assert!(matches!(&d.ids[0], Id::Regex { pattern } if pattern == "msyn-.*"));
    assert!(matches!(&d.ids[1], Id::Explicit { value } if value == "typo"));
    assert_eq!(doc.errors.len(), 1);
    let e = &doc.errors[0];
    assert_eq!(e.id, "err-real-word");
    assert_eq!(e.original_id, "real word");
    assert_eq!(e.header.references.as_ref().unwrap()[0].n, "1");
}

#[test]
fn the_fluent_resource_has_an_entry_per_id_and_per_error() {
    let doc = parse_xml_to_errors(XML).unwrap();
    assert_eq!(
        to_fluent(&doc, "en"),
        "# Error messages for language: en\n\
         # Generated from XML by xml-conv\n\n\
         ## Default patterns: msyn-.*, typo\n\
         msyn- = Spelling error\n    .desc = The word {$1} is misspelled\n    .example-1 = teh\n\n\
         typo = Spelling error\n    .desc = The word {$1} is misspelled\n\n\
         err-real-word = Real word\n    .desc = Use {$2}\n    .ref-1 = 1\n\n"
    );
}

#[test]
fn a_missing_translation_is_marked() {
    let doc = parse_xml_to_errors(XML).unwrap();
    let se = to_fluent(&doc, "se");
    assert!(se.contains("typo = Čállinmeattáhus\n    .desc = [Missing description for se]\n"));
    assert!(se.contains("err-real-word = [Missing title for se]\n"));
}

#[test]
fn there_is_a_fluent_file_per_language() {
    let doc = parse_xml_to_errors(XML).unwrap();
    assert_eq!(document_languages(&doc), vec!["en".to_string(), "se".to_string()]);
    let files = fluent_files(&doc);
    assert_eq!(files[0].0, "errors-en.ftl");
    assert_eq!(files[1].0, "errors-se.ftl");
    assert_eq!(files[1].1, to_fluent(&doc, "se"));
}

#[test]
fn kdl_lists_the_matchers_of_defaults_and_leaves_out_implicit_ones() {
    let doc = parse_xml_to_errors(XML).unwrap();
    assert_eq!(
        to_kdl(&doc),
        "error \"err-spelling-error\" {\n    match {\n        re \"msyn-.*\"\n        id \"typo\"\n    }\n}\n\
         error \"err-real-word\"\n"
    );
}

#[test]
fn an_error_whose_id_differs_from_its_tag_gets_a_match_block() {
    let xml = r#"<errors><error id="Dàsa"><header><title>T</title></header><body/></error></errors>"#;
    let doc = parse_xml_to_errors(xml).unwrap();
    assert_eq!(doc.errors[0].id, "err-d_u00E0sa");
    assert_eq!(
        to_kdl(&doc),
        "error \"err-d_u00E0sa\" {\n    match {\n        id \"Dàsa\"\n    }\n}\n"
    );
}

#[test]
fn malformed_documents_are_refused_with_a_message() {
    assert_eq!(
        parse_xml_to_errors("<messages/>").unwrap_err(),
        "Expected root element 'errors', found 'messages'"
    );
    assert_eq!(
        parse_xml_to_errors("<errors><error><header/><body/></error></errors>").unwrap_err(),
        "Error missing id attribute"
    );
    assert_eq!(
        parse_xml_to_errors("<errors><defaults><default><body/></default></defaults></errors>").unwrap_err(),
        "Missing header in default"
    );
    assert_eq!(
        parse_xml_to_errors("<errors><error id=\"x\"><header/></error></errors>").unwrap_err(),
        "Missing body in error"
    );
    assert!(parse_xml_to_errors("").is_err());
}
