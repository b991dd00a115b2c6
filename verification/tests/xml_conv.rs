use divvun_runtime::xml_conv::{
    add_examples_and_refs, convert_variables, convert_variables_to_input,
    decode_unicode_identifier, encode_unicode_identifier, Example, Reference,
};

#[test]
fn test_convert_variables() {
    assert_eq!(convert_variables_to_input("$1"), "${input}");
    assert_eq!(convert_variables_to_input("$2"), "${arg2}");
    assert_eq!(
        convert_variables_to_input("The word $1 follows $2"),
        "The word ${input} follows ${arg2}"
    );
    assert_eq!(convert_variables_to_input("{$1}"), "{$input}");
}

#[test]
fn test_encode_ascii() {
    assert_eq!(encode_unicode_identifier("hello-world"), "hello-world");
    assert_eq!(encode_unicode_identifier("Hello World"), "hello-world");
    assert_eq!(encode_unicode_identifier("test123"), "test123");
}

#[test]
fn test_encode_punctuation() {
    assert_eq!(encode_unicode_identifier("hello.world"), "hello_world");
    assert_eq!(encode_unicode_identifier("test@example"), "test_example");
}

#[test]
fn test_encode_unicode() {
    assert_eq!(encode_unicode_identifier("café"), "caf_u00E9");
    assert_eq!(encode_unicode_identifier("föö"), "f_u00F6_u00F6");
    assert_eq!(
        encode_unicode_identifier("Test föö bår"),
        "test-f_u00F6_u00F6-b_u00E5r"
    );
}

#[test]
fn test_encode_emoji() {
    assert_eq!(encode_unicode_identifier("test🎉"), "test_U01F389");
}

#[test]
fn test_decode_ascii() {
    assert_eq!(decode_unicode_identifier("hello-world"), "hello-world");
    assert_eq!(decode_unicode_identifier("test_example"), "test_example");
}

#[test]
fn test_decode_unicode() {
    assert_eq!(decode_unicode_identifier("caf_u00E9"), "café");
    assert_eq!(decode_unicode_identifier("f_u00F6_u00F6"), "föö");
    assert_eq!(
        decode_unicode_identifier("test-f_u00F6_u00F6-b_u00E5r"),
        "test-föö-bår"
    );
}

#[test]
fn test_decode_emoji() {
    assert_eq!(decode_unicode_identifier("test_U01F389"), "test🎉");
}

#[test]
fn test_roundtrip() {
    let test_cases = vec![
        "hello world",
        "café",
        "föö bår",
        "test🎉emoji",
        "Real-word error",
        "Rættstavingsfeilur",
    ];

    for test in test_cases {
        let encoded = encode_unicode_identifier(test);
        let decoded = decode_unicode_identifier(&encoded);
        let re_encoded = encode_unicode_identifier(&decoded);
        assert_eq!(encoded, re_encoded, "Roundtrip failed for: {}", test);
    }
}

#[test]
fn decode_keeps_what_is_no_escape() {
    assert_eq!(decode_unicode_identifier("_u12"), "_u12");
    assert_eq!(decode_unicode_identifier("_uD800x"), "_uD800x");
    assert_eq!(decode_unicode_identifier("_uzzzz"), "_uzzzz");
    assert_eq!(decode_unicode_identifier("_u+0E9"), "é");
    assert_eq!(decode_unicode_identifier("a_"), "a_");
}

#[test]
fn encode_controls_as_escapes() {
    assert_eq!(encode_unicode_identifier("a\tb"), "a_u0009b");
    assert_eq!(decode_unicode_identifier("a_u0009b"), "a\tb");
}

#[test]
fn punctuation_before_u_does_not_round_trip() {
    let encoded = encode_unicode_identifier(".u00e9");
    assert_eq!(encoded, "_u00e9");
    assert_eq!(decode_unicode_identifier(&encoded), "é");
    assert_ne!(encode_unicode_identifier(&decode_unicode_identifier(&encoded)), encoded);
}

#[test]
fn fluent_variables() {
    assert_eq!(convert_variables("The word \"$1\" means $2"), "The word {$1} means {$2}");
    assert_eq!(convert_variables("{$1} and $1"), "{$1} and $1");
    assert_eq!(convert_variables("no variables"), "no variables");
}

#[test]
fn examples_and_references_as_attributes() {
    let mut out = String::new();
    let examples = Some(vec![
        Example { lang: "se".to_string(), text: "Dat lea buorre".to_string() },
        Example { lang: "en".to_string(), text: "That is good".to_string() },
        Example { lang: "se".to_string(), text: "Mun boađán".to_string() },
    ]);
    let refs = vec![Reference { n: "1".to_string() }, Reference { n: "x".to_string() }];
    add_examples_and_refs(&mut out, &examples, Some(&refs), "se");
    assert_eq!(
        out,
        "    .example-1 = Dat lea buorre\n    .example-3 = Mun boađán\n    .ref-1 = 1\n    .ref-2 = x\n"
    );
    let mut none = String::new();
    add_examples_and_refs(&mut none, &None, None, "se");
    assert_eq!(none, "");
}

#[test]
fn converting_variables_twice_changes_nothing_more() {
    for s in ["$1 and $2", "{$1} {$3} $9", "price: $10", "${input} stays", "$$1"] {
        let once = convert_variables_to_input(s);
        assert_eq!(convert_variables_to_input(&once), once);
        assert!(!once.contains("$1") && !once.contains("$2") && !once.contains("$9"), "{once}");
    }
}
