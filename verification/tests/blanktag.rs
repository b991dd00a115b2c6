use divvun_runtime::blanktag::{blanktag, lookup_requests};

const STREAM: &str = "\"<Hei>\"\n\t\"hei\" Interj\n: \n\"<!>\"\n\t\"!\" CLB\n";

#[test]
fn the_transducer_sees_each_cohort_between_its_blanks() {
    assert_eq!(
        lookup_requests(STREAM),
        vec![
            Some("__DIVVUN_BOS__\"<Hei>\" ".to_string()),
            Some(" \"<!>\"__DIVVUN_EOS__".to_string()),
        ]
    );
}

#[test]
fn readings_get_the_tags_of_their_cohort_and_blanks_pass_through() {
    let tags = vec![vec!["<spaceafter>".to_string()], vec!["<nospacebefore>".to_string(), "<x>".to_string()]];
    assert_eq!(
        blanktag(STREAM, &tags),
        "\"<Hei>\"\n\t\"hei\" Interj <spaceafter>\n: \n\"<!>\"\n\t\"!\" CLB <nospacebefore> <x>\n"
    );
}

#[test]
fn text_lines_are_marked_and_removed_readings_are_untouched() {
    let stream = "intro\n\"<a>\"\n\t\"a\" X\n;\t\"a\" Y\n";
    assert_eq!(
        lookup_requests(stream),
        vec![Some("__DIVVUN_BOS__intro\"<a>\"__DIVVUN_EOS__".to_string())]
    );
    assert_eq!(
        blanktag(stream, &vec![vec!["<t>".to_string()]]),
        ";intro\n\"<a>\"\n\t\"a\" X <t>\n;\t\"a\" Y\n"
    );
}

#[test]
fn an_empty_stream_gives_nothing() {
    assert_eq!(blanktag("", &vec![]), "");
    assert_eq!(lookup_requests(""), vec![None]);
}
