use divvun_runtime::cgspell::{decapitalise, render_stream, spell_targets, SpellAnalysis, TagSymbols};

fn tags() -> TagSymbols {
    TagSymbols::new(&[
        "@_EPSILON_SYMBOL_@",
        " N",
        " V",
        " IV",
        " Sg",
        " Nom",
        " Acc",
        " Sem/Hum",
        " Sem/Lang",
        " NomAg",
        "+N",
        "+Sg",
        "+Nom",
        "a",
        "b",
        " ",
    ])
}

/// Spells a stream with `spell` applied to each word form it asks for.
fn render_with(input: &str, spell: impl Fn(&str) -> String) -> String {
    let spelled: Vec<String> = spell_targets(input).iter().map(|w| spell(w)).collect();
    render_stream(input, &spelled).unwrap()
}

fn split(t: &TagSymbols, a: &str) -> (String, Vec<String>) {
    t.split_lemma(a)
}

fn owned(v: &[&str]) -> Vec<String> {
    v.iter().map(|s| s.to_string()).collect()
}

#[test]
fn cohorts_are_not_followed_by_a_blank_line() {
    let input = "\"<Mån>\"\n\
\t\"mån\" Pron Sg1 Nom\n\
: \n\
\"<nuvviDspeller>\"\n\
\t\"nuvviDspeller\" ?\n\
:\\n\n";

    assert_eq!(
        render_with(input, |wf| format!("\t\"{wf}\" N <spelled>\n")),
        "\"<Mån>\"\n\
\t\"mån\" Pron Sg1 Nom\n\
: \n\
\"<nuvviDspeller>\"\n\
\t\"nuvviDspeller\" N <spelled>\n\
:\\n\n"
    );
}

#[test]
fn unspellable_cohort_keeps_readings_without_a_blank_line() {
    let input = "\"<xyzzy>\"\n\t\"xyzzy\" ?\n:\\n\n";

    assert_eq!(
        render_with(input, |_| String::new()),
        "\"<xyzzy>\"\n\t\"xyzzy\" ?\n:\\n\n"
    );
}

#[test]
fn traced_removed_readings_keep_their_marker() {
    let input = "\"<Mån>\"\n\
\t\"mån\" Pron Sg1 Nom\n\
;\t\"mån\" Pron Sg1 Gen\n\
:\\n\n";

    assert_eq!(render_with(input, |_| String::new()), input);
}

#[test]
fn a_removed_unknown_reading_does_not_trigger_the_speller() {
    let input = "\"<Mån>\"\n\
;\t\"mån\" ?\n\
\t\"mån\" Pron Sg1 Nom\n\
:\\n\n";

    assert_eq!(
        render_with(input, |wf| format!("\t\"{wf}\" N <spelled>\n")),
        input
    );
}

#[test]
fn splits_lemma_from_tags() {
    assert_eq!(
        split(&tags(), "boahtti N NomAg Sem/Hum Sg Acc"),
        ("boahtti".to_string(), owned(&[" N", " NomAg", " Sem/Hum", " Sg", " Acc"]))
    );
}

#[test]
fn keeps_multiword_lemma_intact() {
    assert_eq!(
        split(&tags(), "Divvun speller for Northern Sami"),
        ("Divvun speller for Northern Sami".to_string(), owned(&[]))
    );
}

#[test]
fn splits_multiword_lemma_from_its_tags() {
    assert_eq!(
        split(&tags(), "Northern Sami N Sem/Lang Sg Nom"),
        ("Northern Sami".to_string(), owned(&[" N", " Sem/Lang", " Sg", " Nom"]))
    );
}

#[test]
fn handles_tags_without_a_leading_space() {
    assert_eq!(
        split(&tags(), "viessu+N+Sg+Nom"),
        ("viessu".to_string(), owned(&["+N", "+Sg", "+Nom"]))
    );
}

#[test]
fn treats_everything_as_lemma_without_a_symbol_table() {
    let tags = TagSymbols::new(&["a", "b"]);
    assert_eq!(
        split(&tags, "Built using HFST 3.17.1"),
        ("Built using HFST 3.17.1".to_string(), owned(&[]))
    );
}

#[test]
fn splits_on_multibyte_boundaries() {
    assert_eq!(
        split(&tags(), "sámegiella N Sem/Lang Sg Nom"),
        ("sámegiella".to_string(), owned(&[" N", " Sem/Lang", " Sg", " Nom"]))
    );
}

fn analysis(value: &str, weight: &str) -> SpellAnalysis {
    SpellAnalysis { value: value.to_string(), weight: weight.to_string() }
}

#[test]
fn prints_reading_with_multiword_lemma() {
    let form = "Divvun speller for Northern Sami";
    let analyses = vec![analysis(form, "1")];

    assert_eq!(
        tags().print_readings(&analyses, form, "1", &None),
        "\t\"Divvun speller for Northern Sami\" <W:1> <WA:1> <spelled> \
         \"Divvun speller for Northern Sami\"S\n"
    );
}

#[test]
fn prints_subreadings_deepest_first() {
    let analyses = vec![analysis("boazu N Sg Nom#doallu N Sg Nom", "3")];

    assert_eq!(
        tags().print_readings(&analyses, "boazodoallu", "2", &None),
        "\t\"doallu\" N Sg Nom <W:2> <WA:3> <spelled> \"boazodoallu\"S\n\
         \t\t\"boazu\" N Sg Nom\n"
    );
}

#[test]
fn lexicon_weight_is_shown_where_given() {
    let analyses = vec![analysis("viessu+N+Sg+Nom", "7")];
    assert_eq!(
        tags().print_readings(&analyses, "viessu", "2", &Some("0.5".to_string())),
        "\t\"viessu\"+N+Sg+Nom <W:2> <WA:0.5> <spelled> \"viessu\"S\n"
    );
}

#[test]
fn spell_targets_are_the_unknown_word_forms() {
    let input = "\"<Mån>\"\n\
\t\"mån\" Pron Sg1 Nom\n\
\"<xyzzy>\"\n\
\t\"xyzzy\" +?\n\
\"<plugh>\"\n\
;\t\"plugh\" ?\n\
\t\"plugh\" N\n";
    assert_eq!(spell_targets(input), vec!["xyzzy".to_string()]);
}

#[test]
fn decapitalise_cases() {
    assert_eq!(decapitalise("Juohkehaš"), Some("juohkehaš".to_string()));
    assert_eq!(decapitalise("NATO"), Some("nato".to_string()));
    assert_eq!(decapitalise("juohkehaš"), None);
    assert_eq!(decapitalise(""), None);
    assert_eq!(decapitalise("A"), Some("a".to_string()));
}
