//! Error messages written as Fluent resources, one per language: an entry
//! per message, with its description, examples and references as
//! attributes.
use vstd::prelude::*;
use crate::num::{dec_digits, push_dec};
use crate::suggest::contains_string;
use crate::text::{push_str, replace_all, replaced, strings_view};
use crate::xml_conv::{
    add_examples_and_refs, convert_variables, examples_and_refs, fluent_variables, get_pair, lookup_pair,
    pairs_view, Error, ErrorDocument, Id,
};

verus! {

broadcast use vstd::string::group_string_axioms;

/// `parts` joined with `sep` between neighbours.
pub open spec fn join_with(parts: Seq<Seq<char>>, sep: Seq<char>) -> Seq<char>
    decreases parts.len(),
{
    if parts.len() == 0 {
        Seq::empty()
    } else if parts.len() == 1 {
        parts[0]
    } else {
        join_with(parts.drop_last(), sep) + sep + parts.last()
    }
}

/// The pattern or the error tag of an id.
pub open spec fn id_text(id: Id) -> Seq<char> {
    match id {
        Id::Regex { pattern } => pattern@,
        Id::Explicit { value } => value@,
    }
}

/// The message id of an id: a pattern without its `.*` and `*`, or the
/// error tag.
pub open spec fn message_id(id: Id) -> Seq<char> {
    match id {
        Id::Regex { pattern } => replaced(replaced(pattern@, ".*"@, Seq::empty()), "*"@, Seq::empty()),
        Id::Explicit { value } => value@,
    }
}

/// The text, or `[Missing <what> for <lang>]`.
pub open spec fn or_missing(v: Option<Seq<char>>, what: Seq<char>, lang: Seq<char>) -> Seq<char> {
    match v {
        Some(t) => t,
        None => "[Missing "@ + what + " for "@ + lang + "]"@,
    }
}

/// `id = title` and its description attribute.
pub open spec fn entry(mid: Seq<char>, title: Seq<char>, desc: Seq<char>) -> Seq<char> {
    mid + " = "@ + title + seq!['\n'] + "    .desc = "@ + fluent_variables(desc) + seq!['\n']
}

/// The entries of the first `k` of `n` ids: the first with the `extras`, all
/// but the last followed by a blank line.
pub open spec fn default_entries(ids: Seq<Id>, k: nat, title: Seq<char>, desc: Seq<char>, extras: Seq<char>) -> Seq<
    char,
>
    decreases k,
{
    if k == 0 {
        Seq::empty()
    } else {
        let i = (k - 1) as nat;
        default_entries(ids, i, title, desc, extras) + entry(message_id(ids[i as int]), title, desc) + (if i == 0 {
            extras
        } else {
            Seq::empty()
        }) + (if i + 1 < ids.len() {
            seq!['\n']
        } else {
            Seq::empty()
        })
    }
}

pub open spec fn title_of(titles: Vec<(String, String)>, lang: Seq<char>) -> Seq<char> {
    or_missing(lookup_pair(pairs_view(titles@), lang), "title"@, lang)
}

pub open spec fn desc_of(descriptions: Vec<(String, String)>, lang: Seq<char>) -> Seq<char> {
    or_missing(lookup_pair(pairs_view(descriptions@), lang), "description"@, lang)
}

/// A default message in `lang`: a comment with its patterns, then an entry
/// per id (or one `default-<index>` entry when it has none).
pub open spec fn default_text(d: crate::xml_conv::Default, lang: Seq<char>, index: nat) -> Seq<char> {
    let title = title_of(d.header.titles, lang);
    let desc = desc_of(d.body.descriptions, lang);
    let extras = examples_and_refs(d.body.examples, None, lang);
    "## Default patterns: "@ + join_with(d.ids@.map_values(|id: Id| id_text(id)), ", "@) + seq!['\n'] + if d.ids@.len()
        == 0 {
        entry("default-"@ + dec_digits(index), title, desc) + extras
    } else {
        default_entries(d.ids@, d.ids@.len(), title, desc, extras)
    }
}

/// An error message in `lang`.
pub open spec fn error_text(e: Error, lang: Seq<char>) -> Seq<char> {
    entry(e.id@, title_of(e.header.titles, lang), desc_of(e.body.descriptions, lang)) + examples_and_refs(
        e.body.examples,
        e.header.references,
        lang,
    )
}

/// The first `k` defaults, each followed by a newline.
pub open spec fn defaults_text(ds: Seq<crate::xml_conv::Default>, lang: Seq<char>, k: nat) -> Seq<char>
    decreases k,
{
    if k == 0 {
        Seq::empty()
    } else {
        defaults_text(ds, lang, (k - 1) as nat) + default_text(ds[k - 1], lang, (k - 1) as nat) + seq!['\n']
    }
}

/// The first `k` errors, each followed by a newline.
pub open spec fn errors_text(es: Seq<Error>, lang: Seq<char>, k: nat) -> Seq<char>
    decreases k,
{
    if k == 0 {
        Seq::empty()
    } else {
        errors_text(es, lang, (k - 1) as nat) + error_text(es[k - 1], lang) + seq!['\n']
    }
}

/// The Fluent resource of language `lang`.
pub open spec fn fluent_text(doc: ErrorDocument, lang: Seq<char>) -> Seq<char> {
    "# Error messages for language: "@ + lang + seq!['\n'] + "# Generated from XML by xml-conv\n\n"@ + defaults_text(
        doc.defaults@,
        lang,
        doc.defaults@.len(),
    ) + errors_text(doc.errors@, lang, doc.errors@.len())
}

fn title_or_missing(m: &Vec<(String, String)>, what: &str, lang: &str) -> (r: String)
    ensures
        r@ == or_missing(lookup_pair(pairs_view(m@), lang@), what@, lang@),
{
    match get_pair(m, lang) {
        Some(t) => t.clone(),
        None => {
            let mut s = String::new();
            push_str(&mut s, "[Missing ");
            push_str(&mut s, what);
            push_str(&mut s, " for ");
            push_str(&mut s, lang);
            push_str(&mut s, "]");
            s
        },
    }
}

fn push_entry(out: &mut String, mid: &str, title: &str, desc: &str)
    ensures
        final(out)@ == old(out)@ + entry(mid@, title@, desc@),
{
    push_str(out, mid);
    push_str(out, " = ");
    push_str(out, title);
    push_str(out, "\n");
    push_str(out, "    .desc = ");
    let d = convert_variables(desc);
    push_str(out, d.as_str());
    push_str(out, "\n");
    proof {
        reveal_strlit("\n");
    }
}

fn id_message(id: &Id) -> (r: String)
    ensures
        r@ == message_id(*id),
{
    match id {
        Id::Regex { pattern } => {
            proof {
                reveal_strlit(".*");
                reveal_strlit("*");
                reveal_strlit("");
            }
            assert(""@ =~= Seq::<char>::empty());
            let a = replace_all(pattern.as_str(), ".*", "");
            replace_all(a.as_str(), "*", "")
        },
        Id::Explicit { value } => value.clone(),
    }
}

/// A default message in `lang`, `index` being its place among the defaults.
pub fn format_default(default: &crate::xml_conv::Default, lang: &str, index: usize) -> (s: String)
    ensures
        s@ == default_text(*default, lang@, index as nat),
{
    let mut output = String::new();
    push_str(&mut output, "## Default patterns: ");
    let ghost parts = default.ids@.map_values(|id: Id| id_text(id));
    let mut i: usize = 0;
    let ghost o0 = output@;
    while i < default.ids.len()
        invariant
            i <= default.ids@.len(),
            parts == default.ids@.map_values(|id: Id| id_text(id)),
            output@ == o0 + join_with(parts.take(i as int), ", "@),
        decreases default.ids@.len() - i,
    {
        if i > 0 {
            push_str(&mut output, ", ");
        }
        match &default.ids[i] {
            Id::Regex { pattern } => push_str(&mut output, pattern.as_str()),
            Id::Explicit { value } => push_str(&mut output, value.as_str()),
        }
        proof {
            assert(parts.take(i + 1).drop_last() =~= parts.take(i as int));
            if i == 0 {
                assert(parts.take(1) =~= seq![parts[0]]);
            }
        }
        i = i + 1;
    }
    assert(parts.take(i as int) =~= parts);
    push_str(&mut output, "\n");
    proof {
        reveal_strlit("\n");
        reveal_strlit("title");
        reveal_strlit("description");
    }
    let title = title_or_missing(&default.header.titles, "title", lang);
    let desc = title_or_missing(&default.body.descriptions, "description", lang);
    let ghost head = output@;
    let ghost extras = examples_and_refs(default.body.examples, None, lang@);
    if default.ids.len() == 0 {
        let mut mid = String::new();
        push_str(&mut mid, "default-");
        push_dec(&mut mid, index as u64);
        push_entry(&mut output, mid.as_str(), title.as_str(), desc.as_str());
        add_examples_and_refs(&mut output, &default.body.examples, None, lang);
    } else {
        let n = default.ids.len();
        let mut k: usize = 0;
        while k < n
            invariant
                k <= n == default.ids@.len(),
                title@ == title_of(default.header.titles, lang@),
                desc@ == desc_of(default.body.descriptions, lang@),
                extras == examples_and_refs(default.body.examples, None, lang@),
                output@ == head + default_entries(default.ids@, k as nat, title@, desc@, extras),
            decreases n - k,
        {
            let mid = id_message(&default.ids[k]);
            push_entry(&mut output, mid.as_str(), title.as_str(), desc.as_str());
            if k == 0 {
                add_examples_and_refs(&mut output, &default.body.examples, None, lang);
            }
            if k + 1 < n {
                push_str(&mut output, "\n");
            }
            proof {
                reveal_strlit("\n");
            }
            assert(output@ =~= head + default_entries(default.ids@, (k + 1) as nat, title@, desc@, extras));
            k = k + 1;
        }
    }
    output
}

/// An error message in `lang`.
pub fn format_error(error: &Error, lang: &str) -> (s: String)
    ensures
        s@ == error_text(*error, lang@),
{
    proof {
        reveal_strlit("title");
        reveal_strlit("description");
    }
    let title = title_or_missing(&error.header.titles, "title", lang);
    let desc = title_or_missing(&error.body.descriptions, "description", lang);
    let mut output = String::new();
    push_entry(&mut output, error.id.as_str(), title.as_str(), desc.as_str());
    add_examples_and_refs(&mut output, &error.body.examples, error.header.references.as_ref(), lang);
    output
}

/// The Fluent resource of language `lang`: a header comment, then each
/// default and each error message, each followed by a blank line.
pub fn to_fluent(doc: &ErrorDocument, lang: &str) -> (s: String)
    ensures
        s@ == fluent_text(*doc, lang@),
{
    let mut output = String::new();
    push_str(&mut output, "# Error messages for language: ");
    push_str(&mut output, lang);
    push_str(&mut output, "\n");
    push_str(&mut output, "# Generated from XML by xml-conv\n\n");
    proof {
        reveal_strlit("\n");
    }
    let ghost head = output@;
    let mut i: usize = 0;
    while i < doc.defaults.len()
        invariant
            i <= doc.defaults@.len(),
            output@ == head + defaults_text(doc.defaults@, lang@, i as nat),
        decreases doc.defaults@.len() - i,
    {
        let t = format_default(&doc.defaults[i], lang, i);
        push_str(&mut output, t.as_str());
        push_str(&mut output, "\n");
        proof {
            reveal_strlit("\n");
        }
        assert(output@ =~= head + defaults_text(doc.defaults@, lang@, (i + 1) as nat));
        i = i + 1;
    }
    let ghost mid = output@;
    let mut j: usize = 0;
    while j < doc.errors.len()
        invariant
            j <= doc.errors@.len(),
            output@ == mid + errors_text(doc.errors@, lang@, j as nat),
        decreases doc.errors@.len() - j,
    {
        let t = format_error(&doc.errors[j], lang);
        push_str(&mut output, t.as_str());
        push_str(&mut output, "\n");
        proof {
            reveal_strlit("\n");
        }
        assert(output@ =~= mid + errors_text(doc.errors@, lang@, (j + 1) as nat));
        j = j + 1;
    }
    output
}

/// The languages of a header's titles and a body's descriptions.
pub open spec fn message_langs(titles: Vec<(String, String)>, descriptions: Vec<(String, String)>) -> Seq<
    Seq<char>,
> {
    pairs_view(titles@).map_values(|p: (Seq<char>, Seq<char>)| p.0) + pairs_view(descriptions@).map_values(
        |p: (Seq<char>, Seq<char>)| p.0,
    )
}

/// The languages of the first `k` defaults.
pub open spec fn default_langs(ds: Seq<crate::xml_conv::Default>, k: nat) -> Seq<Seq<char>>
    decreases k,
{
    if k == 0 {
        Seq::empty()
    } else {
        default_langs(ds, (k - 1) as nat) + message_langs(ds[k - 1].header.titles, ds[k - 1].body.descriptions)
    }
}

/// The languages of the first `k` errors.
pub open spec fn error_langs(es: Seq<Error>, k: nat) -> Seq<Seq<char>>
    decreases k,
{
    if k == 0 {
        Seq::empty()
    } else {
        error_langs(es, (k - 1) as nat) + message_langs(es[k - 1].header.titles, es[k - 1].body.descriptions)
    }
}

/// `s` with each value after its first occurrence left out.
pub open spec fn first_occurrences(s: Seq<Seq<char>>) -> Seq<Seq<char>>
    decreases s.len(),
{
    if s.len() == 0 {
        Seq::empty()
    } else {
        let d = first_occurrences(s.drop_last());
        if d.contains(s.last()) {
            d
        } else {
            d.push(s.last())
        }
    }
}

/// Every language that a title or a description of the document is in, once,
/// in the order they first come.
pub open spec fn document_langs(doc: ErrorDocument) -> Seq<Seq<char>> {
    first_occurrences(default_langs(doc.defaults@, doc.defaults@.len()) + error_langs(doc.errors@, doc.errors@.len()))
}

/// Adds the keys of `m` that `seen` lacks.
fn add_new_keys(seen: &mut Vec<String>, m: &Vec<(String, String)>)
    ensures
        strings_view(final(seen)@) == first_occurrences_from(
            strings_view(old(seen)@),
            pairs_view(m@).map_values(|p: (Seq<char>, Seq<char>)| p.0),
        ),
{
    let ghost ks = pairs_view(m@).map_values(|p: (Seq<char>, Seq<char>)| p.0);
    let ghost s0 = strings_view(seen@);
    let mut i: usize = 0;
    while i < m.len()
        invariant
            i <= m@.len(),
            ks == pairs_view(m@).map_values(|p: (Seq<char>, Seq<char>)| p.0),
            strings_view(seen@) == first_occurrences_from(s0, ks.take(i as int)),
        decreases m@.len() - i,
    {
        assert(ks.take(i + 1).drop_last() =~= ks.take(i as int));
        assert(ks.take(i + 1).last() == m@[i as int].0@);
        if !contains_string(seen, m[i].0.as_str()) {
            let ghost v0 = strings_view(seen@);
            seen.push(m[i].0.clone());
            assert(strings_view(seen@) =~= v0.push(m@[i as int].0@));
        }
        i = i + 1;
    }
    assert(ks.take(i as int) =~= ks);
}

/// `seen` followed by the values of `s` that are neither in it nor earlier
/// in `s`.
pub open spec fn first_occurrences_from(seen: Seq<Seq<char>>, s: Seq<Seq<char>>) -> Seq<Seq<char>>
    decreases s.len(),
{
    if s.len() == 0 {
        seen
    } else {
        let d = first_occurrences_from(seen, s.drop_last());
        if d.contains(s.last()) {
            d
        } else {
            d.push(s.last())
        }
    }
}

proof fn lemma_first_occurrences_concat(seen: Seq<Seq<char>>, a: Seq<Seq<char>>, b: Seq<Seq<char>>)
    ensures
        first_occurrences_from(first_occurrences_from(seen, a), b) == first_occurrences_from(seen, a + b),
    decreases b.len(),
{
    if b.len() == 0 {
        assert(a + b =~= a);
    } else {
        lemma_first_occurrences_concat(seen, a, b.drop_last());
        assert((a + b).drop_last() =~= a + b.drop_last());
        assert((a + b).last() == b.last());
    }
}

proof fn lemma_first_occurrences_empty(s: Seq<Seq<char>>)
    ensures
        first_occurrences_from(Seq::empty(), s) == first_occurrences(s),
    decreases s.len(),
{
    if s.len() > 0 {
        lemma_first_occurrences_empty(s.drop_last());
    }
}

/// Every language of the document, once, in the order they first come.
pub fn document_languages(doc: &ErrorDocument) -> (langs: Vec<String>)
    ensures
        strings_view(langs@) == document_langs(*doc),
{
    let mut seen: Vec<String> = Vec::new();
    let ghost e: Seq<Seq<char>> = Seq::empty();
    assert(strings_view(seen@) =~= e);
    let mut i: usize = 0;
    while i < doc.defaults.len()
        invariant
            i <= doc.defaults@.len(),
            strings_view(seen@) == first_occurrences_from(e, default_langs(doc.defaults@, i as nat)),
            e == Seq::<Seq<char>>::empty(),
        decreases doc.defaults@.len() - i,
    {
        let d = &doc.defaults[i];
        let ghost before = strings_view(seen@);
        let ghost tk = pairs_view(d.header.titles@).map_values(|p: (Seq<char>, Seq<char>)| p.0);
        let ghost dk = pairs_view(d.body.descriptions@).map_values(|p: (Seq<char>, Seq<char>)| p.0);
        add_new_keys(&mut seen, &d.header.titles);
        add_new_keys(&mut seen, &d.body.descriptions);
        proof {
            lemma_first_occurrences_concat(e, default_langs(doc.defaults@, i as nat), tk);
            lemma_first_occurrences_concat(e, default_langs(doc.defaults@, i as nat) + tk, dk);
            assert(default_langs(doc.defaults@, i as nat) + tk + dk =~= default_langs(doc.defaults@, (i + 1) as nat));
        }
        i = i + 1;
    }
    let mut j: usize = 0;
    let ghost dl = default_langs(doc.defaults@, doc.defaults@.len());
    while j < doc.errors.len()
        invariant
            j <= doc.errors@.len(),
            dl == default_langs(doc.defaults@, doc.defaults@.len()),
            strings_view(seen@) == first_occurrences_from(e, dl + error_langs(doc.errors@, j as nat)),
            e == Seq::<Seq<char>>::empty(),
        decreases doc.errors@.len() - j,
    {
        let er = &doc.errors[j];
        let ghost tk = pairs_view(er.header.titles@).map_values(|p: (Seq<char>, Seq<char>)| p.0);
        let ghost dk = pairs_view(er.body.descriptions@).map_values(|p: (Seq<char>, Seq<char>)| p.0);
        add_new_keys(&mut seen, &er.header.titles);
        add_new_keys(&mut seen, &er.body.descriptions);
        proof {
            lemma_first_occurrences_concat(e, dl + error_langs(doc.errors@, j as nat), tk);
            lemma_first_occurrences_concat(e, dl + error_langs(doc.errors@, j as nat) + tk, dk);
            assert(dl + error_langs(doc.errors@, j as nat) + tk + dk =~= dl + error_langs(doc.errors@, (j + 1) as nat));
        }
        j = j + 1;
    }
    proof {
        assert(error_langs(doc.errors@, 0) =~= Seq::<Seq<char>>::empty());
        lemma_first_occurrences_empty(dl + error_langs(doc.errors@, doc.errors@.len()));
    }
    seen
}

/// The Fluent files of the document: for each of its languages, in the
/// order they first come, the name `errors-<lang>.ftl` and the resource.
pub fn fluent_files(doc: &ErrorDocument) -> (files: Vec<(String, String)>)
    ensures
        files@.len() == document_langs(*doc).len(),
        forall|k: int|
            0 <= k < files@.len() ==> (#[trigger] files@[k]).0@ == "errors-"@ + document_langs(*doc)[k] + ".ftl"@
                && files@[k].1@ == fluent_text(*doc, document_langs(*doc)[k]),
{
    let langs = document_languages(doc);
    let mut files: Vec<(String, String)> = Vec::new();
    let mut k: usize = 0;
    while k < langs.len()
        invariant
            k <= langs@.len(),
            strings_view(langs@) == document_langs(*doc),
            files@.len() == k,
            forall|t: int|
                0 <= t < k ==> (#[trigger] files@[t]).0@ == "errors-"@ + document_langs(*doc)[t] + ".ftl"@
                    && files@[t].1@ == fluent_text(*doc, document_langs(*doc)[t]),
        decreases langs@.len() - k,
    {
        let lang = langs[k].as_str();
        assert(document_langs(*doc)[k as int] == lang@);
        let mut name = String::new();
        push_str(&mut name, "errors-");
        push_str(&mut name, lang);
        push_str(&mut name, ".ftl");
        let content = to_fluent(doc, lang);
        files.push((name, content));
        k = k + 1;
    }
    files
}

} // verus!
