//! Error messages written as KDL: an `error` node per message, with a
//! `match` block of the patterns and error tags it is for, left out when the
//! message's id is the one its error tag would get anyway.
use vstd::prelude::*;
use crate::text::{join_by, join_strings, push_str, replace_all, replaced, strings_view};
use crate::unicode::{lowercased, to_lowercase};
use crate::xml_conv::{Error, ErrorDocument, Id};

verus! {

broadcast use vstd::string::group_string_axioms;

/// What std's `Debug` writes for a string: the string in double quotes,
/// with quotes, backslashes and control and unprintable characters escaped.
pub uninterp spec fn debug_quoted(s: Seq<char>) -> Seq<char>;

/// std's `Debug` formatting of a `str` (`format!("{:?}", s)`); its result
/// is named `debug_quoted`, and nothing more is claimed of it.
#[verifier::external_body]
fn debug_str(s: &str) -> (r: String)
    ensures
        r@ == debug_quoted(s@),
{
    format!("{:?}", s)
}

/// The match line of an id: `re "<pattern>"` or `id "<tag>"`.
pub open spec fn id_line(id: Id) -> Seq<char> {
    match id {
        Id::Regex { pattern } => "        re "@ + debug_quoted(pattern@),
        Id::Explicit { value } => "        id "@ + debug_quoted(value@),
    }
}

/// The lines of a default message's node.
pub open spec fn default_lines(d: crate::xml_conv::Default) -> Seq<Seq<char>> {
    seq!["error "@ + debug_quoted(d.id@) + " {"@, "    match {"@] + d.ids@.map_values(|id: Id| id_line(id)) + seq![
        "    }"@,
        "}"@,
    ]
}

/// A default message's node.
pub open spec fn default_node(d: crate::xml_conv::Default) -> Seq<char> {
    join_by(default_lines(d), '\n')
}

/// The id an error tag gets by itself: `err-` and the tag lower-cased, with
/// `-` for spaces.
pub open spec fn simple_id(original_id: Seq<char>) -> Seq<char> {
    "err-"@ + replaced(lowercased(original_id), " "@, "-"@)
}

/// An error message's node: with a match block on its error tag unless its
/// id is the one the tag gets by itself.
pub open spec fn error_node(e: Error) -> Seq<char> {
    if e.id@ != simple_id(e.original_id@) {
        join_by(
            seq![
                "error "@ + debug_quoted(e.id@) + " {"@,
                "    match {"@,
                "        id "@ + debug_quoted(e.original_id@),
                "    }"@,
                "}"@,
            ],
            '\n',
        )
    } else {
        "error "@ + debug_quoted(e.id@)
    }
}

/// The first `k` defaults' nodes, each followed by a newline.
pub open spec fn defaults_kdl(ds: Seq<crate::xml_conv::Default>, k: nat) -> Seq<char>
    decreases k,
{
    if k == 0 {
        Seq::empty()
    } else {
        defaults_kdl(ds, (k - 1) as nat) + default_node(ds[k - 1]) + seq!['\n']
    }
}

/// The first `k` errors' nodes, each followed by a newline.
pub open spec fn errors_kdl(es: Seq<Error>, k: nat) -> Seq<char>
    decreases k,
{
    if k == 0 {
        Seq::empty()
    } else {
        errors_kdl(es, (k - 1) as nat) + error_node(es[k - 1]) + seq!['\n']
    }
}

fn line_of(head: &str, s: &str, tail: &str) -> (r: String)
    ensures
        r@ == head@ + debug_quoted(s@) + tail@,
{
    let mut r = String::new();
    push_str(&mut r, head);
    let q = debug_str(s);
    push_str(&mut r, q.as_str());
    push_str(&mut r, tail);
    r
}

/// A default message's node.
pub fn format_default(default: &crate::xml_conv::Default) -> (s: String)
    ensures
        s@ == default_node(*default),
{
    let mut lines: Vec<String> = Vec::new();
    lines.push(line_of("error ", default.id.as_str(), " {"));
    lines.push("    match {".to_string());
    proof {
        reveal_strlit("");
    }
    let ghost head = strings_view(lines@);
    let ghost ids = default.ids@.map_values(|id: Id| id_line(id));
    let mut i: usize = 0;
    while i < default.ids.len()
        invariant
            i <= default.ids@.len(),
            ids == default.ids@.map_values(|id: Id| id_line(id)),
            strings_view(lines@) == head + ids.take(i as int),
        decreases default.ids@.len() - i,
    {
        let l = match &default.ids[i] {
            Id::Regex { pattern } => line_of("        re ", pattern.as_str(), ""),
            Id::Explicit { value } => line_of("        id ", value.as_str(), ""),
        };
        proof {
            reveal_strlit("");
            assert(""@ =~= Seq::<char>::empty());
        }
        let ghost v0 = strings_view(lines@);
        lines.push(l);
        assert(strings_view(lines@) =~= v0.push(ids[i as int]));
        assert(ids.take(i + 1) =~= ids.take(i as int).push(ids[i as int]));
        i = i + 1;
    }
    assert(ids.take(i as int) =~= ids);
    let ghost v1 = strings_view(lines@);
    lines.push("    }".to_string());
    lines.push("}".to_string());
    assert(strings_view(lines@) =~= v1.push("    }"@).push("}"@));
    assert(strings_view(lines@) =~= default_lines(*default));
    join_strings(&lines, '\n')
}

/// An error message's node.
pub fn format_error(error: &Error) -> (s: String)
    ensures
        s@ == error_node(*error),
{
    let lower = to_lowercase(error.original_id.as_str());
    proof {
        reveal_strlit(" ");
        reveal_strlit("-");
    }
    let dashed = replace_all(lower.as_str(), " ", "-");
    let mut simple = String::new();
    push_str(&mut simple, "err-");
    push_str(&mut simple, dashed.as_str());
    assert(simple@ == simple_id(error.original_id@));
    if !crate::text::str_eq(error.id.as_str(), simple.as_str()) {
        let mut lines: Vec<String> = Vec::new();
        lines.push(line_of("error ", error.id.as_str(), " {"));
        lines.push("    match {".to_string());
        lines.push(line_of("        id ", error.original_id.as_str(), ""));
        lines.push("    }".to_string());
        lines.push("}".to_string());
        proof {
            reveal_strlit("");
            assert(""@ =~= Seq::<char>::empty());
        }
        assert(strings_view(lines@) =~= seq![
            "error "@ + debug_quoted(error.id@) + " {"@,
            "    match {"@,
            "        id "@ + debug_quoted(error.original_id@),
            "    }"@,
            "}"@,
        ]);
        join_strings(&lines, '\n')
    } else {
        proof {
            reveal_strlit("");
            assert(""@ =~= Seq::<char>::empty());
        }
        line_of("error ", error.id.as_str(), "")
    }
}

/// The document as KDL: each default's node, then each error's, each
/// followed by a newline.
pub fn to_kdl(doc: &ErrorDocument) -> (s: String)
    ensures
        s@ == defaults_kdl(doc.defaults@, doc.defaults@.len()) + errors_kdl(doc.errors@, doc.errors@.len()),
{
    let mut output = String::new();
    let mut i: usize = 0;
    while i < doc.defaults.len()
        invariant
            i <= doc.defaults@.len(),
            output@ == defaults_kdl(doc.defaults@, i as nat),
        decreases doc.defaults@.len() - i,
    {
        let t = format_default(&doc.defaults[i]);
        push_str(&mut output, t.as_str());
        push_str(&mut output, "\n");
        proof {
            reveal_strlit("\n");
        }
        assert(output@ =~= defaults_kdl(doc.defaults@, (i + 1) as nat));
        i = i + 1;
    }
    let ghost mid = output@;
    let mut j: usize = 0;
    while j < doc.errors.len()
        invariant
            j <= doc.errors@.len(),
            output@ == mid + errors_kdl(doc.errors@, j as nat),
        decreases doc.errors@.len() - j,
    {
        let t = format_error(&doc.errors[j]);
        push_str(&mut output, t.as_str());
        push_str(&mut output, "\n");
        proof {
            reveal_strlit("\n");
        }
        assert(output@ =~= mid + errors_kdl(doc.errors@, (j + 1) as nat));
        j = j + 1;
    }
    output
}

} // verus!
