//! Reading error messages out of an XML document: `<errors>` holds
//! `<defaults>` of `<default>` messages and `<error id=..>` messages; each
//! has a `<header>` (titles per language, references) and a `<body>`
//! (descriptions per language, examples). The document is taken as a tree
//! of elements and text.
use vstd::prelude::*;
use crate::text::{push_str, str_eq, strings_view, trim, trimmed};
use crate::xml_conv::{
    encode_unicode_identifier, identifier, lookup_pair, pairs_view, Body, Error, ErrorDocument, Example, Header,
    Id, Reference,
};

verus! {

broadcast use vstd::string::group_string_axioms;

/// A node of an XML document: an element, a text, or anything else (a
/// comment, a processing instruction, character data).
#[derive(Debug)]
pub enum XmlNode {
    Element(XmlElement),
    Text(String),
    Other,
}

/// An XML element: its name, its attributes, and its child nodes in order.
#[derive(Debug)]
pub struct XmlElement {
    pub name: String,
    pub attributes: Vec<(String, String)>,
    pub children: Vec<XmlNode>,
}

/// The child elements among `nodes`, in order.
pub open spec fn elements(nodes: Seq<XmlNode>) -> Seq<XmlElement>
    decreases nodes.len(),
{
    if nodes.len() == 0 {
        Seq::empty()
    } else {
        elements(nodes.drop_last()) + match nodes.last() {
            XmlNode::Element(e) => seq![e],
            _ => Seq::empty(),
        }
    }
}

/// The texts among `nodes`, one after the other.
pub open spec fn texts(nodes: Seq<XmlNode>) -> Seq<char>
    decreases nodes.len(),
{
    if nodes.len() == 0 {
        Seq::empty()
    } else {
        texts(nodes.drop_last()) + match nodes.last() {
            XmlNode::Text(t) => t@,
            _ => Seq::empty(),
        }
    }
}

/// The value of attribute `k`.
pub open spec fn attr(e: XmlElement, k: Seq<char>) -> Option<Seq<char>> {
    lookup_pair(pairs_view(e.attributes@), k)
}

/// The text of an element: its own texts, trimmed.
pub open spec fn element_text(e: XmlElement) -> Seq<char> {
    trim(texts(e.children@))
}

/// The language of an element: `xml:lang`, else `lang`, else `en`.
pub open spec fn lang_of(e: XmlElement) -> Seq<char> {
    match attr(e, "xml:lang"@) {
        Some(l) => l,
        None => match attr(e, "lang"@) {
            Some(l) => l,
            None => "en"@,
        },
    }
}

/// `m` with `k` set to `v`: in place when `k` is there, else at the end.
pub open spec fn map_set(m: Seq<(Seq<char>, Seq<char>)>, k: Seq<char>, v: Seq<char>) -> Seq<(Seq<char>, Seq<char>)> {
    if exists|i: int| 0 <= i < m.len() && (#[trigger] m[i]).0 == k {
        let i = choose|i: int| 0 <= i < m.len() && (#[trigger] m[i]).0 == k;
        m.update(i, (k, v))
    } else {
        m.push((k, v))
    }
}

/// A header, as values: titles by language, and references.
pub struct HeaderV {
    pub titles: Seq<(Seq<char>, Seq<char>)>,
    pub references: Option<Seq<Seq<char>>>,
}

/// A body, as values: descriptions by language, and examples (language,
/// text).
pub struct BodyV {
    pub descriptions: Seq<(Seq<char>, Seq<char>)>,
    pub examples: Option<Seq<(Seq<char>, Seq<char>)>>,
}

pub enum IdV {
    Regex(Seq<char>),
    Explicit(Seq<char>),
}

pub struct DefaultV {
    pub id: Seq<char>,
    pub original_title: Seq<char>,
    pub ids: Seq<IdV>,
    pub header: HeaderV,
    pub body: BodyV,
}

pub struct ErrorV {
    pub id: Seq<char>,
    pub original_id: Seq<char>,
    pub header: HeaderV,
    pub body: BodyV,
}

pub struct DocumentV {
    pub defaults: Seq<DefaultV>,
    pub errors: Seq<ErrorV>,
}

pub open spec fn header_view(h: Header) -> HeaderV {
    HeaderV {
        titles: pairs_view(h.titles@),
        references: match h.references {
            Some(r) => Some(r@.map_values(|x: Reference| x.n@)),
            None => None,
        },
    }
}

pub open spec fn body_view(b: Body) -> BodyV {
    BodyV {
        descriptions: pairs_view(b.descriptions@),
        examples: match b.examples {
            Some(e) => Some(e@.map_values(|x: Example| (x.lang@, x.text@))),
            None => None,
        },
    }
}

pub open spec fn id_view(id: Id) -> IdV {
    match id {
        Id::Regex { pattern } => IdV::Regex(pattern@),
        Id::Explicit { value } => IdV::Explicit(value@),
    }
}

pub open spec fn default_view(d: crate::xml_conv::Default) -> DefaultV {
    DefaultV {
        id: d.id@,
        original_title: d.original_title@,
        ids: d.ids@.map_values(|i: Id| id_view(i)),
        header: header_view(d.header),
        body: body_view(d.body),
    }
}

pub open spec fn error_view(e: Error) -> ErrorV {
    ErrorV { id: e.id@, original_id: e.original_id@, header: header_view(e.header), body: body_view(e.body) }
}

pub open spec fn document_view(d: ErrorDocument) -> DocumentV {
    DocumentV {
        defaults: d.defaults@.map_values(|x: crate::xml_conv::Default| default_view(x)),
        errors: d.errors@.map_values(|x: Error| error_view(x)),
    }
}

/// The references among `cs`: each `<ref n=..>`.
pub open spec fn references_of(cs: Seq<XmlElement>) -> Seq<Seq<char>>
    decreases cs.len(),
{
    if cs.len() == 0 {
        Seq::empty()
    } else {
        references_of(cs.drop_last()) + if cs.last().name@ == "ref"@ {
            seq![
                match attr(cs.last(), "n"@) {
                    Some(n) => n,
                    None => Seq::empty(),
                },
            ]
        } else {
            Seq::empty()
        }
    }
}

/// The examples among `cs`: each `<ex lang=..>` with its text.
pub open spec fn examples_of(cs: Seq<XmlElement>) -> Seq<(Seq<char>, Seq<char>)>
    decreases cs.len(),
{
    if cs.len() == 0 {
        Seq::empty()
    } else {
        examples_of(cs.drop_last()) + if cs.last().name@ == "ex"@ {
            seq![
                (
                    match attr(cs.last(), "lang"@) {
                        Some(l) => l,
                        None => "en"@,
                    },
                    element_text(cs.last()),
                ),
            ]
        } else {
            Seq::empty()
        }
    }
}

/// The ids among `cs`: each `<re v=..>` and `<e id=..>` that has its
/// attribute.
pub open spec fn ids_of(cs: Seq<XmlElement>) -> Seq<IdV>
    decreases cs.len(),
{
    if cs.len() == 0 {
        Seq::empty()
    } else {
        let c = cs.last();
        ids_of(cs.drop_last()) + if c.name@ == "re"@ && attr(c, "v"@) is Some {
            seq![IdV::Regex(attr(c, "v"@)->0)]
        } else if c.name@ == "e"@ && attr(c, "id"@) is Some {
            seq![IdV::Explicit(attr(c, "id"@)->0)]
        } else {
            Seq::empty()
        }
    }
}

/// The header that the elements `cs` make: each `<title>` sets the title of
/// its language, the last `<references>` gives the references.
pub open spec fn header_of(cs: Seq<XmlElement>) -> HeaderV
    decreases cs.len(),
{
    if cs.len() == 0 {
        HeaderV { titles: Seq::empty(), references: None }
    } else {
        let h = header_of(cs.drop_last());
        let c = cs.last();
        if c.name@ == "title"@ {
            HeaderV { titles: map_set(h.titles, lang_of(c), element_text(c)), ..h }
        } else if c.name@ == "references"@ {
            HeaderV { references: Some(references_of(elements(c.children@))), ..h }
        } else {
            h
        }
    }
}

/// The body that the elements `cs` make: each `<description>` sets the
/// description of its language, the last `<examples>` gives the examples.
pub open spec fn body_of(cs: Seq<XmlElement>) -> BodyV
    decreases cs.len(),
{
    if cs.len() == 0 {
        BodyV { descriptions: Seq::empty(), examples: None }
    } else {
        let b = body_of(cs.drop_last());
        let c = cs.last();
        if c.name@ == "description"@ {
            BodyV { descriptions: map_set(b.descriptions, lang_of(c), element_text(c)), ..b }
        } else if c.name@ == "examples"@ {
            BodyV { examples: Some(examples_of(elements(c.children@))), ..b }
        } else {
            b
        }
    }
}

/// The last `<ids>`, `<header>` and `<body>` among `cs`.
pub struct PartsV {
    pub ids: Seq<IdV>,
    pub header: Option<HeaderV>,
    pub body: Option<BodyV>,
}

pub open spec fn parts_of(cs: Seq<XmlElement>) -> PartsV
    decreases cs.len(),
{
    if cs.len() == 0 {
        PartsV { ids: Seq::empty(), header: None, body: None }
    } else {
        let p = parts_of(cs.drop_last());
        let c = cs.last();
        if c.name@ == "ids"@ {
            PartsV { ids: ids_of(elements(c.children@)), ..p }
        } else if c.name@ == "header"@ {
            PartsV { header: Some(header_of(elements(c.children@))), ..p }
        } else if c.name@ == "body"@ {
            PartsV { body: Some(body_of(elements(c.children@))), ..p }
        } else {
            p
        }
    }
}

/// A `<default>` message: it needs a header and a body; its id comes from
/// its English title (`unknown-default` without one).
pub open spec fn default_of(e: XmlElement) -> Result<DefaultV, Seq<char>> {
    let p = parts_of(elements(e.children@));
    match (p.header, p.body) {
        (None, _) => Err("Missing header in default"@),
        (Some(_), None) => Err("Missing body in default"@),
        (Some(h), Some(b)) => {
            let t = match lookup_pair(h.titles, "en"@) {
                Some(t) => t,
                None => "unknown-default"@,
            };
            Ok(DefaultV { id: "err-"@ + identifier(t), original_title: t, ids: p.ids, header: h, body: b })
        },
    }
}

/// An `<error id=..>` message: it needs its id, a header and a body.
pub open spec fn error_of(e: XmlElement) -> Result<ErrorV, Seq<char>> {
    match attr(e, "id"@) {
        None => Err("Error missing id attribute"@),
        Some(oid) => {
            let p = parts_of(elements(e.children@));
            match (p.header, p.body) {
                (None, _) => Err("Missing header in error"@),
                (Some(_), None) => Err("Missing body in error"@),
                (Some(h), Some(b)) => Ok(ErrorV { id: "err-"@ + identifier(oid), original_id: oid, header: h, body: b }),
            }
        },
    }
}

/// The `<default>` messages among `cs`, or the first failure.
pub open spec fn defaults_of(cs: Seq<XmlElement>) -> Result<Seq<DefaultV>, Seq<char>>
    decreases cs.len(),
{
    if cs.len() == 0 {
        Ok(Seq::empty())
    } else {
        match defaults_of(cs.drop_last()) {
            Err(m) => Err(m),
            Ok(ds) => if cs.last().name@ == "default"@ {
                match default_of(cs.last()) {
                    Err(m) => Err(m),
                    Ok(d) => Ok(ds.push(d)),
                }
            } else {
                Ok(ds)
            },
        }
    }
}

/// The messages under the root's children `cs`, in order, or the first
/// failure.
pub open spec fn document_of(cs: Seq<XmlElement>) -> Result<DocumentV, Seq<char>>
    decreases cs.len(),
{
    if cs.len() == 0 {
        Ok(DocumentV { defaults: Seq::empty(), errors: Seq::empty() })
    } else {
        match document_of(cs.drop_last()) {
            Err(m) => Err(m),
            Ok(d) => {
                let c = cs.last();
                if c.name@ == "defaults"@ {
                    match defaults_of(elements(c.children@)) {
                        Err(m) => Err(m),
                        Ok(ds) => Ok(DocumentV { defaults: d.defaults + ds, ..d }),
                    }
                } else if c.name@ == "error"@ {
                    match error_of(c) {
                        Err(m) => Err(m),
                        Ok(e) => Ok(DocumentV { errors: d.errors.push(e), ..d }),
                    }
                } else {
                    Ok(d)
                }
            },
        }
    }
}

/// The messages of a document with root `root`: it must be `<errors>`.
pub open spec fn errors_document(root: XmlElement) -> Result<DocumentV, Seq<char>> {
    if root.name@ != "errors"@ {
        Err("Expected root element 'errors', found '"@ + root.name@ + "'"@)
    } else {
        document_of(elements(root.children@))
    }
}

// ---------------------------------------------------------------------------
// Reading the tree.

/// No key comes twice.
pub open spec fn unique_keys(m: Seq<(Seq<char>, Seq<char>)>) -> bool {
    forall|i: int, j: int| 0 <= i < j < m.len() ==> (#[trigger] m[i]).0 != (#[trigger] m[j]).0
}

/// Sets `k` to `v` in the pairs `m`.
fn set_pair(m: &mut Vec<(String, String)>, k: String, v: String)
    requires
        unique_keys(pairs_view(old(m)@)),
    ensures
        pairs_view(final(m)@) == map_set(pairs_view(old(m)@), k@, v@),
        unique_keys(pairs_view(final(m)@)),
{
    let ghost pv = pairs_view(m@);
    let mut i: usize = 0;
    while i < m.len()
        invariant
            i <= m@.len(),
            m@ == old(m)@,
            pv == pairs_view(m@),
            unique_keys(pv),
            forall|j: int| 0 <= j < i ==> (#[trigger] pv[j]).0 != k@,
        decreases m@.len() - i,
    {
        assert(pv[i as int] == (m@[i as int].0@, m@[i as int].1@));
        if str_eq(m[i].0.as_str(), k.as_str()) {
            let ghost kv = k@;
            let ghost vv = v@;
            m.set(i, (k, v));
            proof {
                assert(pv[i as int].0 == kv);
                let c = choose|c: int| 0 <= c < pv.len() && (#[trigger] pv[c]).0 == kv;
                if c < i {
                    assert(pv[c].0 != pv[i as int].0);
                } else if c > i {
                    assert(pv[i as int].0 != pv[c].0);
                }
                assert(c == i as int);
                assert(pairs_view(m@) =~= pv.update(i as int, (kv, vv)));
            }
            return;
        }
        i = i + 1;
    }
    let ghost kv = k@;
    let ghost vv = v@;
    m.push((k, v));
    assert(pairs_view(m@) =~= pv.push((kv, vv)));
}

/// The value of attribute `k` of `e`.
fn attribute<'a>(e: &'a XmlElement, k: &str) -> (r: Option<&'a String>)
    ensures
        match attr(*e, k@) {
            Some(v) => r matches Some(x) && x@ == v,
            None => r is None,
        },
{
    crate::xml_conv::get_pair(&e.attributes, k)
}

/// The texts of an element, trimmed.
pub fn get_element_text(element: &XmlElement) -> (s: String)
    ensures
        s@ == element_text(*element),
{
    let mut text = String::new();
    let ghost ns = element.children@;
    let mut i: usize = 0;
    while i < element.children.len()
        invariant
            i <= ns.len(),
            ns == element.children@,
            text@ == texts(ns.take(i as int)),
        decreases ns.len() - i,
    {
        assert(ns.take(i + 1).drop_last() =~= ns.take(i as int));
        assert(ns.take(i + 1).last() == ns[i as int]);
        match &element.children[i] {
            XmlNode::Text(t) => push_str(&mut text, t.as_str()),
            _ => {
                assert(text@ + Seq::<char>::empty() =~= text@);
            },
        }
        i = i + 1;
    }
    assert(ns.take(i as int) =~= ns);
    trimmed(text.as_str())
}

fn language_of(e: &XmlElement) -> (s: String)
    ensures
        s@ == lang_of(*e),
{
    proof {
        reveal_strlit("xml:lang");
        reveal_strlit("lang");
        reveal_strlit("en");
    }
    match attribute(e, "xml:lang") {
        Some(l) => l.clone(),
        None => match attribute(e, "lang") {
            Some(l) => l.clone(),
            None => "en".to_string(),
        },
    }
}

/// The `<ref>` children of `element`.
pub fn parse_references(element: &XmlElement) -> (refs: Vec<Reference>)
    ensures
        refs@.map_values(|x: Reference| x.n@) == references_of(elements(element.children@)),
{
    let ghost ns = element.children@;
    let mut refs: Vec<Reference> = Vec::new();
    let mut i: usize = 0;
    while i < element.children.len()
        invariant
            i <= ns.len(),
            ns == element.children@,
            refs@.map_values(|x: Reference| x.n@) == references_of(elements(ns.take(i as int))),
        decreases ns.len() - i,
    {
        assert(ns.take(i + 1).drop_last() =~= ns.take(i as int));
        assert(ns.take(i + 1).last() == ns[i as int]);
        match &element.children[i] {
            XmlNode::Element(c) => {
                assert(elements(ns.take(i + 1)) =~= elements(ns.take(i as int)).push(*c));
                assert(elements(ns.take(i + 1)).drop_last() =~= elements(ns.take(i as int)));
                proof {
                    reveal_strlit("ref");
                    reveal_strlit("n");
                }
                if str_eq(c.name.as_str(), "ref") {
                    let n = match attribute(c, "n") {
                        Some(v) => v.clone(),
                        None => String::new(),
                    };
                    let ghost r0 = refs@;
                    refs.push(Reference { n });
                    assert(refs@.map_values(|x: Reference| x.n@) =~= r0.map_values(|x: Reference| x.n@).push(
                        refs@.last().n@,
                    ));
                }
            },
            _ => {
                assert(elements(ns.take(i + 1)) =~= elements(ns.take(i as int)));
            },
        }
        i = i + 1;
    }
    assert(ns.take(i as int) =~= ns);
    refs
}

/// The `<ex>` children of `element`.
pub fn parse_examples(element: &XmlElement) -> (examples: Vec<Example>)
    ensures
        examples@.map_values(|x: Example| (x.lang@, x.text@)) == examples_of(elements(element.children@)),
{
    let ghost ns = element.children@;
    let mut examples: Vec<Example> = Vec::new();
    let mut i: usize = 0;
    while i < element.children.len()
        invariant
            i <= ns.len(),
            ns == element.children@,
            examples@.map_values(|x: Example| (x.lang@, x.text@)) == examples_of(elements(ns.take(i as int))),
        decreases ns.len() - i,
    {
        assert(ns.take(i + 1).drop_last() =~= ns.take(i as int));
        assert(ns.take(i + 1).last() == ns[i as int]);
        match &element.children[i] {
            XmlNode::Element(c) => {
                assert(elements(ns.take(i + 1)) =~= elements(ns.take(i as int)).push(*c));
                assert(elements(ns.take(i + 1)).drop_last() =~= elements(ns.take(i as int)));
                proof {
                    reveal_strlit("ex");
                    reveal_strlit("lang");
                    reveal_strlit("en");
                }
                if str_eq(c.name.as_str(), "ex") {
                    let lang = match attribute(c, "lang") {
                        Some(v) => v.clone(),
                        None => "en".to_string(),
                    };
                    let text = get_element_text(c);
                    let ghost e0 = examples@;
                    examples.push(Example { lang, text });
                    assert(examples@.map_values(|x: Example| (x.lang@, x.text@)) =~= e0.map_values(
                        |x: Example| (x.lang@, x.text@),
                    ).push((examples@.last().lang@, examples@.last().text@)));
                }
            },
            _ => {
                assert(elements(ns.take(i + 1)) =~= elements(ns.take(i as int)));
            },
        }
        i = i + 1;
    }
    assert(ns.take(i as int) =~= ns);
    examples
}

/// The `<re v=..>` and `<e id=..>` children of `element`.
pub fn parse_ids(element: &XmlElement) -> (ids: Vec<Id>)
    ensures
        ids@.map_values(|x: Id| id_view(x)) == ids_of(elements(element.children@)),
{
    let ghost ns = element.children@;
    let mut ids: Vec<Id> = Vec::new();
    let mut i: usize = 0;
    while i < element.children.len()
        invariant
            i <= ns.len(),
            ns == element.children@,
            ids@.map_values(|x: Id| id_view(x)) == ids_of(elements(ns.take(i as int))),
        decreases ns.len() - i,
    {
        assert(ns.take(i + 1).drop_last() =~= ns.take(i as int));
        assert(ns.take(i + 1).last() == ns[i as int]);
        match &element.children[i] {
            XmlNode::Element(c) => {
                assert(elements(ns.take(i + 1)) =~= elements(ns.take(i as int)).push(*c));
                assert(elements(ns.take(i + 1)).drop_last() =~= elements(ns.take(i as int)));
                proof {
                    reveal_strlit("re");
                    reveal_strlit("v");
                    reveal_strlit("e");
                    reveal_strlit("id");
                }
                let ghost i0 = ids@;
                let ghost es = elements(ns.take(i as int));
                if str_eq(c.name.as_str(), "re") {
                    if let Some(p) = attribute(c, "v") {
                        ids.push(Id::Regex { pattern: p.clone() });
                        assert(ids@.map_values(|x: Id| id_view(x)) =~= i0.map_values(|x: Id| id_view(x)).push(
                            id_view(ids@.last()),
                        ));
                    } else {
                        assert(c.name@ == "re"@);
                        assert("re"@.len() == 2 && "e"@.len() == 1);
                        assert(c.name@ != "e"@);
                        assert(es.push(*c).drop_last() =~= es);
                        assert(ids_of(es.push(*c)) =~= ids_of(es) + Seq::<IdV>::empty());
                    }
                } else if str_eq(c.name.as_str(), "e") {
                    if let Some(v) = attribute(c, "id") {
                        ids.push(Id::Explicit { value: v.clone() });
                        assert(ids@.map_values(|x: Id| id_view(x)) =~= i0.map_values(|x: Id| id_view(x)).push(
                            id_view(ids@.last()),
                        ));
                    } else {
                        assert(c.name@ != "re"@);
                        assert(attr(*c, "id"@) is None);
                        assert(es.push(*c).drop_last() =~= es);
                        assert(ids_of(es.push(*c)) =~= ids_of(es) + Seq::<IdV>::empty());
                    }
                } else {
                    assert(ids_of(es.push(*c)) =~= ids_of(es) + Seq::<IdV>::empty());
                }
            },
            _ => {
                assert(elements(ns.take(i + 1)) =~= elements(ns.take(i as int)));
            },
        }
        i = i + 1;
    }
    assert(ns.take(i as int) =~= ns);
    ids
}

proof fn lemma_header_unique(cs: Seq<XmlElement>)
    ensures
        unique_keys(header_of(cs).titles),
    decreases cs.len(),
{
    if cs.len() > 0 {
        lemma_header_unique(cs.drop_last());
        lemma_map_set_unique(header_of(cs.drop_last()).titles, lang_of(cs.last()), element_text(cs.last()));
    }
}

proof fn lemma_body_unique(cs: Seq<XmlElement>)
    ensures
        unique_keys(body_of(cs).descriptions),
    decreases cs.len(),
{
    if cs.len() > 0 {
        lemma_body_unique(cs.drop_last());
        lemma_map_set_unique(body_of(cs.drop_last()).descriptions, lang_of(cs.last()), element_text(cs.last()));
    }
}

pub proof fn lemma_map_set_unique(m: Seq<(Seq<char>, Seq<char>)>, k: Seq<char>, v: Seq<char>)
    requires
        unique_keys(m),
    ensures
        unique_keys(map_set(m, k, v)),
{
    if exists|i: int| 0 <= i < m.len() && (#[trigger] m[i]).0 == k {
        let i = choose|i: int| 0 <= i < m.len() && (#[trigger] m[i]).0 == k;
        let r = m.update(i, (k, v));
        assert forall|a: int, b: int| 0 <= a < b < r.len() implies (#[trigger] r[a]).0 != (#[trigger] r[b]).0 by {
            assert(m[a].0 != m[b].0);
        }
    } else {
        let r = m.push((k, v));
        assert forall|a: int, b: int| 0 <= a < b < r.len() implies (#[trigger] r[a]).0 != (#[trigger] r[b]).0 by {
            if b < m.len() {
                assert(m[a].0 != m[b].0);
            }
        }
    }
}

/// The header that the children of `element` make.
pub fn parse_header(element: &XmlElement) -> (h: Header)
    ensures
        header_view(h) == header_of(elements(element.children@)),
{
    let ghost ns = element.children@;
    let mut titles: Vec<(String, String)> = Vec::new();
    let mut references: Option<Vec<Reference>> = None;
    let mut i: usize = 0;
    assert(pairs_view(titles@) =~= Seq::<(Seq<char>, Seq<char>)>::empty());
    while i < element.children.len()
        invariant
            i <= ns.len(),
            ns == element.children@,
            header_view(Header { titles, references }) == header_of(elements(ns.take(i as int))),
        decreases ns.len() - i,
    {
        assert(ns.take(i + 1).drop_last() =~= ns.take(i as int));
        assert(ns.take(i + 1).last() == ns[i as int]);
        proof {
            lemma_header_unique(elements(ns.take(i as int)));
        }
        match &element.children[i] {
            XmlNode::Element(c) => {
                assert(elements(ns.take(i + 1)) =~= elements(ns.take(i as int)).push(*c));
                assert(elements(ns.take(i + 1)).drop_last() =~= elements(ns.take(i as int)));
                proof {
                    reveal_strlit("title");
                    reveal_strlit("references");
                }
                if str_eq(c.name.as_str(), "title") {
                    let lang = language_of(c);
                    let text = get_element_text(c);
                    set_pair(&mut titles, lang, text);
                } else if str_eq(c.name.as_str(), "references") {
                    references = Some(parse_references(c));
                }
            },
            _ => {
                assert(elements(ns.take(i + 1)) =~= elements(ns.take(i as int)));
            },
        }
        i = i + 1;
    }
    assert(ns.take(i as int) =~= ns);
    Header { titles, references }
}

/// The body that the children of `element` make.
pub fn parse_body(element: &XmlElement) -> (b: Body)
    ensures
        body_view(b) == body_of(elements(element.children@)),
{
    let ghost ns = element.children@;
    let mut descriptions: Vec<(String, String)> = Vec::new();
    let mut examples: Option<Vec<Example>> = None;
    let mut i: usize = 0;
    assert(pairs_view(descriptions@) =~= Seq::<(Seq<char>, Seq<char>)>::empty());
    while i < element.children.len()
        invariant
            i <= ns.len(),
            ns == element.children@,
            body_view(Body { descriptions, examples }) == body_of(elements(ns.take(i as int))),
        decreases ns.len() - i,
    {
        assert(ns.take(i + 1).drop_last() =~= ns.take(i as int));
        assert(ns.take(i + 1).last() == ns[i as int]);
        proof {
            lemma_body_unique(elements(ns.take(i as int)));
        }
        match &element.children[i] {
            XmlNode::Element(c) => {
                assert(elements(ns.take(i + 1)) =~= elements(ns.take(i as int)).push(*c));
                assert(elements(ns.take(i + 1)).drop_last() =~= elements(ns.take(i as int)));
                proof {
                    reveal_strlit("description");
                    reveal_strlit("examples");
                }
                if str_eq(c.name.as_str(), "description") {
                    let lang = language_of(c);
                    let text = get_element_text(c);
                    set_pair(&mut descriptions, lang, text);
                } else if str_eq(c.name.as_str(), "examples") {
                    examples = Some(parse_examples(c));
                }
            },
            _ => {
                assert(elements(ns.take(i + 1)) =~= elements(ns.take(i as int)));
            },
        }
        i = i + 1;
    }
    assert(ns.take(i as int) =~= ns);
    Body { descriptions, examples }
}

proof fn lemma_elements_concat(a: Seq<XmlNode>, b: Seq<XmlNode>)
    ensures
        elements(a + b) == elements(a) + elements(b),
    decreases b.len(),
{
    if b.len() == 0 {
        assert(a + b =~= a);
        assert(elements(a) + elements(b) =~= elements(a));
    } else {
        lemma_elements_concat(a, b.drop_last());
        assert((a + b).drop_last() =~= a + b.drop_last());
        assert((a + b).last() == b.last());
        assert(elements(a + b) =~= elements(a) + elements(b));
    }
}

/// Once reading the messages fails, it fails with that message for good.
proof fn lemma_document_err(a: Seq<XmlElement>, b: Seq<XmlElement>)
    requires
        document_of(a) is Err,
    ensures
        document_of(a + b) == document_of(a),
    decreases b.len(),
{
    if b.len() == 0 {
        assert(a + b =~= a);
    } else {
        lemma_document_err(a, b.drop_last());
        assert((a + b).drop_last() =~= a + b.drop_last());
    }
}

proof fn lemma_defaults_err(a: Seq<XmlElement>, b: Seq<XmlElement>)
    requires
        defaults_of(a) is Err,
    ensures
        defaults_of(a + b) == defaults_of(a),
    decreases b.len(),
{
    if b.len() == 0 {
        assert(a + b =~= a);
    } else {
        lemma_defaults_err(a, b.drop_last());
        assert((a + b).drop_last() =~= a + b.drop_last());
    }
}

/// A failure among the first `k` nodes is the failure of them all.
proof fn lemma_nodes_err(ns: Seq<XmlNode>, k: int)
    requires
        0 <= k <= ns.len(),
        document_of(elements(ns.take(k))) is Err,
    ensures
        document_of(elements(ns)) == document_of(elements(ns.take(k))),
{
    lemma_elements_concat(ns.take(k), ns.skip(k));
    assert(ns.take(k) + ns.skip(k) =~= ns);
    lemma_document_err(elements(ns.take(k)), elements(ns.skip(k)));
}

proof fn lemma_default_nodes_err(ns: Seq<XmlNode>, k: int)
    requires
        0 <= k <= ns.len(),
        defaults_of(elements(ns.take(k))) is Err,
    ensures
        defaults_of(elements(ns)) == defaults_of(elements(ns.take(k))),
{
    lemma_elements_concat(ns.take(k), ns.skip(k));
    assert(ns.take(k) + ns.skip(k) =~= ns);
    lemma_defaults_err(elements(ns.take(k)), elements(ns.skip(k)));
}

pub open spec fn parts_view(ids: Seq<Id>, header: Option<Header>, body: Option<Body>) -> PartsV {
    PartsV {
        ids: ids.map_values(|x: Id| id_view(x)),
        header: match header {
            Some(h) => Some(header_view(h)),
            None => None,
        },
        body: match body {
            Some(b) => Some(body_view(b)),
            None => None,
        },
    }
}

/// The last `<ids>`, `<header>` and `<body>` children of `element`.
fn parse_parts(element: &XmlElement) -> (r: (Vec<Id>, Option<Header>, Option<Body>))
    ensures
        parts_view(r.0@, r.1, r.2) == parts_of(elements(element.children@)),
{
    let ghost ns = element.children@;
    let mut ids: Vec<Id> = Vec::new();
    let mut header: Option<Header> = None;
    let mut body: Option<Body> = None;
    let mut i: usize = 0;
    assert(ids@.map_values(|x: Id| id_view(x)) =~= Seq::<IdV>::empty());
    while i < element.children.len()
        invariant
            i <= ns.len(),
            ns == element.children@,
            parts_view(ids@, header, body) == parts_of(elements(ns.take(i as int))),
        decreases ns.len() - i,
    {
        assert(ns.take(i + 1).drop_last() =~= ns.take(i as int));
        assert(ns.take(i + 1).last() == ns[i as int]);
        match &element.children[i] {
            XmlNode::Element(c) => {
                assert(elements(ns.take(i + 1)) =~= elements(ns.take(i as int)).push(*c));
                assert(elements(ns.take(i + 1)).drop_last() =~= elements(ns.take(i as int)));
                proof {
                    reveal_strlit("ids");
                    reveal_strlit("header");
                    reveal_strlit("body");
                }
                if str_eq(c.name.as_str(), "ids") {
                    ids = parse_ids(c);
                } else if str_eq(c.name.as_str(), "header") {
                    header = Some(parse_header(c));
                } else if str_eq(c.name.as_str(), "body") {
                    body = Some(parse_body(c));
                }
            },
            _ => {
                assert(elements(ns.take(i + 1)) =~= elements(ns.take(i as int)));
            },
        }
        i = i + 1;
    }
    assert(ns.take(i as int) =~= ns);
    (ids, header, body)
}

/// A `<default>` message.
pub fn parse_default(element: &XmlElement) -> (r: Result<crate::xml_conv::Default, String>)
    ensures
        match default_of(*element) {
            Ok(d) => r matches Ok(x) && default_view(x) == d,
            Err(m) => r matches Err(x) && x@ == m,
        },
{
    let (ids, header, body) = parse_parts(element);
    let header = match header {
        Some(h) => h,
        None => return Err("Missing header in default".to_string()),
    };
    let body = match body {
        Some(b) => b,
        None => return Err("Missing body in default".to_string()),
    };
    proof {
        reveal_strlit("en");
        reveal_strlit("unknown-default");
        reveal_strlit("err-");
    }
    let original_title = match crate::xml_conv::get_pair(&header.titles, "en") {
        Some(t) => t.clone(),
        None => "unknown-default".to_string(),
    };
    let mut id = "err-".to_string();
    let enc = encode_unicode_identifier(original_title.as_str());
    push_str(&mut id, enc.as_str());
    Ok(crate::xml_conv::Default { id, original_title, ids, header, body })
}

/// An `<error id=..>` message.
pub fn parse_error(element: &XmlElement) -> (r: Result<Error, String>)
    ensures
        match error_of(*element) {
            Ok(e) => r matches Ok(x) && error_view(x) == e,
            Err(m) => r matches Err(x) && x@ == m,
        },
{
    proof {
        reveal_strlit("id");
        reveal_strlit("err-");
    }
    let original_id = match attribute(element, "id") {
        Some(v) => v.clone(),
        None => return Err("Error missing id attribute".to_string()),
    };
    let mut id = "err-".to_string();
    let enc = encode_unicode_identifier(original_id.as_str());
    push_str(&mut id, enc.as_str());
    let (_ids, header, body) = parse_parts(element);
    let header = match header {
        Some(h) => h,
        None => return Err("Missing header in error".to_string()),
    };
    let body = match body {
        Some(b) => b,
        None => return Err("Missing body in error".to_string()),
    };
    Ok(Error { id, original_id, header, body })
}

/// The error messages of a document whose root element is `root`, which
/// must be `<errors>`.
pub fn parse_errors_root(root: &XmlElement) -> (r: Result<ErrorDocument, String>)
    ensures
        match errors_document(*root) {
            Ok(d) => r matches Ok(x) && document_view(x) == d,
            Err(m) => r matches Err(x) && x@ == m,
        },
{
    proof {
        reveal_strlit("errors");
        reveal_strlit("defaults");
        reveal_strlit("default");
        reveal_strlit("error");
    }
    if !str_eq(root.name.as_str(), "errors") {
        let mut m = "Expected root element 'errors', found '".to_string();
        push_str(&mut m, root.name.as_str());
        push_str(&mut m, "'");
        return Err(m);
    }
    let ghost ns = root.children@;
    let mut defaults: Vec<crate::xml_conv::Default> = Vec::new();
    let mut errors: Vec<Error> = Vec::new();
    let mut i: usize = 0;
    assert(defaults@.map_values(|x: crate::xml_conv::Default| default_view(x)) =~= Seq::<DefaultV>::empty());
    assert(errors@.map_values(|x: Error| error_view(x)) =~= Seq::<ErrorV>::empty());
    while i < root.children.len()
        invariant
            i <= ns.len(),
            ns == root.children@,
            root.name@ == "errors"@,
            document_of(elements(ns.take(i as int))) == Ok::<DocumentV, Seq<char>>(
                document_view(ErrorDocument { defaults, errors }),
            ),
        decreases ns.len() - i,
    {
        assert(ns.take(i + 1).drop_last() =~= ns.take(i as int));
        assert(ns.take(i + 1).last() == ns[i as int]);
        match &root.children[i] {
            XmlNode::Element(c) => {
                let ghost es = elements(ns.take(i as int));
                assert(elements(ns.take(i + 1)) =~= es.push(*c));
                assert(es.push(*c).drop_last() =~= es);
                if str_eq(c.name.as_str(), "defaults") {
                    let ghost cs = c.children@;
                    let mut j: usize = 0;
                    let ghost d0 = defaults@.map_values(|x: crate::xml_conv::Default| default_view(x));
                    let ghost ev = errors@.map_values(|x: Error| error_view(x));
                    assert(defaults_of(elements(cs.take(0))) == Ok::<Seq<DefaultV>, Seq<char>>(Seq::empty())) by {
                        assert(cs.take(0) =~= Seq::<XmlNode>::empty());
                    }
                    while j < c.children.len()
                        invariant
                            j <= cs.len(),
                            cs == c.children@,
                            i < ns.len(),
                            ns == root.children@,
                            root.name@ == "errors"@,
                            ns[i as int] == XmlNode::Element(*c),
                            c.name@ == "defaults"@,
                            es == elements(ns.take(i as int)),
                            elements(ns.take(i + 1)) == es.push(*c),
                            document_of(es) == Ok::<DocumentV, Seq<char>>(DocumentV { defaults: d0, errors: ev }),
                            ev == errors@.map_values(|x: Error| error_view(x)),
                            defaults_of(elements(cs.take(j as int))) matches Ok(ds) && d0 + ds
                                == defaults@.map_values(|x: crate::xml_conv::Default| default_view(x)),
                        decreases cs.len() - j,
                    {
                        assert(cs.take(j + 1).drop_last() =~= cs.take(j as int));
                        assert(cs.take(j + 1).last() == cs[j as int]);
                        match &c.children[j] {
                            XmlNode::Element(dc) => {
                                let ghost des = elements(cs.take(j as int));
                                assert(elements(cs.take(j + 1)) =~= des.push(*dc));
                                assert(des.push(*dc).drop_last() =~= des);
                                if str_eq(dc.name.as_str(), "default") {
                                    match parse_default(dc) {
                                        Ok(d) => {
                                            let ghost v0 = defaults@.map_values(
                                                |x: crate::xml_conv::Default| default_view(x),
                                            );
                                            defaults.push(d);
                                            assert(defaults@.map_values(|x: crate::xml_conv::Default| default_view(x))
                                                =~= v0.push(default_view(defaults@.last())));
                                            proof {
                                                let ds = defaults_of(des)->Ok_0;
                                                assert(d0 + ds.push(default_view(defaults@.last())) =~= (d0 + ds).push(
                                                    default_view(defaults@.last()),
                                                ));
                                            }
                                        },
                                        Err(m) => {
                                            proof {
                                                assert(defaults_of(des.push(*dc)) == Err::<Seq<DefaultV>, Seq<char>>(m@));
                                                lemma_default_nodes_err(cs, j + 1);
                                                assert(defaults_of(elements(c.children@)) == Err::<Seq<DefaultV>, Seq<char>>(m@));
                                                assert(es.push(*c).drop_last() =~= es);
                                                assert(es.push(*c).last() == *c);
                                                assert(document_of(es.push(*c)) == Err::<DocumentV, Seq<char>>(m@));
                                                lemma_nodes_err(ns, i + 1);
                                            }
                                            return Err(m);
                                        },
                                    }
                                }
                            },
                            _ => {
                                assert(elements(cs.take(j + 1)) =~= elements(cs.take(j as int)));
                            },
                        }
                        j = j + 1;
                    }
                    assert(cs.take(j as int) =~= cs);
                    proof {
                        let ds = defaults_of(elements(cs))->Ok_0;
                        assert(document_of(es.push(*c)) == Ok::<DocumentV, Seq<char>>(
                            DocumentV { defaults: d0 + ds, errors: ev },
                        ));
                    }
                } else if str_eq(c.name.as_str(), "error") {
                    match parse_error(c) {
                        Ok(e) => {
                            let ghost v0 = errors@.map_values(|x: Error| error_view(x));
                            errors.push(e);
                            assert(errors@.map_values(|x: Error| error_view(x)) =~= v0.push(error_view(errors@.last())));
                        },
                        Err(m) => {
                            proof {
                                lemma_nodes_err(ns, i + 1);
                            }
                            return Err(m);
                        },
                    }
                }
            },
            _ => {
                assert(elements(ns.take(i + 1)) =~= elements(ns.take(i as int)));
            },
        }
        i = i + 1;
    }
    assert(ns.take(i as int) =~= ns);
    Ok(ErrorDocument { defaults, errors })
}

// ---------------------------------------------------------------------------
// Reading the document text.

#[verifier::external_type_specification]
#[verifier::external_body]
pub struct ExXmlemDocument(xmlem::Document);

#[verifier::external_type_specification]
#[verifier::external_body]
pub struct ExXmlemElement(xmlem::Element);

/// The tree that xmlem reads from the text `s`, or the message of its
/// error.
pub uninterp spec fn xml_tree(s: Seq<char>) -> Result<XmlElement, Seq<char>>;

/// The element `e` of `doc` as a tree: xmlem's `name` (with its prefix),
/// its attributes in document order, each under its prefixed name, and its
/// child nodes in document order,
/// text nodes as their text, and character data, processing instructions,
/// comments and document types as `Other`. Only `parse_xml` calls it, on
/// each element it converts; nothing is claimed of it but through that.
#[verifier::external_body]
fn element_tree(doc: &xmlem::Document, e: xmlem::Element) -> XmlElement {
    let attributes = e.attributes(doc).iter().map(|(k, v)| (k.prefixed_name().to_string(), v.clone())).collect();
    let children = e.child_nodes(doc).iter().map(|n| match n {
        xmlem::Node::Element(c) => XmlNode::Element(element_tree(doc, *c)),
        xmlem::Node::Text(t) => XmlNode::Text(t.as_str(doc).to_string()),
        xmlem::Node::CDataSection(_) => XmlNode::Other,
        xmlem::Node::ProcessingInstruction(_) => XmlNode::Other,
        xmlem::Node::Comment(_) => XmlNode::Other,
        xmlem::Node::DocumentType(_) => XmlNode::Other,
    }).collect();
    XmlElement { name: e.name(doc).to_string(), attributes, children }
}

/// xmlem's `str::parse::<xmlem::Document>` of `s`, its root element taken
/// as a tree; on failure, the error's message. The tree is named
/// `xml_tree(s)`: how xmlem reads XML is not stated.
#[verifier::external_body]
fn parse_xml(s: &str) -> (r: Result<XmlElement, String>)
    ensures
        match xml_tree(s@) {
            Ok(t) => r == Ok::<XmlElement, String>(t),
            Err(m) => r matches Err(e) && e@ == m,
        },
{
    match s.parse::<xmlem::Document>() {
        Ok(doc) => Ok(element_tree(&doc, doc.root())),
        Err(e) => Err(e.to_string()),
    }
}

/// The error messages of the XML document `xml_content`.
pub fn parse_xml_to_errors(xml_content: &str) -> (r: Result<ErrorDocument, String>)
    ensures
        match xml_tree(xml_content@) {
            Err(m) => r matches Err(x) && x@ == m,
            Ok(root) => match errors_document(root) {
                Ok(d) => r matches Ok(x) && document_view(x) == d,
                Err(m) => r matches Err(x) && x@ == m,
            },
        },
{
    match parse_xml(xml_content) {
        Ok(root) => parse_errors_root(&root),
        Err(e) => Err(e),
    }
}

} // verus!
