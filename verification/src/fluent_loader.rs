//! Localised error messages: a Fluent bundle per language, loaded from
//! files named `<anything>-<lang>.ftl`, and message lookup that falls back
//! across languages message by message: each requested language, then the
//! default one, then any loaded one.
use vstd::prelude::*;
use crate::fluent::{
    accept_entries, accept_language_entries, entries_view, extract_language_code, first_available,
    language_code,
};
use crate::speech::split_on;
use crate::ssml_check::{digit_run, is_digit, is_sep};
use crate::text::{push_str, str_eq, strings_view};
use crate::xml_conv::pairs_view;
use crate::xml_parse::map_set;

verus! {

broadcast use vstd::string::group_string_axioms;

/// The messages of one language, ready to be formatted: a concurrent
/// fluent-bundle `FluentBundle` over one `FluentResource`.
#[verifier::external_body]
pub struct Bundle {
    inner: fluent_bundle::concurrent::FluentBundle<fluent_bundle::FluentResource>,
}

/// The key of a pattern of a bundle: a message id, an attribute of the
/// message (or its value, `None`), and the arguments it is formatted with.
pub type PatternKey = (Seq<char>, Option<Seq<char>>, Seq<(Seq<char>, Seq<char>)>);

/// What a bundle holds: the text it formats for each pattern it has.
pub uninterp spec fn bundle_texts(b: Bundle) -> Map<PatternKey, Seq<char>>;

/// The Fluent source a bundle was made from.
pub uninterp spec fn bundle_source(b: Bundle) -> Seq<char>;

/// A number literal ends at `n` (exclusive) with a run of twenty digits in
/// it: in its fraction, or in its integer part before a `.` and fraction.
pub open spec fn long_number_at(s: Seq<char>, n: int) -> bool {
    let r = digit_run(s, n);
    ||| r >= 20
    ||| (r > 0 && n - r >= 1 && s[n - r - 1] == '.' && digit_run(s, n - r - 1) >= 20)
}

/// From `i` on, after blanks, stands the `->` of a select expression.
pub open spec fn arrow_at(s: Seq<char>, i: int) -> bool
    decreases s.len() - i,
{
    if i < 0 || i + 1 >= s.len() {
        false
    } else if s[i] == '-' && s[i + 1] == '>' {
        true
    } else if is_sep(s[i]) {
        arrow_at(s, i + 1)
    } else {
        false
    }
}

/// No select expression of the Fluent source `s` is on a number literal with
/// twenty digits in a row. fluent-bundle panics on one when it compares it
/// with a plural category: it scales the fraction by a power of ten that
/// overflows a `u64`, or reads an integer part past `u64::MAX`.
pub open spec fn selectors_short(s: Seq<char>) -> bool {
    forall|n: int| 0 < n <= s.len() ==> !(#[trigger] long_number_at(s, n) && arrow_at(s, n))
}

fn digit_run_exec(v: &Vec<char>, n: usize) -> (r: usize)
    requires
        n <= v@.len(),
    ensures
        r == digit_run(v@, n as int),
        r <= n,
{
    let mut k = n;
    while k > 0 && '0' <= v[k - 1] && v[k - 1] <= '9'
        invariant
            k <= n <= v@.len(),
            digit_run(v@, n as int) == (n - k) + digit_run(v@, k as int),
        decreases k,
    {
        k = k - 1;
    }
    n - k
}

fn arrow_exec(v: &Vec<char>, i: usize) -> (r: bool)
    ensures
        r == arrow_at(v@, i as int),
{
    let mut j = i;
    while j < v.len() && j + 1 < v.len() && !(v[j] == '-' && v[j + 1] == '>') && (v[j] == ' ' || v[j]
        == '\t' || v[j] == '\n' || v[j] == '\r')
        invariant
            i <= j,
            arrow_at(v@, i as int) == arrow_at(v@, j as int),
        decreases v@.len() - j,
    {
        j = j + 1;
    }
    j < v.len() && j + 1 < v.len() && v[j] == '-' && v[j + 1] == '>'
}

/// Whether the Fluent source `source` has no select on a number literal
/// with twenty digits in a row.
pub fn selectors_checked(source: &str) -> (b: bool)
    ensures
        b == selectors_short(source@),
{
    let v = crate::text::chars_of(source);
    let mut k: usize = 0;
    while k < v.len()
        invariant
            k <= v@.len(),
            v@ == source@,
            forall|m: int| 0 < m <= k ==> !(#[trigger] long_number_at(v@, m) && arrow_at(v@, m)),
        decreases v@.len() - k,
    {
        let n = k + 1;
        let r = digit_run_exec(&v, n);
        let long = r >= 20 || (r > 0 && n - r >= 1 && v[n - r - 1] == '.' && digit_run_exec(&v, n - r - 1)
            >= 20);
        if long && arrow_exec(&v, n) {
            assert(long_number_at(v@, n as int) && arrow_at(v@, n as int));
            return false;
        }
        k = n;
    }
    true
}

/// Every bundle can format each of its messages without panicking.
pub open spec fn formattable(bs: Seq<(String, Bundle)>) -> bool {
    forall|i: int| 0 <= i < bs.len() ==> selectors_short(bundle_source(#[trigger] bs[i].1))
}

/// What fluent-bundle formats from the Fluent source `source` for the
/// language `code`, with bidi isolation marks off: the text of each pattern
/// it has.
pub uninterp spec fn ftl_texts(code: Seq<char>, source: Seq<char>) -> Map<PatternKey, Seq<char>>;

/// unic-langid's reading of a language code: the identifier written back in
/// its canonical form, or the message of its error.
pub uninterp spec fn langid_parse(code: Seq<char>) -> Result<Seq<char>, Seq<char>>;

/// unic-langid's refusal of a language code: the message of its error, or
/// `None` where it parses.
pub open spec fn langid_error(code: Seq<char>) -> Option<Seq<char>> {
    match langid_parse(code) {
        Ok(_) => None,
        Err(m) => Some(m),
    }
}

/// unic-langid's `str::parse::<LanguageIdentifier>`, the identifier written
/// back by its `Display` (canonical case, `-` between subtags), or the
/// error's message. The result is named `langid_parse(code)`; the grammar of
/// language tags is not stated.
#[verifier::external_body]
fn canonical_langid(code: &str) -> (r: Result<String, String>)
    ensures
        match r {
            Ok(t) => langid_parse(code@) == Ok::<Seq<char>, Seq<char>>(t@),
            Err(m) => langid_parse(code@) == Err::<Seq<char>, Seq<char>>(m@),
        },
{
    match code.parse::<unic_langid::LanguageIdentifier>() {
        Ok(l) => Ok(l.to_string()),
        Err(e) => Err(e.to_string()),
    }
}

/// The entries whose tag unic-langid reads, the tag in its canonical form.
pub open spec fn readable_entries(es: Seq<(Seq<char>, Option<Seq<char>>)>) -> Seq<
    (Seq<char>, Option<Seq<char>>),
>
    decreases es.len(),
{
    if es.len() == 0 {
        Seq::empty()
    } else {
        let rest = readable_entries(es.drop_last());
        match langid_parse(es.last().0) {
            Ok(t) => rest.push((t, es.last().1)),
            Err(_) => rest,
        }
    }
}

/// The languages of an `Accept-Language` header that unic-langid reads, in
/// canonical form and in the order given, each with the text of its quality
/// (what follows `q=`); reading the qualities and ranking by them is left to
/// the caller.
pub fn accepted_languages(header: &str) -> (v: Vec<(String, Option<String>)>)
    ensures
        entries_view(v@) == readable_entries(accept_entries(split_on(header@, ','))),
{
    let entries = accept_language_entries(header);
    let ghost ev = entries_view(entries@);
    let mut out: Vec<(String, Option<String>)> = Vec::new();
    let mut i: usize = 0;
    assert(ev.take(0) =~= Seq::<(Seq<char>, Option<Seq<char>>)>::empty());
    while i < entries.len()
        invariant
            i <= entries@.len(),
            ev == entries_view(entries@),
            entries_view(out@) == readable_entries(ev.take(i as int)),
        decreases entries@.len() - i,
    {
        let (tag, q) = &entries[i];
        assert(ev.take(i + 1).drop_last() =~= ev.take(i as int));
        assert(ev.take(i + 1).last() == ev[i as int]);
        match canonical_langid(tag.as_str()) {
            Ok(t) => {
                let qc = match q {
                    Some(s) => Some(s.clone()),
                    None => None,
                };
                let ghost o0 = out@;
                out.push((t, qc));
                assert(entries_view(out@) =~= entries_view(o0).push((t@, ev[i as int].1)));
            },
            Err(_) => {},
        }
        i = i + 1;
    }
    assert(ev.take(entries@.len() as int) =~= ev);
    out
}

/// Builds the bundle of the language `code` from the Fluent source `source`:
/// unic-langid parses the code (`str::parse::<LanguageIdentifier>`; on
/// failure, its error's message is returned); fluent-bundle's
/// `FluentResource::try_new` parses the source, what it parsed being kept
/// where it reports errors; `FluentBundle::new_concurrent` makes the bundle,
/// `set_use_isolating(false)` turns bidi isolation marks off, and
/// `add_resource` adds the messages (what it reports, such as a message
/// overriding another, is dropped). What the bundle then formats is named
/// `ftl_texts(code, source)`; the Fluent syntax and its resolution are not
/// stated. The bundle keeps `source` as `bundle_source(b)`.
#[verifier::external_body]
fn make_bundle(code: &str, source: String) -> (r: Result<Bundle, String>)
    ensures
        match r {
            Ok(b) => langid_error(code@) is None && bundle_texts(b) == ftl_texts(code@, source@)
                && bundle_source(b) == source@,
            Err(m) => langid_error(code@) == Some(m@),
        },
{
    let lang = match code.parse::<unic_langid::LanguageIdentifier>() {
        Ok(l) => l,
        Err(e) => return Err(e.to_string()),
    };
    let resource = match fluent_bundle::FluentResource::try_new(source) {
        Ok(r) => r,
        Err((r, _)) => r,
    };
    let mut inner = fluent_bundle::concurrent::FluentBundle::new_concurrent(vec![lang]);
    inner.set_use_isolating(false);
    let _ = inner.add_resource(resource);
    Ok(Bundle { inner })
}

pub open spec fn opt_str(o: Option<&str>) -> Option<Seq<char>> {
    match o {
        Some(s) => Some(s@),
        None => None,
    }
}

/// fluent-bundle's formatting of a message of the bundle: `get_message(id)`,
/// then the pattern of its value (`attribute` being `None`) or of its
/// attribute `attribute` (`get_attribute`), resolved by `format_pattern`
/// with the arguments `args`, each set as a string by `FluentArgs::set`.
/// `None` when the bundle has no such message or the message no such
/// pattern: the key is then not among `bundle_texts(b)`. A select on a number
/// literal with twenty digits in a row can panic in fluent-bundle's plural
/// operands; `selectors_short` leaves such sources out, and with them the
/// few whose long literal is never compared with a plural category.
#[verifier::external_body]
fn format_text(b: &Bundle, id: &str, attribute: Option<&str>, args: &Vec<(String, String)>) -> (r: Option<String>)
    requires
        selectors_short(bundle_source(*b)),
    ensures
        match r {
            Some(t) => bundle_texts(*b).contains_key((id@, opt_str(attribute), pairs_view(args@)))
                && bundle_texts(*b)[(id@, opt_str(attribute), pairs_view(args@))] == t@,
            None => !bundle_texts(*b).contains_key((id@, opt_str(attribute), pairs_view(args@))),
        },
{
    let mut fargs = fluent_bundle::FluentArgs::new();
    for (k, v) in args.iter() {
        fargs.set(k.as_str(), v.as_str());
    }
    let msg = b.inner.get_message(id)?;
    let pattern = match attribute {
        None => msg.value()?,
        Some(a) => msg.get_attribute(a)?.value(),
    };
    Some(b.inner.format_pattern(pattern, Some(&fargs), &mut vec![]).into_owned())
}

/// The bundles of the loaded languages, and the default language.
pub struct FluentLoader {
    pub bundles: Vec<(String, Bundle)>,
    pub default_locale: String,
}

/// The languages of the bundles, in order.
pub open spec fn bundle_langs(bs: Seq<(String, Bundle)>) -> Seq<Seq<char>> {
    bs.map_values(|p: (String, Bundle)| p.0@)
}

/// The languages and Fluent sources loaded from the files `(name,
/// content)`: each file whose name has a language code; a later file of a
/// language replaces an earlier one. It fails on the first language code
/// that is no language identifier.
pub open spec fn loaded(files: Seq<(Seq<char>, Seq<char>)>) -> Result<Seq<(Seq<char>, Seq<char>)>, Seq<char>>
    decreases files.len(),
{
    if files.len() == 0 {
        Ok(Seq::empty())
    } else {
        match loaded(files.drop_last()) {
            Err(m) => Err(m),
            Ok(m) => match language_code(files.last().0) {
                None => Ok(m),
                Some(code) => match langid_error(code) {
                    Some(e) => Err("Invalid language identifier "@ + code + ": "@ + e),
                    None => Ok(map_set(m, code, files.last().1)),
                },
            },
        }
    }
}

/// The bundles hold exactly the languages and sources `m`.
pub open spec fn bundles_of(bs: Seq<(String, Bundle)>, m: Seq<(Seq<char>, Seq<char>)>) -> bool {
    &&& bs.len() == m.len()
    &&& forall|i: int|
        0 <= i < bs.len() ==> (#[trigger] bs[i]).0@ == m[i].0 && bundle_texts(bs[i].1) == ftl_texts(
            m[i].0,
            m[i].1,
        ) && bundle_source(bs[i].1) == m[i].1
}

/// The title and description of a message in a bundle: its value, and its
/// `desc` attribute (else its value again).
pub open spec fn message_in(b: Bundle, id: Seq<char>, args: Seq<(Seq<char>, Seq<char>)>) -> Option<
    (Seq<char>, Seq<char>),
> {
    let t = bundle_texts(b);
    if t.contains_key((id, None, args)) {
        let title = t[(id, None, args)];
        let dk = (id, Some("desc"@), args);
        Some((title, if t.contains_key(dk) { t[dk] } else { title }))
    } else {
        None
    }
}

/// The bundle of language `lang`.
pub open spec fn bundle_for(bs: Seq<(String, Bundle)>, lang: Seq<char>) -> Option<Bundle>
    decreases bs.len(),
{
    if bs.len() == 0 {
        None
    } else if bs[0].0@ == lang {
        Some(bs[0].1)
    } else {
        bundle_for(bs.drop_first(), lang)
    }
}

/// The bundle found for a language is one of the bundles.
proof fn lemma_bundle_for_formattable(bs: Seq<(String, Bundle)>, lang: Seq<char>)
    requires
        formattable(bs),
    ensures
        bundle_for(bs, lang) matches Some(b) ==> selectors_short(bundle_source(b)),
    decreases bs.len(),
{
    if bs.len() > 0 {
        assert(selectors_short(bundle_source(bs[0].1)));
        let t = bs.drop_first();
        assert forall|i: int| 0 <= i < t.len() implies selectors_short(bundle_source(#[trigger] t[i].1)) by {
            assert(t[i] == bs[i + 1]);
        }
        lemma_bundle_for_formattable(t, lang);
    }
}

/// The message in the first of the languages `cands` whose bundle has it.
pub open spec fn localized(
    bs: Seq<(String, Bundle)>,
    cands: Seq<Seq<char>>,
    id: Seq<char>,
    args: Seq<(Seq<char>, Seq<char>)>,
) -> Option<(Seq<char>, Seq<char>)>
    decreases cands.len(),
{
    if cands.len() == 0 {
        None
    } else {
        match bundle_for(bs, cands[0]) {
            Some(b) => match message_in(b, id, args) {
                Some(m) => Some(m),
                None => localized(bs, cands.drop_first(), id, args),
            },
            None => localized(bs, cands.drop_first(), id, args),
        }
    }
}

pub open spec fn pair_view(p: Option<(String, String)>) -> Option<(Seq<char>, Seq<char>)> {
    match p {
        Some((a, b)) => Some((a@, b@)),
        None => None,
    }
}

/// Puts `b` as the bundle of `code`: in place of the one there, else last.
fn set_bundle(bundles: &mut Vec<(String, Bundle)>, code: String, b: Bundle, Ghost(m): Ghost<Seq<(Seq<char>, Seq<char>)>>, Ghost(source): Ghost<Seq<char>>)
    requires
        bundles_of(old(bundles)@, m),
        crate::xml_parse::unique_keys(m),
        bundle_texts(b) == ftl_texts(code@, source),
        bundle_source(b) == source,
    ensures
        bundles_of(final(bundles)@, map_set(m, code@, source)),
{
    let mut i: usize = 0;
    while i < bundles.len()
        invariant
            i <= bundles@.len(),
            bundles@ == old(bundles)@,
            bundles_of(bundles@, m),
            bundle_texts(b) == ftl_texts(code@, source),
            bundle_source(b) == source,
            crate::xml_parse::unique_keys(m),
            forall|j: int| 0 <= j < i ==> (#[trigger] m[j]).0 != code@,
        decreases bundles@.len() - i,
    {
        assert(bundles@[i as int].0@ == m[i as int].0);
        if str_eq(bundles[i].0.as_str(), code.as_str()) {
            let ghost kv = code@;
            let ghost old_b = bundles@;
            bundles.set(i, (code, b));
            proof {
                let c = choose|c: int| 0 <= c < m.len() && (#[trigger] m[c]).0 == kv;
                if c < i {
                    assert(m[c].0 != m[i as int].0);
                } else if c > i {
                    assert(m[i as int].0 != m[c].0);
                }
                let m2 = m.update(i as int, (kv, source));
                assert(map_set(m, kv, source) == m2);
                assert forall|j: int| 0 <= j < bundles@.len() implies (#[trigger] bundles@[j]).0@ == m2[j].0
                    && bundle_texts(bundles@[j].1) == ftl_texts(m2[j].0, m2[j].1) && bundle_source(
                    bundles@[j].1,
                ) == m2[j].1 by {
                    if j != i {
                        assert(bundles@[j] == old_b[j]);
                    }
                }
            }
            return;
        }
        i = i + 1;
    }
    let ghost kv = code@;
    let ghost old_b = bundles@;
    bundles.push((code, b));
    proof {
        let m2 = m.push((kv, source));
        assert(!(exists|c: int| 0 <= c < m.len() && (#[trigger] m[c]).0 == kv));
        assert(map_set(m, kv, source) == m2);
        assert forall|j: int| 0 <= j < bundles@.len() implies (#[trigger] bundles@[j]).0@ == m2[j].0
            && bundle_texts(bundles@[j].1) == ftl_texts(m2[j].0, m2[j].1) && bundle_source(bundles@[j].1)
            == m2[j].1 by {
            if j < old_b.len() {
                assert(bundles@[j] == old_b[j]);
            }
        }
    }
}

proof fn lemma_loaded_unique(files: Seq<(Seq<char>, Seq<char>)>)
    ensures
        loaded(files) matches Ok(m) ==> crate::xml_parse::unique_keys(m),
    decreases files.len(),
{
    if files.len() > 0 {
        lemma_loaded_unique(files.drop_last());
        if let Ok(m) = loaded(files.drop_last()) {
            if let Some(code) = language_code(files.last().0) {
                crate::xml_parse::lemma_map_set_unique(m, code, files.last().1);
            }
        }
    }
}

impl FluentLoader {
    /// Loads the Fluent files `(file name, content)` as bundles, one per
    /// language code in the names (`errors-en.ftl` is `en`); files without
    /// one are passed over. A language code that is no language identifier
    /// fails the load.
    pub fn new(files: &Vec<(String, String)>, default_locale: &str) -> (r: Result<FluentLoader, String>)
        ensures
            match loaded(pairs_view(files@)) {
                Err(m) => r matches Err(x) && x@ == m,
                Ok(m) => r matches Ok(l) && bundles_of(l.bundles@, m) && l.default_locale@ == default_locale@,
            },
    {
        let ghost fv = pairs_view(files@);
        let mut bundles: Vec<(String, Bundle)> = Vec::new();
        let mut i: usize = 0;
        assert(fv.take(0) =~= Seq::<(Seq<char>, Seq<char>)>::empty());
        while i < files.len()
            invariant
                i <= files@.len(),
                fv == pairs_view(files@),
                loaded(fv.take(i as int)) matches Ok(m) && bundles_of(bundles@, m),
            decreases files@.len() - i,
        {
            assert(fv.take(i + 1).drop_last() =~= fv.take(i as int));
            assert(fv.take(i + 1).last() == (files@[i as int].0@, files@[i as int].1@));
            let ghost m = loaded(fv.take(i as int))->Ok_0;
            proof {
                lemma_loaded_unique(fv.take(i as int));
            }
            let name = &files[i].0;
            match extract_language_code(name.as_str()) {
                Some(code) => {
                    match make_bundle(code.as_str(), files[i].1.clone()) {
                        Err(e) => {
                            let mut msg = "Invalid language identifier ".to_string();
                            push_str(&mut msg, code.as_str());
                            push_str(&mut msg, ": ");
                            push_str(&mut msg, e.as_str());
                            proof {
                                lemma_loaded_err(fv, i + 1);
                            }
                            return Err(msg);
                        },
                        Ok(b) => {
                            set_bundle(&mut bundles, code, b, Ghost(m), Ghost(files@[i as int].1@));
                        },
                    }
                },
                None => {},
            }
            i = i + 1;
        }
        assert(fv.take(i as int) =~= fv);
        Ok(FluentLoader { bundles, default_locale: default_locale.to_string() })
    }

    /// The first of the prioritised `locales` that has a bundle.
    pub fn find_first_available_locale(&self, locales: &Vec<String>) -> (r: Option<String>)
        ensures
            match first_available(strings_view(locales@), bundle_langs(self.bundles@)) {
                Some(l) => r matches Some(s) && s@ == l,
                None => r is None,
            },
    {
        let mut langs: Vec<String> = Vec::new();
        let mut i: usize = 0;
        while i < self.bundles.len()
            invariant
                i <= self.bundles@.len(),
                strings_view(langs@) == bundle_langs(self.bundles@).take(i as int),
            decreases self.bundles@.len() - i,
        {
            let ghost l0 = strings_view(langs@);
            langs.push(self.bundles[i].0.clone());
            assert(strings_view(langs@) =~= l0.push(self.bundles@[i as int].0@));
            assert(bundle_langs(self.bundles@).take(i + 1) =~= bundle_langs(self.bundles@).take(i as int).push(
                self.bundles@[i as int].0@,
            ));
            i = i + 1;
        }
        assert(bundle_langs(self.bundles@).take(i as int) =~= bundle_langs(self.bundles@));
        crate::fluent::find_first_available_locale(&langs, locales)
    }

    /// The title and description of message `message_id` in the first of:
    /// the prioritised `locales`, the default language, and each loaded
    /// language, whose bundle has the message with a value; `None` when
    /// none has it.
    pub fn get_message_localized(&self, locales: &Vec<String>, message_id: &str, args: &Vec<(String, String)>) -> (r:
        Option<(String, String)>)
        requires
            formattable(self.bundles@),
        ensures
            pair_view(r) == (if self.bundles@.len() == 0 {
                None
            } else {
                localized(
                    self.bundles@,
                    strings_view(locales@) + seq![self.default_locale@] + bundle_langs(self.bundles@),
                    message_id@,
                    pairs_view(args@),
                )
            }),
    {
        if self.bundles.len() == 0 {
            return None;
        }
        let ghost bs = self.bundles@;
        let ghost lv = strings_view(locales@);
        let ghost id = message_id@;
        let ghost av = pairs_view(args@);
        proof {
            lemma_localized_concat(bs, lv, seq![self.default_locale@] + bundle_langs(bs), id, av);
            lemma_localized_concat(bs, seq![self.default_locale@], bundle_langs(bs), id, av);
            assert(lv + seq![self.default_locale@] + bundle_langs(bs) =~= lv + (seq![self.default_locale@] + bundle_langs(bs)));
        }
        let ghost tail = seq![self.default_locale@] + bundle_langs(bs);
        let ghost goal = localized(bs, lv + tail, id, av);
        assert(lv + tail =~= strings_view(locales@) + seq![self.default_locale@] + bundle_langs(self.bundles@));
        assert(goal == match localized(bs, lv, id, av) {
            Some(m) => Some(m),
            None => localized(bs, tail, id, av),
        });
        let mut k: usize = 0;
        assert(lv.take(0) =~= Seq::<Seq<char>>::empty());
        while k < locales.len()
            invariant
                k <= locales@.len(),
                lv == strings_view(locales@),
                bs == self.bundles@,
                formattable(self.bundles@),
                id == message_id@,
                av == pairs_view(args@),
                goal == match localized(bs, lv, id, av) {
                    Some(m) => Some(m),
                    None => localized(bs, tail, id, av),
                },
                goal == localized(bs, strings_view(locales@) + seq![self.default_locale@] + bundle_langs(self.bundles@), id, av),
                bs.len() > 0,
                localized(bs, lv.take(k as int), id, av) is None,
            decreases locales@.len() - k,
        {
            assert(lv[k as int] == locales@[k as int]@);
            proof {
                lemma_localized_concat(bs, lv.take(k as int), seq![lv[k as int]], id, av);
                assert(lv.take(k + 1) =~= lv.take(k as int) + seq![lv[k as int]]);
            }
            match self.message_for_lang(locales[k].as_str(), message_id, args) {
                Some(m) => {
                    proof {
                        lemma_localized_concat(bs, lv.take(k + 1), lv.skip(k + 1), id, av);
                        assert(lv.take(k + 1) + lv.skip(k + 1) =~= lv);
                    }
                    return Some(m);
                },
                None => {},
            }
            k = k + 1;
        }
        assert(lv.take(k as int) =~= lv);
        assert(goal == localized(bs, tail, id, av));
        assert(localized(bs, tail, id, av) == match localized(bs, seq![self.default_locale@], id, av) {
            Some(m) => Some(m),
            None => localized(bs, bundle_langs(bs), id, av),
        });
        match self.message_for_lang(self.default_locale.as_str(), message_id, args) {
            Some(m) => return Some(m),
            None => {},
        }
        let ghost kl = bundle_langs(bs);
        assert(goal == localized(bs, kl, id, av));
        let mut j: usize = 0;
        assert(kl.take(0) =~= Seq::<Seq<char>>::empty());
        while j < self.bundles.len()
            invariant
                j <= self.bundles@.len(),
                bs == self.bundles@,
                formattable(self.bundles@),
                kl == bundle_langs(bs),
                id == message_id@,
                av == pairs_view(args@),
                goal == localized(bs, kl, id, av),
                goal == localized(bs, strings_view(locales@) + seq![self.default_locale@] + bundle_langs(self.bundles@), id, av),
                bs.len() > 0,
                localized(bs, kl.take(j as int), id, av) is None,
            decreases self.bundles@.len() - j,
        {
            proof {
                lemma_localized_concat(bs, kl.take(j as int), seq![kl[j as int]], id, av);
                assert(kl.take(j + 1) =~= kl.take(j as int) + seq![kl[j as int]]);
            }
            assert(kl[j as int] == self.bundles@[j as int].0@);
            match self.message_for_lang(self.bundles[j].0.as_str(), message_id, args) {
                Some(m) => {
                    proof {
                        lemma_localized_concat(bs, kl.take(j + 1), kl.skip(j + 1), id, av);
                        assert(kl.take(j + 1) + kl.skip(j + 1) =~= kl);
                    }
                    return Some(m);
                },
                None => {},
            }
            j = j + 1;
        }
        assert(kl.take(j as int) =~= kl);
        None
    }

    /// The title and description of message `message_id` in the bundle of
    /// `lang`, if it has one with the message.
    fn message_for_lang(&self, lang: &str, message_id: &str, args: &Vec<(String, String)>) -> (r: Option<
        (String, String),
    >)
        requires
            formattable(self.bundles@),
        ensures
            pair_view(r) == localized(self.bundles@, seq![lang@], message_id@, pairs_view(args@)),
    {
        assert(seq![lang@].drop_first() =~= Seq::<Seq<char>>::empty());
        assert(localized(self.bundles@, seq![lang@].drop_first(), message_id@, pairs_view(args@)) is None);
        match self.bundle_of(lang) {
            Some(b) => {
                proof {
                    reveal_strlit("desc");
                }
                let ghost t = bundle_texts(*b);
                let ghost tk = (message_id@, None::<Seq<char>>, pairs_view(args@));
                let ghost dk = (message_id@, Some("desc"@), pairs_view(args@));
                assert(bundle_for(self.bundles@, lang@) == Some(*b));
                proof {
                    lemma_bundle_for_formattable(self.bundles@, lang@);
                }
                match format_text(b, message_id, None, args) {
                    Some(title) => {
                        assert(t.contains_key(tk) && t[tk] == title@);
                        let desc = match format_text(b, message_id, Some("desc"), args) {
                            Some(d) => {
                                assert(t.contains_key(dk) && t[dk] == d@);
                                d
                            },
                            None => {
                                assert(!t.contains_key(dk));
                                title.clone()
                            },
                        };
                        assert(message_in(*b, message_id@, pairs_view(args@)) == Some((title@, desc@)));
                        let ghost cands = seq![lang@];
                        assert(cands.len() == 1 && cands[0] == lang@);
                        assert(localized(self.bundles@, cands, message_id@, pairs_view(args@)) == Some((title@, desc@)));
                        let r = Some((title, desc));
                        assert(pair_view(r) == Some((title@, desc@)));
                        r
                    },
                    None => {
                        assert(message_in(*b, message_id@, pairs_view(args@)) is None);
                        None
                    },
                }
            },
            None => None,
        }
    }

    /// The bundle of language `lang`.
    fn bundle_of(&self, lang: &str) -> (r: Option<&Bundle>)
        ensures
            match bundle_for(self.bundles@, lang@) {
                Some(b) => r matches Some(x) && *x == b,
                None => r is None,
            },
    {
        let ghost bs = self.bundles@;
        let mut i: usize = 0;
        assert(bs.skip(0) =~= bs);
        while i < self.bundles.len()
            invariant
                i <= bs.len(),
                bs == self.bundles@,
                bundle_for(bs, lang@) == bundle_for(bs.skip(i as int), lang@),
            decreases bs.len() - i,
        {
            assert(bs.skip(i as int)[0] == bs[i as int]);
            if str_eq(self.bundles[i].0.as_str(), lang) {
                return Some(&self.bundles[i].1);
            }
            assert(bs.skip(i as int).drop_first() =~= bs.skip(i + 1));
            i = i + 1;
        }
        None
    }

    /// The title and description of message `message_id`, looked for in
    /// `locale` if given, then as `get_message_localized` does; an error
    /// when no bundle has it.
    pub fn get_message(&self, locale: Option<&str>, message_id: &str, args: &Vec<(String, String)>) -> (r: Result<
        (String, String),
        String,
    >)
        requires
            formattable(self.bundles@),
        ensures
            match (if self.bundles@.len() == 0 {
                None
            } else {
                localized(
                    self.bundles@,
                    (match locale {
                        Some(l) => seq![l@],
                        None => Seq::empty(),
                    }) + seq![self.default_locale@] + bundle_langs(self.bundles@),
                    message_id@,
                    pairs_view(args@),
                )
            }) {
                Some(m) => r matches Ok(x) && (x.0@, x.1@) == m,
                None => r matches Err(e) && e@ == "Message "@ + message_id@ + " not found"@,
            },
    {
        let mut locales: Vec<String> = Vec::new();
        match locale {
            Some(l) => locales.push(l.to_string()),
            None => {},
        }
        assert(strings_view(locales@) =~= match locale {
            Some(l) => seq![l@],
            None => Seq::<Seq<char>>::empty(),
        });
        match self.get_message_localized(&locales, message_id, args) {
            Some(m) => Ok(m),
            None => {
                let mut e = "Message ".to_string();
                push_str(&mut e, message_id);
                push_str(&mut e, " not found");
                Err(e)
            },
        }
    }
}

/// Looking through `a + b` is looking through `a`, then through `b`.
proof fn lemma_localized_concat(
    bs: Seq<(String, Bundle)>,
    a: Seq<Seq<char>>,
    b: Seq<Seq<char>>,
    id: Seq<char>,
    args: Seq<(Seq<char>, Seq<char>)>,
)
    ensures
        localized(bs, a + b, id, args) == match localized(bs, a, id, args) {
            Some(m) => Some(m),
            None => localized(bs, b, id, args),
        },
    decreases a.len(),
{
    if a.len() == 0 {
        assert(a + b =~= b);
    } else {
        assert((a + b).drop_first() =~= a.drop_first() + b);
        assert((a + b)[0] == a[0]);
        lemma_localized_concat(bs, a.drop_first(), b, id, args);
    }
}

/// A load that fails on a file fails for good.
proof fn lemma_loaded_err(files: Seq<(Seq<char>, Seq<char>)>, k: int)
    requires
        0 <= k <= files.len(),
        loaded(files.take(k)) is Err,
    ensures
        loaded(files) == loaded(files.take(k)),
    decreases files.len() - k,
{
    if k < files.len() {
        assert(files.take(k + 1).drop_last() =~= files.take(k));
        lemma_loaded_err(files, k + 1);
    } else {
        assert(files.take(k) =~= files);
    }
}

/// What message lookup gives for `locale` (if any), then the fallbacks.
pub open spec fn lookup_message(
    l: FluentLoader,
    locale: Option<Seq<char>>,
    id: Seq<char>,
    args: Seq<(Seq<char>, Seq<char>)>,
) -> Option<(Seq<char>, Seq<char>)> {
    if l.bundles@.len() == 0 {
        None
    } else {
        localized(
            l.bundles@,
            (match locale {
                Some(s) => seq![s],
                None => Seq::empty(),
            }) + seq![l.default_locale@] + bundle_langs(l.bundles@),
            id,
            args,
        )
    }
}

/// The title and description of error `err_id` on the word `form` (the
/// message's argument `1`): in `locale`, else with no locale asked for,
/// else the error id for both.
pub open spec fn error_message_of(l: FluentLoader, locale: Seq<char>, err_id: Seq<char>, form: Seq<char>) -> (
    Seq<char>,
    Seq<char>,
) {
    let args = seq![("1"@, form)];
    match lookup_message(l, Some(locale), err_id, args) {
        Some(m) => m,
        None => match lookup_message(l, None, err_id, args) {
            Some(m) => m,
            None => (err_id, err_id),
        },
    }
}

/// The title and description of error `err_id` on the word `form`, as the
/// suggester reports them.
pub fn error_message(loader: &FluentLoader, locale: &str, err_id: &str, form: &str) -> (m: (String, String))
    requires
        formattable(loader.bundles@),
    ensures
        (m.0@, m.1@) == error_message_of(*loader, locale@, err_id@, form@),
{
    let args: Vec<(String, String)> = vec![("1".to_string(), form.to_string())];
    proof {
        reveal_strlit("1");
    }
    assert(pairs_view(args@) =~= seq![("1"@, form@)]);
    match loader.get_message(Some(locale), err_id, &args) {
        Ok(m) => m,
        Err(_) => match loader.get_message(None, err_id, &args) {
            Ok(m) => m,
            Err(_) => (err_id.to_string(), err_id.to_string()),
        },
    }
}

/// The title of a message, if found.
fn title_of(r: Result<(String, String), String>) -> (t: Option<String>)
    ensures
        match r {
            Ok(m) => t matches Some(x) && x@ == m.0@,
            Err(_) => t is None,
        },
{
    match r {
        Ok(m) => Some(m.0),
        Err(_) => None,
    }
}

/// The title each error key is shown with for the preferred languages
/// `language_tags`: the title found for the last of them (each lookup
/// falling back as lookups do), else that found without one, else the key.
pub fn error_preferences(loader: &FluentLoader, keys: &Vec<String>, language_tags: &Vec<String>) -> (prefs: Vec<
    (String, String),
>)
    requires
        formattable(loader.bundles@),
    ensures
        prefs@.len() == keys@.len(),
        forall|i: int|
            0 <= i < prefs@.len() ==> (#[trigger] prefs@[i]).0@ == keys@[i]@ && prefs@[i].1@ == crate::suggest::preferred(
                keys@[i]@,
                strings_view(language_tags@).map_values(
                    |lang: Seq<char>|
                        match lookup_message(*loader, Some(lang), keys@[i]@, Seq::empty()) {
                            Some(m) => Some(m.0),
                            None => None,
                        },
                ),
                match lookup_message(*loader, None, keys@[i]@, Seq::empty()) {
                    Some(m) => Some(m.0),
                    None => None,
                },
            ),
{
    let none: Vec<(String, String)> = Vec::new();
    assert(pairs_view(none@) =~= Seq::<(Seq<char>, Seq<char>)>::empty());
    let mut prefs: Vec<(String, String)> = Vec::new();
    let mut i: usize = 0;
    while i < keys.len()
        invariant
            formattable(loader.bundles@),
            i <= keys@.len(),
            prefs@.len() == i,
            pairs_view(none@) == Seq::<(Seq<char>, Seq<char>)>::empty(),
            forall|q: int|
                0 <= q < i ==> (#[trigger] prefs@[q]).0@ == keys@[q]@ && prefs@[q].1@ == crate::suggest::preferred(
                    keys@[q]@,
                    strings_view(language_tags@).map_values(
                        |lang: Seq<char>|
                            match lookup_message(*loader, Some(lang), keys@[q]@, Seq::empty()) {
                                Some(m) => Some(m.0),
                                None => None,
                            },
                    ),
                    match lookup_message(*loader, None, keys@[q]@, Seq::empty()) {
                        Some(m) => Some(m.0),
                        None => None,
                    },
                ),
        decreases keys@.len() - i,
    {
        let key = keys[i].as_str();
        let ghost tv = strings_view(language_tags@).map_values(
            |lang: Seq<char>|
                match lookup_message(*loader, Some(lang), key@, Seq::empty()) {
                    Some(m) => Some(m.0),
                    None => None,
                },
        );
        let mut titles: Vec<Option<String>> = Vec::new();
        let mut k: usize = 0;
        while k < language_tags.len()
            invariant
                formattable(loader.bundles@),
                k <= language_tags@.len(),
                pairs_view(none@) == Seq::<(Seq<char>, Seq<char>)>::empty(),
                tv == strings_view(language_tags@).map_values(
                    |lang: Seq<char>|
                        match lookup_message(*loader, Some(lang), key@, Seq::empty()) {
                            Some(m) => Some(m.0),
                            None => None,
                        },
                ),
                crate::suggest::opts_view(titles@) == tv.take(k as int),
            decreases language_tags@.len() - k,
        {
            let t = title_of(loader.get_message(Some(language_tags[k].as_str()), key, &none));
            let ghost t0 = crate::suggest::opts_view(titles@);
            titles.push(t);
            assert(crate::suggest::opts_view(titles@) =~= t0.push(crate::hfst::opt_view(t)));
            assert(tv.take(k + 1) =~= tv.take(k as int).push(tv[k as int]));
            k = k + 1;
        }
        assert(tv.take(k as int) =~= tv);
        let default = title_of(loader.get_message(None, key, &none));
        let best = crate::suggest::preferred_title(key, &titles, &default);
        prefs.push((keys[i].clone(), best));
        i = i + 1;
    }
    prefs
}

} // verus!
