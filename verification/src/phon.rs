//! Phonetic transcription of a CG-3 stream: the first reading of each
//! cohort is looked up in a pronunciation model, the one of the first of its
//! tags that has a model of its own, or the main one, and the first
//! pronunciation found replaces its `"…"phon` tags.
use vstd::prelude::*;
use crate::cg3::{
    blocks, items_view, lines_fit, stream_panics, Block, BlockV, Cohort as CgCohort, CohortV as CgCohortV, ItemV,
    Output, ReadingV as CgReadingV,
};
use crate::lookup::{answered, answers_view, lookup, query, Answer, Step, StepV, Transducer};
use crate::normalize::{
    block_out, find_tag, first_normalizer, first_tag, needs_expansion, stream_out, string_step, text_step,
    write_block,
};
use crate::suggest::{ends, ends_str};
use crate::text::{chars_of, join_by, join_strings, push_char, push_str, string_of, strings_view};

verus! {

/// What the reading is pronounced from: its `"…"phon` tag, else its
/// re-analysed `"<…>"` form, else the cohort's word form.
pub open spec fn phon_input(c: CgCohortV, r: CgReadingV) -> Seq<char> {
    match first_tag(r.tags, true) {
        Some(t) => t.subrange(1, t.len() - 5),
        None => match first_tag(r.tags, false) {
            Some(t) => t.subrange(2, t.len() - 2),
            None => c.word_form,
        },
    }
}

/// The `"…"phon` tag of the reading, if any, is more than `"phon` and
/// starts with a one-byte character, so that it can be cut.
pub open spec fn phon_ok(r: CgReadingV) -> bool {
    match first_tag(r.tags, true) {
        Some(t) => t.len() >= 6 && (t[0] as u32) < 0x80,
        None => true,
    }
}

/// The model a reading is looked up in: that of the first tag with a model
/// of its own that the reading has, else the main one.
pub open spec fn phon_model(r: CgReadingV, names: Seq<Seq<char>>) -> Transducer {
    match first_normalizer(r.tags, names) {
        Some(k) => Transducer::Tagged(k as usize),
        None => Transducer::Main,
    }
}

/// The tags without the `"…"phon` ones.
pub open spec fn drop_phon(tags: Seq<Seq<char>>) -> Seq<Seq<char>>
    decreases tags.len(),
{
    if tags.len() == 0 {
        Seq::empty()
    } else {
        drop_phon(tags.drop_last()) + if ends(tags.last(), "\"phon"@) {
            Seq::empty()
        } else {
            seq![tags.last()]
        }
    }
}

/// The reading line with pronunciation `e`: its lemma, its tags without
/// the `"…"phon` ones, and `"e"phon`.
pub open spec fn phon_line(r: CgReadingV, e: Seq<char>) -> Seq<char> {
    seq!['\t', '"'] + r.base_form + seq!['"', ' '] + join_by(
        drop_phon(r.tags).push(seq!['"'] + e + "\"phon"@),
        ' ',
    )
}

/// What the cohort is transcribed to: its first reading with the first
/// pronunciation its model gives; nothing when it has no reading, or when
/// the model gives none.
pub open spec fn phon_result(tbl: Seq<crate::lookup::AnswerV>, c: CgCohortV, names: Seq<Seq<char>>) -> StepV<
    Option<Seq<char>>,
> {
    if c.readings.len() == 0 {
        StepV::Done(None)
    } else {
        let r = c.readings[0];
        let input = phon_input(c, r);
        let t = phon_model(r, names);
        match answered(tbl, t, input) {
            None => StepV::Need(t, input),
            Some(found) => if found.len() == 0 {
                StepV::Done(None)
            } else {
                StepV::Done(Some(phon_line(r, found[0])))
            },
        }
    }
}

/// The tags without the `"…"phon` ones.
fn without_phon_tags(tags: &Vec<String>) -> (out: Vec<String>)
    ensures
        strings_view(out@) == drop_phon(strings_view(tags@)),
{
    let ghost tv = strings_view(tags@);
    let mut out: Vec<String> = Vec::new();
    let mut i: usize = 0;
    assert(tv.take(0) =~= Seq::<Seq<char>>::empty());
    while i < tags.len()
        invariant
            i <= tags@.len(),
            tv == strings_view(tags@),
            strings_view(out@) == drop_phon(tv.take(i as int)),
        decreases tags@.len() - i,
    {
        assert(tv.take(i + 1).drop_last() =~= tv.take(i as int));
        assert(tv.take(i + 1).last() == tags@[i as int]@);
        let tc = chars_of(tags[i].as_str());
        let ghost o0 = strings_view(out@);
        if !ends_str(&tc, "\"phon") {
            out.push(tags[i].clone());
            assert(strings_view(out@) =~= o0 + seq![tags@[i as int]@]);
        } else {
            assert(o0 + Seq::<Seq<char>>::empty() =~= o0);
        }
        i = i + 1;
    }
    assert(tv.take(i as int) =~= tv);
    out
}

/// Transcribes the cohort: its first reading, looked up in its model.
pub fn process_cohort(answers: &Vec<Answer>, cohort: &CgCohort, tag_models: &Vec<String>) -> (s: Step<
    Option<String>,
>)
    requires
        cohort.readings@.len() > 0 ==> phon_ok(cohort@.readings[0]),
    ensures
        text_step(s, phon_result(answers_view(answers@), cohort@, strings_view(tag_models@))),
{
    if cohort.readings.len() == 0 {
        return Step::Done(None);
    }
    let reading = &cohort.readings[0];
    assert(cohort@.readings[0] == reading@);
    let input = match find_tag(&reading.tags, true) {
        Some(i) => {
            let tc = chars_of(reading.tags[i].as_str());
            proof {
                reveal_strlit("\"phon");
            }
            string_of(&tc, 1, tc.len() - 5)
        },
        None => match find_tag(&reading.tags, false) {
            Some(i) => {
                let tc = chars_of(reading.tags[i].as_str());
                proof {
                    crate::normalize::lemma_form_tag_len(reading@.tags);
                }
                string_of(&tc, 2, tc.len() - 2)
            },
            None => cohort.word_form.clone(),
        },
    };
    let t = match needs_expansion(reading, tag_models) {
        Some(k) => Transducer::Tagged(k),
        None => Transducer::Main,
    };
    let found = match lookup(answers, t, input.as_str()) {
        None => return Step::Need(query(t, input.as_str())),
        Some(f) => f,
    };
    if found.len() == 0 {
        return Step::Done(None);
    }
    let mut tags = without_phon_tags(&reading.tags);
    let mut ph = String::new();
    push_char(&mut ph, '"');
    push_str(&mut ph, found[0].as_str());
    push_str(&mut ph, "\"phon");
    let ghost t0 = strings_view(tags@);
    tags.push(ph);
    assert(strings_view(tags@) =~= t0.push(seq!['"'] + found@[0]@ + "\"phon"@));
    let mut line = String::new();
    push_char(&mut line, '\t');
    push_char(&mut line, '"');
    push_str(&mut line, reading.base_form.as_str());
    push_char(&mut line, '"');
    push_char(&mut line, ' ');
    let joined = join_strings(&tags, ' ');
    push_str(&mut line, joined.as_str());
    assert(line@ =~= phon_line(reading@, found@[0]@));
    Step::Done(Some(line))
}

/// Every cohort's first reading has a `"…"phon` tag that can be cut.
pub open spec fn phon_stream_ok(items: Seq<ItemV>) -> bool {
    forall|j: int|
        0 <= j < items.len() ==> (#[trigger] items[j] matches Ok(BlockV::Cohort(c)) ==> (c.readings.len() > 0
            ==> phon_ok(c.readings[0])))
}

/// Transcribes each cohort of the CG-3 stream `text`; the other blocks are
/// written as they were.
pub fn process_cg3(answers: &Vec<Answer>, text: &str, tag_models: &Vec<String>) -> (s: Step<String>)
    requires
        !stream_panics(text@),
        lines_fit(text@),
        phon_stream_ok(blocks(text@)),
    ensures
        string_step(
            s,
            stream_out(blocks(text@), |c: CgCohortV| phon_result(answers_view(answers@), c, strings_view(tag_models@))),
        ),
{
    let ghost f = |c: CgCohortV| phon_result(answers_view(answers@), c, strings_view(tag_models@));
    let output = Output::new(text);
    let items = output.iter();
    let ghost iv = items_view(items@);
    let mut out = String::new();
    let mut j: usize = 0;
    assert(iv.skip(0) =~= iv);
    while j < items.len()
        invariant
            j <= items@.len(),
            iv == items_view(items@),
            iv == blocks(text@),
            f == |c: CgCohortV| phon_result(answers_view(answers@), c, strings_view(tag_models@)),
            phon_stream_ok(iv),
            stream_out(iv, f) == match stream_out(iv.skip(j as int), f) {
                StepV::Need(t, q) => StepV::Need(t, q),
                StepV::Done(b) => StepV::Done(out@ + b),
            },
        decreases items@.len() - j,
    {
        let ghost rest = iv.skip(j as int);
        assert(rest[0] == iv[j as int]);
        assert(rest.drop_first() =~= iv.skip(j + 1));
        assert(iv[j as int] == crate::cg3::item_view(items@[j as int]));
        let ghost o0 = out@;
        match &items[j] {
            Err(_) => {
                assert(o0 + Seq::<char>::empty() =~= o0);
            },
            Ok(b) => {
                match b {
                    Block::Cohort(c) => {
                        assert(iv[j as int] matches Ok(BlockV::Cohort(cv)) ==> (cv.readings.len() > 0 ==> phon_ok(cv.readings[0])));
                        match process_cohort(answers, c, tag_models) {
                            Step::Need(q) => return Step::Need(q),
                            Step::Done(res) => {
                                write_block(&mut out, b, res);
                            },
                        }
                    },
                    _ => {
                        write_block(&mut out, b, None);
                    },
                }
                proof {
                    match block_out(b@, match b@ { BlockV::Cohort(c) => f(c), _ => StepV::Done(None) }) {
                        StepV::Done(a) => {
                            match stream_out(iv.skip(j + 1), f) {
                                StepV::Done(x) => {
                                    assert(o0 + (a + x) =~= out@ + x);
                                },
                                _ => {},
                            }
                        },
                        _ => {},
                    }
                }
            },
        }
        j = j + 1;
    }
    assert(iv.skip(j as int) =~= Seq::<ItemV>::empty());
    assert(out@ + Seq::<char>::empty() =~= out@);
    Step::Done(out)
}

/// Whether every cohort of the stream `text` can be transcribed.
pub fn stream_transcribable(text: &str) -> (b: bool)
    requires
        !stream_panics(text@),
        lines_fit(text@),
    ensures
        b == phon_stream_ok(blocks(text@)),
{
    let output = Output::new(text);
    let items = output.iter();
    let ghost iv = items_view(items@);
    let mut j: usize = 0;
    while j < items.len()
        invariant
            j <= items@.len(),
            iv == items_view(items@),
            iv == blocks(text@),
            forall|t: int|
                0 <= t < j ==> (#[trigger] iv[t] matches Ok(BlockV::Cohort(c)) ==> (c.readings.len() > 0 ==> phon_ok(
                    c.readings[0],
                ))),
        decreases items@.len() - j,
    {
        assert(iv[j as int] == crate::cg3::item_view(items@[j as int]));
        match &items[j] {
            Ok(Block::Cohort(c)) => {
                if c.readings.len() > 0 {
                    let r = &c.readings[0];
                    assert(c@.readings[0] == r@);
                    let ok = match find_tag(&r.tags, true) {
                        Some(i) => {
                            let tc = chars_of(r.tags[i].as_str());
                            tc.len() >= 6 && (tc[0] as u32) < 0x80
                        },
                        None => true,
                    };
                    if !ok {
                        assert(!(iv[j as int] matches Ok(BlockV::Cohort(cv)) ==> (cv.readings.len() > 0 ==> phon_ok(cv.readings[0]))));
                        return false;
                    }
                }
            },
            _ => {},
        }
        j = j + 1;
    }
    true
}

} // verus!
