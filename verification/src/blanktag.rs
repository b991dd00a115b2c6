//! Blank tags on a CG-3 stream: each cohort's readings get the tags that a
//! whitespace transducer gives for the cohort in its context, the blanks
//! before and after it (the sentence start and end marked). The blanks are
//! passed on, plain text lines marked with `;`.
use vstd::prelude::*;
use crate::cg3::{
    blocks, header_line, items_view, join_lines, lines_fit, reading_text, stream_panics, tags_text, Block, BlockV,
    Cohort as CgCohort, CohortV as CgCohortV, ItemV, Output, ReadingV as CgReadingV,
};
use crate::text::{push_char, push_str, str_eq, strings_view};

verus! {

broadcast use vstd::string::group_string_axioms;

/// The text of the sentence-start and sentence-end markers, which only the
/// transducer sees.
pub open spec fn is_marker(t: Seq<char>) -> bool {
    t == "__DIVVUN_BOS__"@ || t == "__DIVVUN_EOS__"@
}

/// Blanks as they are passed on: a text line marked with `;`, a superblank
/// with its `:`, a stream command as it is; the markers are dropped.
pub open spec fn blanks_text(bs: Seq<BlockV>) -> Seq<char>
    decreases bs.len(),
{
    if bs.len() == 0 {
        Seq::empty()
    } else {
        blanks_text(bs.drop_last()) + match bs.last() {
            BlockV::Text(t) => if is_marker(t) {
                Seq::empty()
            } else {
                seq![';'] + t + seq!['\n']
            },
            BlockV::Escaped(e) => seq![':'] + e + seq!['\n'],
            BlockV::StreamCmd(c) => c + seq!['\n'],
            BlockV::Cohort(_) => Seq::empty(),
        }
    }
}

/// The text the transducer reads of blanks: their superblanks and text
/// lines, markers included.
pub open spec fn lookup_part(bs: Seq<BlockV>) -> Seq<char>
    decreases bs.len(),
{
    if bs.len() == 0 {
        Seq::empty()
    } else {
        lookup_part(bs.drop_last()) + match bs.last() {
            BlockV::Text(t) => t,
            BlockV::Escaped(e) => e,
            _ => Seq::empty(),
        }
    }
}

/// What the transducer is asked about a cohort: the blanks before it, its
/// form as `"<form>"`, the blanks after it.
pub open spec fn lookup_text(pre: Seq<BlockV>, post: Seq<BlockV>, wf: Seq<char>) -> Seq<char> {
    lookup_part(pre) + seq!['"', '<'] + wf + seq!['>', '"'] + lookup_part(post)
}

/// A reading line with the blank tags added; a reading a traced grammar
/// removed is passed on as it is.
pub open spec fn tagged_reading(r: CgReadingV, tags: Seq<Seq<char>>) -> Seq<char> {
    if r.removed {
        reading_text(r)
    } else {
        reading_text(r) + tags_text(tags)
    }
}

pub open spec fn tagged_readings(rs: Seq<CgReadingV>, tags: Seq<Seq<char>>) -> Seq<char>
    decreases rs.len(),
{
    if rs.len() == 0 {
        Seq::empty()
    } else {
        tagged_readings(rs.drop_last(), tags) + tagged_reading(rs.last(), tags) + seq!['\n']
    }
}

/// A cohort with its blank tags; nothing for a cohort without a form.
pub open spec fn cohort_out(c: CgCohortV, tags: Seq<Seq<char>>) -> Seq<char> {
    if c.word_form.len() == 0 {
        Seq::empty()
    } else {
        seq!['"', '<'] + c.word_form + seq!['>', '"', '\n'] + tagged_readings(c.readings, tags)
    }
}

/// The tags of the `k`th cohort processed (none where they are not given).
pub open spec fn tags_at(tags: Seq<Seq<Seq<char>>>, k: nat) -> Seq<Seq<char>> {
    if k < tags.len() {
        tags[k as int]
    } else {
        Seq::empty()
    }
}

/// The state of the walk: the output so far, the blanks before and after
/// the cohort being held, that cohort, the number of cohorts processed, and
/// what the transducer is asked for each of them.
pub struct BtV {
    pub out: Seq<char>,
    pub pre: Seq<BlockV>,
    pub post: Seq<BlockV>,
    pub cur: Option<CgCohortV>,
    pub k: nat,
    pub asks: Seq<Option<Seq<char>>>,
}

pub open spec fn ask_for(pre: Seq<BlockV>, post: Seq<BlockV>, c: CgCohortV) -> Option<Seq<char>> {
    if c.word_form.len() == 0 {
        None
    } else {
        Some(lookup_text(pre, post, c.word_form))
    }
}

/// One item of the stream: a cohort lets the one held out (after the
/// blanks before it) and is held in its turn; a blank joins the blanks
/// before the held cohort, or after it; an error is skipped.
pub open spec fn bt_step(st: BtV, item: ItemV, tags: Seq<Seq<Seq<char>>>) -> BtV {
    match item {
        Err(_) => st,
        Ok(BlockV::Cohort(c)) => match st.cur {
            Some(c0) => BtV {
                out: st.out + blanks_text(st.pre) + cohort_out(c0, tags_at(tags, st.k)),
                pre: st.post,
                post: Seq::empty(),
                cur: Some(c),
                k: st.k + 1,
                asks: st.asks.push(ask_for(st.pre, st.post, c0)),
            },
            None => BtV { cur: Some(c), ..st },
        },
        Ok(b) => if st.cur is None {
            BtV { pre: st.pre.push(b), ..st }
        } else {
            BtV { post: st.post.push(b), ..st }
        },
    }
}

pub open spec fn bt_fold(items: Seq<ItemV>, tags: Seq<Seq<Seq<char>>>) -> BtV
    decreases items.len(),
{
    if items.len() == 0 {
        BtV {
            out: Seq::empty(),
            pre: seq![BlockV::Text("__DIVVUN_BOS__"@)],
            post: Seq::empty(),
            cur: None,
            k: 0,
            asks: Seq::empty(),
        }
    } else {
        bt_step(bt_fold(items.drop_last(), tags), items.last(), tags)
    }
}

pub open spec fn empty_cohort() -> CgCohortV {
    CgCohortV { word_form: Seq::empty(), readings: Seq::empty() }
}

pub open spec fn last_cohort(st: BtV) -> CgCohortV {
    match st.cur {
        Some(c) => c,
        None => empty_cohort(),
    }
}

/// The tagged stream, `tags[k]` being the tags the transducer gave for the
/// `k`th cohort: the last cohort is processed with the sentence-end marker
/// after it, then the blanks after it follow.
pub open spec fn tagged_stream(items: Seq<ItemV>, tags: Seq<Seq<Seq<char>>>) -> Seq<char> {
    let st = bt_fold(items, tags);
    let post = st.post.push(BlockV::Text("__DIVVUN_EOS__"@));
    st.out + blanks_text(st.pre) + cohort_out(last_cohort(st), tags_at(tags, st.k)) + if post.len() > 1 {
        blanks_text(post)
    } else {
        Seq::empty()
    }
}

/// What the transducer is asked for each cohort processed, in order (`None`
/// for a cohort without a form, which is not asked about).
pub open spec fn lookup_asks(items: Seq<ItemV>) -> Seq<Option<Seq<char>>> {
    let st = bt_fold(items, Seq::empty());
    let post = st.post.push(BlockV::Text("__DIVVUN_EOS__"@));
    st.asks.push(ask_for(st.pre, post, last_cohort(st)))
}

/// Only the output depends on the tags.
proof fn lemma_fold_tags(items: Seq<ItemV>, t1: Seq<Seq<Seq<char>>>, t2: Seq<Seq<Seq<char>>>)
    ensures
        bt_fold(items, t1).pre == bt_fold(items, t2).pre,
        bt_fold(items, t1).post == bt_fold(items, t2).post,
        bt_fold(items, t1).cur == bt_fold(items, t2).cur,
        bt_fold(items, t1).k == bt_fold(items, t2).k,
        bt_fold(items, t1).asks == bt_fold(items, t2).asks,
    decreases items.len(),
{
    if items.len() > 0 {
        lemma_fold_tags(items.drop_last(), t1, t2);
    }
}

/// Whether a text line is a sentence marker.
fn is_marker_exec(t: &str) -> (b: bool)
    ensures
        b == is_marker(t@),
{
    str_eq(t, "__DIVVUN_BOS__") || str_eq(t, "__DIVVUN_EOS__")
}

/// A blank as it is passed on.
fn blank_emit(b: &Block) -> (s: String)
    ensures
        s@ == blanks_text(seq![b@]),
{
    let mut s = String::new();
    match b {
        Block::Text(t) => {
            if !is_marker_exec(t.as_str()) {
                push_char(&mut s, ';');
                push_str(&mut s, t.as_str());
                push_char(&mut s, '\n');
            }
        },
        Block::Escaped(e) => {
            push_char(&mut s, ':');
            push_str(&mut s, e.as_str());
            push_char(&mut s, '\n');
        },
        Block::StreamCmd(c) => {
            push_str(&mut s, c.as_str());
            push_char(&mut s, '\n');
        },
        Block::Cohort(_) => {},
    }
    assert(seq![b@].drop_last() =~= Seq::<BlockV>::empty());
    assert(seq![b@].last() == b@);
    assert(blanks_text(Seq::<BlockV>::empty()) =~= Seq::<char>::empty());
    assert(s@ =~= blanks_text(seq![b@]));
    s
}

/// The text of a blank that the transducer reads.
fn blank_look(b: &Block) -> (s: String)
    ensures
        s@ == lookup_part(seq![b@]),
{
    let mut s = String::new();
    match b {
        Block::Text(t) => {
            push_str(&mut s, t.as_str());
        },
        Block::Escaped(e) => {
            push_str(&mut s, e.as_str());
        },
        _ => {},
    }
    assert(seq![b@].drop_last() =~= Seq::<BlockV>::empty());
    assert(seq![b@].last() == b@);
    assert(lookup_part(Seq::<BlockV>::empty()) =~= Seq::<char>::empty());
    assert(s@ =~= lookup_part(seq![b@]));
    s
}

proof fn lemma_blanks_push(bs: Seq<BlockV>, b: BlockV)
    ensures
        blanks_text(bs.push(b)) == blanks_text(bs) + blanks_text(seq![b]),
        lookup_part(bs.push(b)) == lookup_part(bs) + lookup_part(seq![b]),
{
    assert(bs.push(b).drop_last() =~= bs);
    assert(seq![b].drop_last() =~= Seq::<BlockV>::empty());
    assert(blanks_text(Seq::<BlockV>::empty()) =~= Seq::<char>::empty());
    assert(lookup_part(Seq::<BlockV>::empty()) =~= Seq::<char>::empty());
}

/// A cohort with the blank tags `tags` added to its readings.
pub fn process_cohort(cohort: &CgCohort, tags: &Vec<String>) -> (s: String)
    ensures
        s@ == cohort_out(cohort@, strings_view(tags@)),
{
    let mut s = String::new();
    if cohort.word_form.as_str().is_empty() {
        return s;
    }
    push_char(&mut s, '"');
    push_char(&mut s, '<');
    push_str(&mut s, cohort.word_form.as_str());
    push_char(&mut s, '>');
    push_char(&mut s, '"');
    push_char(&mut s, '\n');
    let ghost head = s@;
    assert(head =~= seq!['"', '<'] + cohort@.word_form + seq!['>', '"', '\n']);
    let ghost tv = strings_view(tags@);
    let ghost rs = cohort@.readings;
    let mut tail = String::new();
    let mut k: usize = 0;
    while k < tags.len()
        invariant
            k <= tags@.len(),
            tv == strings_view(tags@),
            tail@ == tags_text(tv.take(k as int)),
        decreases tags@.len() - k,
    {
        push_char(&mut tail, ' ');
        push_str(&mut tail, tags[k].as_str());
        assert(tv.take(k + 1).drop_last() =~= tv.take(k as int));
        k = k + 1;
    }
    assert(tv.take(tags@.len() as int) =~= tv);
    let mut i: usize = 0;
    assert(rs.take(0) =~= Seq::<CgReadingV>::empty());
    while i < cohort.readings.len()
        invariant
            i <= cohort.readings@.len(),
            rs == cohort@.readings,
            tail@ == tags_text(tv),
            s@ == head + tagged_readings(rs.take(i as int), tv),
        decreases cohort.readings@.len() - i,
    {
        let r = &cohort.readings[i];
        assert(rs[i as int] == r@);
        let line = r.to_cg_string();
        push_str(&mut s, line.as_str());
        if !r.removed {
            push_str(&mut s, tail.as_str());
        }
        push_char(&mut s, '\n');
        assert(rs.take(i + 1).drop_last() =~= rs.take(i as int));
        i = i + 1;
    }
    assert(rs.take(cohort.readings@.len() as int) =~= rs);
    s
}

/// The walk of the stream: its output with the tags `tags[k]` for the
/// `k`th cohort, and what the transducer is asked for each cohort.
fn walk(input: &str, tags: &Vec<Vec<String>>) -> (r: (String, Vec<Option<String>>))
    requires
        !stream_panics(input@),
        lines_fit(input@),
    ensures
        r.0@ == tagged_stream(blocks(input@), tags@.map_values(|v: Vec<String>| strings_view(v@))),
        r.1@.map_values(|o: Option<String>| crate::hfst::opt_view(o)) == lookup_asks(blocks(input@)),
{
    let ghost tg = tags@.map_values(|v: Vec<String>| strings_view(v@));
    let output = Output::new(input);
    let items = output.iter();
    let ghost iv = items_view(items@);
    let empty: Vec<String> = Vec::new();
    let mut out = String::new();
    let mut pre_emit = String::new();
    let mut pre_look = String::new();
    let bos = Block::Text("__DIVVUN_BOS__".to_string());
    push_str(&mut pre_emit, blank_emit(&bos).as_str());
    push_str(&mut pre_look, blank_look(&bos).as_str());
    let mut post_emit = String::new();
    let mut post_look = String::new();
    let mut post_len: usize = 0;
    let mut cur: Option<usize> = None;
    let mut k: usize = 0;
    let mut asks: Vec<Option<String>> = Vec::new();
    let ghost mut pre: Seq<BlockV> = seq![bos@];
    let ghost mut post: Seq<BlockV> = Seq::empty();
    assert(iv.take(0) =~= Seq::<ItemV>::empty());
    assert(seq![bos@].drop_last() =~= Seq::<BlockV>::empty());
    assert(blanks_text(Seq::<BlockV>::empty()) =~= Seq::<char>::empty());
    assert(lookup_part(Seq::<BlockV>::empty()) =~= Seq::<char>::empty());
    assert(asks@.map_values(|o: Option<String>| crate::hfst::opt_view(o)) =~= Seq::<Option<Seq<char>>>::empty());
    let mut j: usize = 0;
    while j < items.len()
        invariant
            j <= items@.len(),
            iv == items_view(items@),
            empty@.len() == 0,
            tg == tags@.map_values(|v: Vec<String>| strings_view(v@)),
            bt_fold(iv.take(j as int), tg) == (BtV {
                out: out@,
                pre,
                post,
                cur: match cur {
                    Some(i) => match iv[i as int] {
                        Ok(BlockV::Cohort(c)) => Some(c),
                        _ => None,
                    },
                    None => None,
                },
                k: k as nat,
                asks: asks@.map_values(|o: Option<String>| crate::hfst::opt_view(o)),
            }),
            cur matches Some(i) ==> i < items@.len() && iv[i as int] is Ok && iv[i as int]->Ok_0 is Cohort,
            pre_emit@ == blanks_text(pre),
            pre_look@ == lookup_part(pre),
            post_emit@ == blanks_text(post),
            post_look@ == lookup_part(post),
            post_len == post.len(),
            post_len <= j,
            k <= j,
        decreases items@.len() - j,
    {
        assert(iv.take(j + 1).drop_last() =~= iv.take(j as int));
        assert(iv.take(j + 1).last() == iv[j as int]);
        assert(iv[j as int] == crate::cg3::item_view(items@[j as int]));
        match &items[j] {
            Err(_) => {},
            Ok(Block::Cohort(c)) => {
                match cur {
                    Some(i) => {
                        let c0 = match &items[i] {
                            Ok(Block::Cohort(c0)) => c0,
                            _ => {
                                return (out, asks);
                            },
                        };
                        let t = if k < tags.len() {
                            &tags[k]
                        } else {
                            &empty
                        };
                        assert(strings_view(t@) == crate::blanktag::tags_at(tg, k as nat)) by {
                            if k < tags@.len() {
                                assert(tg[k as int] == strings_view(tags@[k as int]@));
                            } else {
                                assert(strings_view(empty@) =~= Seq::<Seq<char>>::empty());
                            }
                        }
                        push_str(&mut out, pre_emit.as_str());
                        push_str(&mut out, process_cohort(c0, t).as_str());
                        let ghost before = asks@;
                        if c0.word_form.as_str().is_empty() {
                            asks.push(None);
                        } else {
                            let mut q = pre_look.clone();
                            push_char(&mut q, '"');
                            push_char(&mut q, '<');
                            push_str(&mut q, c0.word_form.as_str());
                            push_char(&mut q, '>');
                            push_char(&mut q, '"');
                            push_str(&mut q, post_look.as_str());
                            assert(q@ =~= lookup_text(pre, post, c0@.word_form));
                            asks.push(Some(q));
                        }
                        assert(asks@.map_values(|o: Option<String>| crate::hfst::opt_view(o)) =~= before.map_values(
                            |o: Option<String>| crate::hfst::opt_view(o),
                        ).push(ask_for(pre, post, c0@)));
                        pre_emit = post_emit;
                        pre_look = post_look;
                        post_emit = String::new();
                        post_look = String::new();
                        post_len = 0;
                        proof {
                            pre = post;
                            post = Seq::empty();
                        }
                        k = k + 1;
                    },
                    None => {},
                }
                cur = Some(j);
            },
            Ok(b) => {
                let e = blank_emit(b);
                let l = blank_look(b);
                proof {
                    if cur is None {
                        lemma_blanks_push(pre, b@);
                    } else {
                        lemma_blanks_push(post, b@);
                    }
                }
                if cur.is_none() {
                    push_str(&mut pre_emit, e.as_str());
                    push_str(&mut pre_look, l.as_str());
                    proof {
                        pre = pre.push(b@);
                    }
                } else {
                    push_str(&mut post_emit, e.as_str());
                    push_str(&mut post_look, l.as_str());
                    post_len = post_len + 1;
                    proof {
                        post = post.push(b@);
                    }
                }
            },
        }
        j = j + 1;
    }
    assert(iv.take(items@.len() as int) =~= iv);
    let eos = Block::Text("__DIVVUN_EOS__".to_string());
    proof {
        lemma_blanks_push(post, eos@);
    }
    push_str(&mut post_emit, blank_emit(&eos).as_str());
    push_str(&mut post_look, blank_look(&eos).as_str());
    let ghost post2 = post.push(eos@);
    let t = if k < tags.len() {
        &tags[k]
    } else {
        &empty
    };
    assert(strings_view(t@) == crate::blanktag::tags_at(tg, k as nat)) by {
        if k < tags@.len() {
            assert(tg[k as int] == strings_view(tags@[k as int]@));
        } else {
            assert(strings_view(empty@) =~= Seq::<Seq<char>>::empty());
        }
    }
    push_str(&mut out, pre_emit.as_str());
    let empty_cohort = CgCohort { word_form: String::new(), readings: Vec::new() };
    let c = match cur {
        Some(i) => match &items[i] {
            Ok(Block::Cohort(c0)) => c0,
            _ => &empty_cohort,
        },
        None => &empty_cohort,
    };
    assert(empty_cohort@.readings =~= Seq::<CgReadingV>::empty());
    assert(empty_cohort@ == crate::blanktag::empty_cohort());
    push_str(&mut out, process_cohort(c, t).as_str());
    if post_len >= 1 {
        push_str(&mut out, post_emit.as_str());
    }
    let ghost before = asks@;
    if c.word_form.as_str().is_empty() {
        asks.push(None);
    } else {
        let mut q = pre_look.clone();
        push_char(&mut q, '"');
        push_char(&mut q, '<');
        push_str(&mut q, c.word_form.as_str());
        push_char(&mut q, '>');
        push_char(&mut q, '"');
        push_str(&mut q, post_look.as_str());
        assert(q@ =~= lookup_text(pre, post2, c@.word_form));
        asks.push(Some(q));
    }
    assert(asks@.map_values(|o: Option<String>| crate::hfst::opt_view(o)) =~= before.map_values(
        |o: Option<String>| crate::hfst::opt_view(o),
    ).push(ask_for(pre, post2, c@)));
    proof {
        lemma_fold_tags(iv, tg, Seq::empty());
    }
    (out, asks)
}

/// The stream with blank tags, `tags[k]` being the tags the whitespace
/// transducer gave for the `k`th cohort (see `lookup_requests`).
pub fn blanktag(input: &str, tags: &Vec<Vec<String>>) -> (s: String)
    requires
        !stream_panics(input@),
        lines_fit(input@),
    ensures
        s@ == tagged_stream(blocks(input@), tags@.map_values(|v: Vec<String>| strings_view(v@))),
{
    walk(input, tags).0
}

/// What the whitespace transducer is asked for each cohort of the stream,
/// in order: the blanks around it and its form (`None` for a cohort
/// without a form, which gets no tags).
pub fn lookup_requests(input: &str) -> (asks: Vec<Option<String>>)
    requires
        !stream_panics(input@),
        lines_fit(input@),
    ensures
        asks@.map_values(|o: Option<String>| crate::hfst::opt_view(o)) == lookup_asks(blocks(input@)),
{
    let none: Vec<Vec<String>> = Vec::new();
    walk(input, &none).1
}


proof fn lemma_tagged_readings_lines(rs: Seq<CgReadingV>, tags: Seq<Seq<char>>)
    ensures
        tagged_readings(rs, tags) == join_lines(
            Seq::new(rs.len(), |k: int| reading_text(rs[k]) + if rs[k].removed {
                Seq::empty()
            } else {
                tags_text(tags)
            }),
        ),
    decreases rs.len(),
{
    let ls = Seq::new(rs.len(), |k: int| reading_text(rs[k]) + if rs[k].removed {
        Seq::empty()
    } else {
        tags_text(tags)
    });
    if rs.len() > 0 {
        let d = rs.drop_last();
        lemma_tagged_readings_lines(d, tags);
        let ld = Seq::new(d.len(), |k: int| reading_text(d[k]) + if d[k].removed {
            Seq::empty()
        } else {
            tags_text(tags)
        });
        assert(ls.drop_last() =~= ld);
        let r = rs.last();
        assert(ls.last() == reading_text(r) + if r.removed {
            Seq::<char>::empty()
        } else {
            tags_text(tags)
        });
        if r.removed {
            assert(reading_text(r) + Seq::<char>::empty() =~= reading_text(r));
        }
    } else {
        assert(ls.len() == 0);
    }
}

/// Every reading of a cohort gets the blank tags, wherever it stands among
/// the readings: the cohort comes out as its header line and then, for each
/// reading in order, one line that is the reading's text followed by the
/// tags (a reading a traced grammar removed is passed on as it is). A cohort
/// without a form gives nothing.
pub proof fn lemma_every_reading_tagged(c: CgCohortV, tags: Seq<Seq<char>>)
    ensures
        c.word_form.len() == 0 ==> cohort_out(c, tags) == Seq::<char>::empty(),
        c.word_form.len() > 0 ==> cohort_out(c, tags) == header_line(c.word_form) + seq!['\n'] + join_lines(
            Seq::new(c.readings.len(), |k: int| reading_text(c.readings[k]) + if c.readings[k].removed {
                Seq::empty()
            } else {
                tags_text(tags)
            }),
        ),
{
    lemma_tagged_readings_lines(c.readings, tags);
    if c.word_form.len() > 0 {
        let ls = Seq::new(c.readings.len(), |k: int| reading_text(c.readings[k]) + if c.readings[k].removed {
            Seq::empty()
        } else {
            tags_text(tags)
        });
        assert(seq!['"', '<'] + c.word_form + seq!['>', '"', '\n'] + join_lines(ls) =~= header_line(
            c.word_form,
        ) + seq!['\n'] + join_lines(ls));
    }
}

} // verus!
