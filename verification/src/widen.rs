//! What stretching overlapping errors over each other does to each error:
//! the errors come out in another order, each one widened within the text.
use vstd::prelude::*;
use crate::fluent::{boundary, lemma_boundary, str_get};
use crate::suggest::{
    all_valid, back_fold, err_key, expanded, extend_left, extend_right, fwd_fold, insert_by,
    lemma_boundary_order_rev, lemma_get_some, lemma_str_get_join, sort_by, span_valid, step_left, step_right, ErrMarkV,
};

verus! {

/// `w` is `e` widened within `text`: the same error id and message, a span
/// that holds the span of `e`, and the text it gained before and after that
/// span put around the form of `e` and around each of its replacements.
pub open spec fn widened(e: ErrMarkV, w: ErrMarkV, text: Seq<char>) -> bool {
    let left = str_get(text, w.beg as int, e.beg as int);
    let right = str_get(text, e.end as int, w.end as int);
    &&& w.err == e.err
    &&& w.msg == e.msg
    &&& w.beg <= e.beg
    &&& e.end <= w.end
    &&& left is Some
    &&& right is Some
    &&& w.form == left->Some_0 + e.form + right->Some_0
    &&& w.rep == e.rep.map_values(|r: Seq<char>| left->Some_0 + r + right->Some_0)
}

/// `p` puts `0..n` in some order.
pub open spec fn is_perm(p: Seq<int>, n: nat) -> bool {
    &&& p.len() == n
    &&& forall|k: int| 0 <= k < n ==> 0 <= #[trigger] p[k] < n
    &&& forall|a: int, b: int| 0 <= a < b < n ==> #[trigger] p[a] != #[trigger] p[b]
}

proof fn lemma_widened_refl(e: ErrMarkV, text: Seq<char>)
    requires
        span_valid(text, e),
    ensures
        widened(e, e, text),
{
    lemma_boundary(text, e.beg as int);
    lemma_boundary(text, e.end as int);
    let i = boundary(text, e.beg as int)->Some_0;
    let j = boundary(text, e.end as int)->Some_0;
    assert(str_get(text, e.beg as int, e.beg as int) == Some(text.subrange(i, i)));
    assert(str_get(text, e.end as int, e.end as int) == Some(text.subrange(j, j)));
    assert(text.subrange(i, i) =~= Seq::<char>::empty());
    assert(text.subrange(j, j) =~= Seq::<char>::empty());
    let l = Seq::<char>::empty();
    assert(e.form =~= l + e.form + l);
    assert(e.rep =~= e.rep.map_values(|r: Seq<char>| l + r + l)) by {
        assert forall|k: int| 0 <= k < e.rep.len() implies e.rep[k] == l + e.rep[k] + l by {
            assert(e.rep[k] =~= l + e.rep[k] + l);
        }
    }
}

proof fn lemma_widened_valid(e: ErrMarkV, w: ErrMarkV, text: Seq<char>)
    requires
        span_valid(text, e),
        widened(e, w, text),
    ensures
        span_valid(text, w),
{
    lemma_boundary_order_rev(text, e.beg as int, e.end as int);
    assert(boundary(text, w.beg as int) is Some);
    assert(boundary(text, w.end as int) is Some);
    lemma_get_some(text, w.beg as int, w.end as int);
}

proof fn lemma_widened_trans(e: ErrMarkV, w1: ErrMarkV, w2: ErrMarkV, text: Seq<char>)
    requires
        widened(e, w1, text),
        widened(w1, w2, text),
    ensures
        widened(e, w2, text),
{
    let l1 = str_get(text, w1.beg as int, e.beg as int)->Some_0;
    let r1 = str_get(text, e.end as int, w1.end as int)->Some_0;
    let l2 = str_get(text, w2.beg as int, w1.beg as int)->Some_0;
    let r2 = str_get(text, w1.end as int, w2.end as int)->Some_0;
    lemma_str_get_join(text, w2.beg as int, w1.beg as int, e.beg as int);
    lemma_str_get_join(text, e.end as int, w1.end as int, w2.end as int);
    let l = l2 + l1;
    let r = r1 + r2;
    assert(w2.form =~= l + e.form + r);
    assert(w2.rep =~= e.rep.map_values(|x: Seq<char>| l + x + r)) by {
        assert forall|k: int| 0 <= k < e.rep.len() implies w2.rep[k] == l + e.rep[k] + r by {
            assert(w1.rep[k] == l1 + e.rep[k] + r1);
            assert(w2.rep[k] == l2 + w1.rep[k] + r2);
            assert(l2 + (l1 + e.rep[k] + r1) + r2 =~= l + e.rep[k] + r);
        }
    }
}

proof fn lemma_step_left_widens(e: ErrMarkV, f: ErrMarkV, text: Seq<char>)
    requires
        span_valid(text, e),
        span_valid(text, f),
    ensures
        widened(e, step_left(e, f, text), text),
{
    if f.beg < e.beg && f.end >= e.beg {
        lemma_widened_refl(e, text);
        assert(boundary(text, f.beg as int) is Some);
        assert(boundary(text, e.beg as int) is Some);
        lemma_get_some(text, f.beg as int, e.beg as int);
        let add = str_get(text, f.beg as int, e.beg as int)->Some_0;
        let none = str_get(text, e.end as int, e.end as int)->Some_0;
        assert(none =~= Seq::<char>::empty());
        let w = step_left(e, f, text);
        assert(w.form =~= add + e.form + none);
        assert(w.rep =~= e.rep.map_values(|r: Seq<char>| add + r + none)) by {
            assert forall|k: int| 0 <= k < e.rep.len() implies w.rep[k] == add + e.rep[k] + none by {
                assert(add + e.rep[k] =~= add + e.rep[k] + none);
            }
        }
    } else {
        lemma_widened_refl(e, text);
    }
}

proof fn lemma_step_right_widens(e: ErrMarkV, f: ErrMarkV, text: Seq<char>)
    requires
        span_valid(text, e),
        span_valid(text, f),
    ensures
        widened(e, step_right(e, f, text), text),
{
    if f.end > e.end && f.beg <= e.end {
        lemma_widened_refl(e, text);
        assert(boundary(text, f.end as int) is Some);
        assert(boundary(text, e.end as int) is Some);
        lemma_get_some(text, e.end as int, f.end as int);
        let add = str_get(text, e.end as int, f.end as int)->Some_0;
        let none = str_get(text, e.beg as int, e.beg as int)->Some_0;
        assert(none =~= Seq::<char>::empty());
        let w = step_right(e, f, text);
        assert(w.form =~= none + e.form + add);
        assert(w.rep =~= e.rep.map_values(|r: Seq<char>| none + r + add)) by {
            assert forall|k: int| 0 <= k < e.rep.len() implies w.rep[k] == none + e.rep[k] + add by {
                assert(e.rep[k] + add =~= none + e.rep[k] + add);
            }
        }
    } else {
        lemma_widened_refl(e, text);
    }
}

proof fn lemma_extend_left_widens(e: ErrMarkV, fs: Seq<ErrMarkV>, text: Seq<char>)
    requires
        span_valid(text, e),
        all_valid(text, fs),
    ensures
        widened(e, extend_left(e, fs, text), text),
    decreases fs.len(),
{
    if fs.len() == 0 {
        lemma_widened_refl(e, text);
    } else {
        assert(span_valid(text, fs[fs.len() - 1]));
        let e1 = step_left(e, fs.last(), text);
        lemma_step_left_widens(e, fs.last(), text);
        lemma_widened_valid(e, e1, text);
        let d = fs.drop_last();
        assert forall|k: int| 0 <= k < d.len() implies span_valid(text, #[trigger] d[k]) by {
            assert(d[k] == fs[k]);
        }
        lemma_extend_left_widens(e1, d, text);
        lemma_widened_trans(e, e1, extend_left(e1, d, text), text);
    }
}

proof fn lemma_extend_right_widens(e: ErrMarkV, fs: Seq<ErrMarkV>, text: Seq<char>)
    requires
        span_valid(text, e),
        all_valid(text, fs),
    ensures
        widened(e, extend_right(e, fs, text), text),
    decreases fs.len(),
{
    if fs.len() == 0 {
        lemma_widened_refl(e, text);
    } else {
        let d = fs.drop_last();
        assert forall|k: int| 0 <= k < d.len() implies span_valid(text, #[trigger] d[k]) by {
            assert(d[k] == fs[k]);
        }
        lemma_extend_right_widens(e, d, text);
        let e1 = extend_right(e, d, text);
        lemma_widened_valid(e, e1, text);
        assert(span_valid(text, fs[fs.len() - 1]));
        lemma_step_right_widens(e1, fs.last(), text);
        lemma_widened_trans(e, e1, step_right(e1, fs.last(), text), text);
    }
}

proof fn lemma_back_widens(s: Seq<ErrMarkV>, k: nat, text: Seq<char>)
    requires
        all_valid(text, s),
        k <= s.len(),
    ensures
        back_fold(s, k, text).len() == s.len(),
        forall|q: int| 0 <= q < s.len() ==> widened(s[q], #[trigger] back_fold(s, k, text)[q], text),
    decreases k,
{
    if k <= 1 {
        assert forall|q: int| 0 <= q < s.len() implies widened(s[q], #[trigger] back_fold(s, k, text)[q], text) by {
            lemma_widened_refl(s[q], text);
        }
    } else {
        lemma_back_widens(s, (k - 1) as nat, text);
        let t = back_fold(s, (k - 1) as nat, text);
        let i = k - 1;
        assert forall|q: int| 0 <= q < t.len() implies span_valid(text, #[trigger] t[q]) by {
            lemma_widened_valid(s[q], t[q], text);
        }
        let head = t.take(i);
        assert forall|q: int| 0 <= q < head.len() implies span_valid(text, #[trigger] head[q]) by {
            assert(head[q] == t[q]);
        }
        lemma_extend_left_widens(t[i], head, text);
        lemma_widened_trans(s[i], t[i], extend_left(t[i], head, text), text);
    }
}

proof fn lemma_fwd_widens(s: Seq<ErrMarkV>, m: nat, text: Seq<char>)
    requires
        all_valid(text, s),
        m < s.len(),
    ensures
        fwd_fold(s, m, text).len() == s.len(),
        forall|q: int| 0 <= q < s.len() ==> widened(s[q], #[trigger] fwd_fold(s, m, text)[q], text),
    decreases m,
{
    if m == 0 {
        assert forall|q: int| 0 <= q < s.len() implies widened(s[q], #[trigger] fwd_fold(s, m, text)[q], text) by {
            lemma_widened_refl(s[q], text);
        }
    } else {
        lemma_fwd_widens(s, (m - 1) as nat, text);
        let t = fwd_fold(s, (m - 1) as nat, text);
        let i = s.len() - 1 - m;
        assert forall|q: int| 0 <= q < t.len() implies span_valid(text, #[trigger] t[q]) by {
            lemma_widened_valid(s[q], t[q], text);
        }
        let tail = t.skip(i + 1);
        assert forall|q: int| 0 <= q < tail.len() implies span_valid(text, #[trigger] tail[q]) by {
            assert(tail[q] == t[q + i + 1]);
        }
        lemma_extend_right_widens(t[i], tail, text);
        lemma_widened_trans(s[i], t[i], extend_right(t[i], tail, text), text);
    }
}

proof fn lemma_insert_at(s: Seq<ErrMarkV>, x: ErrMarkV, by_end: bool) -> (j: int)
    ensures
        0 <= j <= s.len(),
        insert_by(s, x, by_end).len() == s.len() + 1,
        insert_by(s, x, by_end)[j] == x,
        forall|k: int| 0 <= k < j ==> #[trigger] insert_by(s, x, by_end)[k] == s[k],
        forall|k: int| j < k <= s.len() ==> #[trigger] insert_by(s, x, by_end)[k] == s[k - 1],
    decreases s.len(),
{
    if s.len() == 0 || err_key(s.last(), by_end) <= err_key(x, by_end) {
        s.len() as int
    } else {
        let d = s.drop_last();
        let j = lemma_insert_at(d, x, by_end);
        let r = insert_by(d, x, by_end);
        assert(insert_by(s, x, by_end) == r.push(s.last()));
        assert forall|k: int| 0 <= k < j implies #[trigger] insert_by(s, x, by_end)[k] == s[k] by {
            assert(r.push(s.last())[k] == r[k]);
        }
        assert forall|k: int| j < k <= s.len() implies #[trigger] insert_by(s, x, by_end)[k] == s[k - 1] by {
            if k < s.len() {
                assert(r.push(s.last())[k] == r[k]);
            }
        }
        j
    }
}

proof fn lemma_sort_perm(s: Seq<ErrMarkV>, by_end: bool) -> (p: Seq<int>)
    ensures
        is_perm(p, s.len()),
        sort_by(s, by_end).len() == s.len(),
        forall|k: int| 0 <= k < s.len() ==> #[trigger] sort_by(s, by_end)[k] == s[p[k]],
    decreases s.len(),
{
    if s.len() == 0 {
        Seq::empty()
    } else {
        let n = s.len() as int;
        let d = s.drop_last();
        let p0 = lemma_sort_perm(d, by_end);
        let j = lemma_insert_at(sort_by(d, by_end), s.last(), by_end);
        let p = Seq::new(
            n as nat,
            |k: int|
                if k < j {
                    p0[k]
                } else if k == j {
                    n - 1
                } else {
                    p0[k - 1]
                },
        );
        assert forall|k: int| 0 <= k < n implies #[trigger] sort_by(s, by_end)[k] == s[p[k]] by {
            if k < j {
                assert(d[p0[k]] == s[p0[k]]);
            } else if k > j {
                assert(d[p0[k - 1]] == s[p0[k - 1]]);
            }
        }
        assert forall|a: int, b: int| 0 <= a < b < n implies #[trigger] p[a] != #[trigger] p[b] by {
            if a != j && b != j {
                let a0 = if a < j { a } else { a - 1 };
                let b0 = if b < j { b } else { b - 1 };
                assert(a0 < b0);
                assert(p0[a0] != p0[b0]);
            } else if a == j {
                let b0 = b - 1;
                assert(0 <= p0[b0] < n - 1);
            } else {
                assert(0 <= p0[a] < n - 1);
            }
        }
        p
    }
}

/// Stretching overlapping errors over each other keeps every error and
/// only widens it: the errors come out in some order of the errors that
/// went in, each with the same id and message, a span that holds its old
/// span, and the text it gained on either side put around its old form and
/// around each of its replacements. Fewer than two errors stay as they are.
pub proof fn lemma_expand_widens(s: Seq<ErrMarkV>, text: Seq<char>)
    requires
        all_valid(text, s),
    ensures
        expanded(s, text).len() == s.len(),
        exists|p: Seq<int>|
            is_perm(p, s.len()) && forall|k: int|
                0 <= k < s.len() ==> widened(s[p[k]], #[trigger] expanded(s, text)[k], text),
        s.len() < 2 ==> expanded(s, text) == s,
{
    let n = s.len();
    if n < 2 {
        let p = Seq::new(n, |k: int| k);
        assert forall|k: int| 0 <= k < n implies widened(s[p[k]], #[trigger] expanded(s, text)[k], text) by {
            lemma_widened_refl(s[k], text);
        }
        assert(is_perm(p, n));
    } else {
        let p1 = lemma_sort_perm(s, false);
        let s1 = sort_by(s, false);
        assert forall|q: int| 0 <= q < n implies span_valid(text, #[trigger] s1[q]) by {
            assert(s1[q] == s[p1[q]]);
        }
        lemma_back_widens(s1, n, text);
        let b = back_fold(s1, n, text);
        assert forall|q: int| 0 <= q < n implies span_valid(text, #[trigger] b[q]) by {
            lemma_widened_valid(s1[q], b[q], text);
        }
        let p2 = lemma_sort_perm(b, true);
        let s2 = sort_by(b, true);
        assert forall|q: int| 0 <= q < n implies span_valid(text, #[trigger] s2[q]) by {
            assert(s2[q] == b[p2[q]]);
        }
        lemma_fwd_widens(s2, (n - 1) as nat, text);
        let f = fwd_fold(s2, (n - 1) as nat, text);
        assert(f == expanded(s, text));
        let p = Seq::new(n, |k: int| p1[p2[k]]);
        assert forall|k: int| 0 <= k < n implies widened(s[p[k]], #[trigger] expanded(s, text)[k], text) by {
            let q = p2[k];
            assert(s2[k] == b[q]);
            assert(widened(s1[q], b[q], text));
            assert(s1[q] == s[p1[q]]);
            lemma_widened_trans(s[p1[q]], s2[k], f[k], text);
        }
        assert forall|a: int, c: int| 0 <= a < c < n implies #[trigger] p[a] != #[trigger] p[c] by {
            assert(p2[a] != p2[c]);
        }
        assert(is_perm(p, n));
    }
}

} // verus!
