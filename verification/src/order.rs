//! Lexicographic order on character sequences: the order of `String`'s `Ord`
//! (UTF-8 keeps code point order byte by byte), and a sorted map from
//! strings to strings built on it.
use vstd::prelude::*;
use crate::text::chars_of;

verus! {

pub open spec fn seq_lt(a: Seq<char>, b: Seq<char>) -> bool
    decreases a.len(),
{
    if a.len() == 0 {
        b.len() > 0
    } else if b.len() == 0 {
        false
    } else if a[0] < b[0] {
        true
    } else if a[0] > b[0] {
        false
    } else {
        seq_lt(a.drop_first(), b.drop_first())
    }
}

pub proof fn lemma_seq_lt_trichotomy(a: Seq<char>, b: Seq<char>)
    ensures
        a == b || seq_lt(a, b) || seq_lt(b, a),
        !(seq_lt(a, b) && seq_lt(b, a)),
        !seq_lt(a, a),
    decreases a.len(),
{
    if a.len() > 0 && b.len() > 0 {
        lemma_seq_lt_trichotomy(a.drop_first(), b.drop_first());
        if a[0] == b[0] && a.drop_first() == b.drop_first() {
            assert(a =~= seq![a[0]] + a.drop_first());
            assert(b =~= seq![b[0]] + b.drop_first());
        }
        lemma_seq_lt_trichotomy(a.drop_first(), a.drop_first());
    } else if a.len() == 0 && b.len() == 0 {
        assert(a =~= b);
    } else if a.len() > 0 {
        lemma_seq_lt_trichotomy(a.drop_first(), a.drop_first());
    }
}

pub proof fn lemma_seq_lt_trans(a: Seq<char>, b: Seq<char>, c: Seq<char>)
    requires
        seq_lt(a, b),
        seq_lt(b, c),
    ensures
        seq_lt(a, c),
    decreases a.len(),
{
    if a.len() > 0 && b.len() > 0 && c.len() > 0 {
        if a[0] == b[0] && b[0] == c[0] {
            lemma_seq_lt_trans(a.drop_first(), b.drop_first(), c.drop_first());
        }
    }
}

/// -1, 0 or 1 as `a` is below, equal to, or above `b`.
pub fn compare_chars(a: &Vec<char>, b: &Vec<char>) -> (r: i8)
    ensures
        r == 0 <==> a@ == b@,
        r < 0 <==> seq_lt(a@, b@),
        r > 0 <==> seq_lt(b@, a@),
{
    proof {
        lemma_seq_lt_trichotomy(a@, b@);
    }
    let mut i: usize = 0;
    assert(a@.skip(0) =~= a@);
    assert(b@.skip(0) =~= b@);
    while i < a.len() && i < b.len()
        invariant
            i <= a@.len(),
            i <= b@.len(),
            a@.take(i as int) == b@.take(i as int),
            seq_lt(a@, b@) == seq_lt(a@.skip(i as int), b@.skip(i as int)),
            seq_lt(b@, a@) == seq_lt(b@.skip(i as int), a@.skip(i as int)),
        decreases a@.len() - i,
    {
        proof {
            assert(a@.skip(i as int).drop_first() =~= a@.skip(i + 1));
            assert(b@.skip(i as int).drop_first() =~= b@.skip(i + 1));
            assert(a@.skip(i as int)[0] == a@[i as int]);
            assert(b@.skip(i as int)[0] == b@[i as int]);
        }
        if a[i] < b[i] {
            return -1;
        }
        if a[i] > b[i] {
            return 1;
        }
        proof {
            assert(a@[i as int] == b@[i as int]);
            assert(a@.take(i + 1) =~= a@.take(i as int).push(a@[i as int]));
            assert(b@.take(i + 1) =~= b@.take(i as int).push(b@[i as int]));
        }
        i = i + 1;
    }
    if a.len() == b.len() {
        assert(a@ =~= a@.take(i as int));
        assert(b@ =~= b@.take(i as int));
        0
    } else if i == a.len() {
        assert(a@.skip(i as int).len() == 0);
        -1
    } else {
        assert(b@.skip(i as int).len() == 0);
        1
    }
}

/// Keys strictly increasing.
pub open spec fn keys_sorted(p: Seq<(Seq<char>, Seq<char>)>) -> bool {
    forall|i: int, j: int| 0 <= i < j < p.len() ==> seq_lt(#[trigger] p[i].0, #[trigger] p[j].0)
}

pub open spec fn pairs_view(v: Seq<(String, String)>) -> Seq<(Seq<char>, Seq<char>)> {
    v.map_values(|p: (String, String)| (p.0@, p.1@))
}

/// The pairs hold exactly the entries of `m`.
pub open spec fn pairs_are(p: Seq<(Seq<char>, Seq<char>)>, m: Map<Seq<char>, Seq<char>>) -> bool {
    &&& forall|i: int| 0 <= i < p.len() ==> #[trigger] m.contains_key(p[i].0) && m[p[i].0] == p[i].1
    &&& forall|k: Seq<char>| #[trigger] m.contains_key(k) ==> exists|i: int| 0 <= i < p.len() && p[i].0 == k
}

/// Inserting into a key-sorted list of pairs unless the key is there: what
/// `BTreeMap::entry(k).or_insert(v)` does to the map's ordered contents.
pub open spec fn ins_sorted(p: Seq<(Seq<char>, Seq<char>)>, k: Seq<char>, v: Seq<char>) -> Seq<
    (Seq<char>, Seq<char>),
>
    decreases p.len(),
{
    if p.len() == 0 {
        seq![(k, v)]
    } else if p[0].0 == k {
        p
    } else if seq_lt(k, p[0].0) {
        seq![(k, v)] + p
    } else {
        seq![p[0]] + ins_sorted(p.drop_first(), k, v)
    }
}

pub proof fn lemma_ins_sorted(p: Seq<(Seq<char>, Seq<char>)>, k: Seq<char>, v: Seq<char>, pos: int)
    requires
        0 <= pos <= p.len(),
        forall|j: int| 0 <= j < pos ==> seq_lt(#[trigger] p[j].0, k),
        pos < p.len() ==> (p[pos].0 == k || seq_lt(k, p[pos].0)),
    ensures
        pos < p.len() && p[pos].0 == k ==> ins_sorted(p, k, v) == p,
        !(pos < p.len() && p[pos].0 == k) ==> ins_sorted(p, k, v) == p.insert(pos, (k, v)),
    decreases pos,
{
    if pos == 0 {
        if p.len() == 0 {
            assert(p.insert(0, (k, v)) =~= seq![(k, v)]);
        } else if p[0].0 == k {
        } else {
            assert(p.insert(0, (k, v)) =~= seq![(k, v)] + p);
        }
    } else {
        lemma_seq_lt_trichotomy(p[0].0, k);
        assert(p[0].0 != k);
        assert(!seq_lt(k, p[0].0));
        let q = p.drop_first();
        assert forall|j: int| 0 <= j < pos - 1 implies seq_lt(#[trigger] q[j].0, k) by {
            assert(q[j] == p[j + 1]);
        }
        lemma_ins_sorted(q, k, v, pos - 1);
        if !(pos < p.len() && p[pos].0 == k) {
            assert(seq![p[0]] + q.insert(pos - 1, (k, v)) =~= p.insert(pos, (k, v)));
        } else {
            assert(seq![p[0]] + q =~= p);
        }
    }
}

/// Inserts `(key, value)` into a key-sorted vector unless `key` is there.
pub fn insert_absent(v: &mut Vec<(String, String)>, key: String, value: String)
    requires
        keys_sorted(pairs_view(old(v)@)),
    ensures
        keys_sorted(pairs_view(final(v)@)),
        pairs_view(final(v)@) == ins_sorted(pairs_view(old(v)@), key@, value@),
        (exists|i: int| 0 <= i < old(v)@.len() && old(v)@[i].0@ == key@) ==> final(v)@ == old(v)@,
        (forall|i: int| 0 <= i < old(v)@.len() ==> old(v)@[i].0@ != key@) ==> exists|p: int|
            0 <= p <= old(v)@.len() && final(v)@ == old(v)@.insert(p, (key, value)),
{
    let kc = chars_of(key.as_str());
    let mut p: usize = 0;
    let mut stop = false;
    let ghost pv = pairs_view(v@);
    while p < v.len() && !stop
        invariant
            p <= v@.len(),
            pv == pairs_view(v@),
            v@ == old(v)@,
            keys_sorted(pv),
            kc@ == key@,
            forall|j: int| 0 <= j < p ==> seq_lt(#[trigger] pv[j].0, key@),
            stop ==> p < v@.len() && seq_lt(key@, pv[p as int].0),
        decreases v@.len() - p + (if stop { 0int } else { 1int }),
    {
        let c = chars_of(v[p].0.as_str());
        let r = compare_chars(&c, &kc);
        if r == 0 {
            assert(old(v)@[p as int].0@ == key@);
            proof {
                lemma_ins_sorted(pv, key@, value@, p as int);
            }
            return;
        }
        if r > 0 {
            stop = true;
        } else {
            p = p + 1;
        }
    }
    proof {
        lemma_ins_sorted(pv, key@, value@, p as int);
        assert forall|i: int| 0 <= i < old(v)@.len() implies old(v)@[i].0@ != key@ by {
            lemma_seq_lt_trichotomy(key@, key@);
            if i < p {
                assert(seq_lt(pv[i].0, key@));
            } else {
                assert(stop);
                if i > p {
                    assert(seq_lt(pv[p as int].0, pv[i].0));
                    lemma_seq_lt_trans(key@, pv[p as int].0, pv[i].0);
                }
            }
        }
    }
    let ghost c_after: Option<Seq<char>> = if p < v@.len() { Some(pv[p as int].0) } else { None };
    let ghost kv = key@;
    let ghost vv = value@;
    v.insert(p, (key, value));
    proof {
        assert(pairs_view(v@) =~= pv.insert(p as int, (kv, vv)));
        assert forall|i: int, j: int| 0 <= i < j < pairs_view(v@).len() implies seq_lt(
            #[trigger] pairs_view(v@)[i].0,
            #[trigger] pairs_view(v@)[j].0,
        ) by {
            let q = pairs_view(v@);
            if j < p {
                assert(q[i] == pv[i] && q[j] == pv[j]);
            } else if j == p {
                assert(q[i] == pv[i]);
            } else if i == p {
                assert(q[j] == pv[j - 1]);
                let c = pv[p as int].0;
                assert(seq_lt(kv, c));
                if j - 1 > p {
                    lemma_seq_lt_trans(kv, c, pv[j - 1].0);
                }
            } else if i < p {
                assert(q[i] == pv[i] && q[j] == pv[j - 1]);
            } else {
                assert(q[i] == pv[i - 1] && q[j] == pv[j - 1]);
            }
        }
    }
}

} // verus!
