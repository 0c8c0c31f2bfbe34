//! Stable sorting by an integer key, as an order of positions.

use vstd::prelude::*;
use crate::text::{lemma_text_order, lemma_text_order_chain, sorts_before, text_before, views};

verus! {

/// Position `a` goes before position `b`: its key is smaller, or equal and it stood first.
pub open spec fn goes_before(keys: Seq<i128>, a: int, b: int) -> bool {
    keys[a] < keys[b] || (keys[a] == keys[b] && a < b)
}

/// Every position of `keys` occurs in `r`, and each goes before all that follow it.
pub open spec fn is_order(keys: Seq<i128>, r: Seq<usize>) -> bool {
    &&& r.len() == keys.len()
    &&& forall|i: int| 0 <= i < r.len() ==> 0 <= #[trigger] r[i] < keys.len()
    &&& forall|i: int, j: int|
        0 <= i < j < r.len() ==> goes_before(keys, #[trigger] r[i] as int, #[trigger] r[j] as int)
    &&& forall|k: usize| k < keys.len() ==> #[trigger] r.contains(k)
}

/// One more position goes behind those whose keys are not greater.
proof fn lemma_order_insert(keys: Seq<i128>, k: int, before: Seq<usize>, p: int)
    requires
        0 <= k < keys.len() <= usize::MAX,
        is_order(keys.take(k), before),
        0 <= p <= before.len(),
        forall|i: int| 0 <= i < p ==> keys[#[trigger] before[i] as int] <= keys[k],
        p < before.len() ==> keys[k] < keys[before[p] as int],
    ensures
        is_order(keys.take(k + 1), before.insert(p, k as usize)),
{
    let upto = keys.take(k);
    let next = keys.take(k + 1);
    let r = before.insert(p, k as usize);
    assert forall|i: int| p <= i < before.len() implies keys[k]
        < keys[#[trigger] before[i] as int] by {
        let a = before[p] as int;
        if i > p {
            assert(goes_before(upto, before[p] as int, before[i] as int));
        }
        assert(upto[a] == keys[a]);
        assert(upto[before[i] as int] == keys[before[i] as int]);
    }
    assert forall|i: int| 0 <= i < r.len() implies 0 <= #[trigger] r[i] < next.len() by {
        if i < p {
            assert(r[i] == before[i]);
        } else if i > p {
            assert(r[i] == before[i - 1]);
        }
    }
    assert forall|i: int, j: int| 0 <= i < j < r.len() implies goes_before(
        next,
        #[trigger] r[i] as int,
        #[trigger] r[j] as int,
    ) by {
        let a = if i < p {
            i
        } else {
            i - 1
        };
        let b = if j < p {
            j
        } else {
            j - 1
        };
        if i != p {
            assert(r[i] == before[a]);
            assert(upto[before[a] as int] == keys[before[a] as int]);
        }
        if j != p {
            assert(r[j] == before[b]);
            assert(upto[before[b] as int] == keys[before[b] as int]);
        }
        if i != p && j != p {
            assert(goes_before(upto, before[a] as int, before[b] as int));
        }
    }
    assert forall|q: usize| q < next.len() implies #[trigger] r.contains(q) by {
        if q == k {
            assert(r[p] == k);
        } else {
            assert(before.contains(q));
            let i = choose|i: int| 0 <= i < before.len() && before[i] == q;
            if i < p {
                assert(r[i] == q);
            } else {
                assert(r[i + 1] == q);
            }
        }
    }
}

/// The first place, `from` or later, whose key is greater than that of `k`.
spec fn first_greater(keys: Seq<i128>, k: int, o: Seq<usize>, from: int) -> int
    decreases o.len() - from,
{
    if from < 0 || from >= o.len() || keys[o[from] as int] > keys[k] {
        from
    } else {
        first_greater(keys, k, o, from + 1)
    }
}

proof fn lemma_first_greater(keys: Seq<i128>, k: int, o: Seq<usize>, from: int)
    requires
        0 <= from <= o.len(),
        forall|i: int| 0 <= i < from ==> keys[#[trigger] o[i] as int] <= keys[k],
    ensures
        ({
            let p = first_greater(keys, k, o, from);
            &&& 0 <= p <= o.len()
            &&& forall|i: int| 0 <= i < p ==> keys[#[trigger] o[i] as int] <= keys[k]
            &&& p < o.len() ==> keys[k] < keys[o[p] as int]
        }),
    decreases o.len() - from,
{
    if from < o.len() && !(keys[o[from] as int] > keys[k]) {
        lemma_first_greater(keys, k, o, from + 1);
    }
}

/// Every list of keys has such an order.
pub proof fn lemma_order_exists(keys: Seq<i128>)
    requires
        keys.len() <= usize::MAX,
    ensures
        exists|o: Seq<usize>| is_order(keys, o),
    decreases keys.len(),
{
    if keys.len() == 0 {
        let o = Seq::<usize>::empty();
        assert(is_order(keys, o));
    } else {
        let k = keys.len() - 1;
        lemma_order_exists(keys.take(k));
        let before = choose|o: Seq<usize>| is_order(keys.take(k), o);
        lemma_first_greater(keys, k, before, 0);
        lemma_order_insert(keys, k, before, first_greater(keys, k, before, 0));
        assert(keys.take(k + 1) =~= keys);
    }
}

/// The order of positions that sorts by key and leaves equal keys as they stood.
pub fn stable_order(keys: &[i128]) -> (r: Vec<usize>)
    ensures
        is_order(keys@, r@),
{
    let mut r: Vec<usize> = Vec::new();
    let n: usize = keys.len();
    for k in 0..n
        invariant
            n == keys@.len(),
            is_order(keys@.take(k as int), r@),
    {
        let mut p: usize = 0;
        let ghost antes = r@;
        let ghost upto = keys@.take(k as int);
        while p < r.len() && keys[r[p]] <= keys[k]
            invariant
                k < n,
                n == keys@.len(),
                p <= r@.len(),
                r@ == antes,
                upto == keys@.take(k as int),
                is_order(upto, antes),
                forall|i: int| 0 <= i < p ==> keys@[#[trigger] antes[i] as int] <= keys@[k as int],
            decreases r@.len() - p,
        {
            p = p + 1;
        }
        proof {
            lemma_order_insert(keys@, k as int, antes, p as int);
        }
        r.insert(p, k);
    }
    assert(keys@.take(n as int) =~= keys@);
    r
}

/// Positions in such an order are all different.
pub proof fn lemma_order_distinct(keys: Seq<i128>, r: Seq<usize>, i: int, j: int)
    requires
        is_order(keys, r),
        0 <= i < r.len(),
        0 <= j < r.len(),
        i != j,
    ensures
        r[i] != r[j],
{
    if i < j {
        assert(goes_before(keys, r[i] as int, r[j] as int));
    } else {
        assert(goes_before(keys, r[j] as int, r[i] as int));
    }
}

/// There is only one such order: where two of them first differed, each would have to go
/// before the other.
pub proof fn lemma_order_unique(keys: Seq<i128>, a: Seq<usize>, b: Seq<usize>)
    requires
        is_order(keys, a),
        is_order(keys, b),
    ensures
        a == b,
{
    assert forall|i: int| 0 <= i < a.len() implies a[i] == b[i] by {
        lemma_order_prefix(keys, a, b, i);
    }
    assert(a =~= b);
}

proof fn lemma_order_prefix(keys: Seq<i128>, a: Seq<usize>, b: Seq<usize>, i: int)
    requires
        is_order(keys, a),
        is_order(keys, b),
        0 <= i < a.len(),
    ensures
        a[i] == b[i],
    decreases i,
{
    assert forall|k: int| 0 <= k < i implies a[k] == b[k] by {
        lemma_order_prefix(keys, a, b, k);
    }
    if a[i] != b[i] {
        assert(b.contains(a[i]));
        let p = choose|p: int| 0 <= p < b.len() && b[p] == a[i];
        if p < i {
            lemma_order_distinct(keys, a, p, i);
        }
        assert(goes_before(keys, b[i] as int, b[p] as int));
        assert(a.contains(b[i]));
        let q = choose|q: int| 0 <= q < a.len() && a[q] == b[i];
        if q < i {
            lemma_order_distinct(keys, b, q, i);
        }
        assert(goes_before(keys, a[i] as int, a[q] as int));
    }
}

/// The members of a list in the order of their keys, equal keys as they stood.
pub open spec fn sorted_by<T>(v: Seq<T>, keys: Seq<i128>) -> Seq<T> {
    let o = choose|o: Seq<usize>| is_order(keys, o);
    Seq::new(v.len(), |i: int| v[o[i] as int])
}

/// Whatever order of positions is at hand, it gives the sorted list.
pub proof fn lemma_sorted<T>(v: Seq<T>, keys: Seq<i128>, o: Seq<usize>)
    requires
        keys.len() == v.len(),
        is_order(keys, o),
    ensures
        sorted_by(v, keys) == Seq::new(v.len(), |i: int| v[o[i] as int]),
{
    let c = choose|c: Seq<usize>| is_order(keys, c);
    lemma_order_unique(keys, c, o);
}

/// A list whose keys do not fall is in order already.
pub proof fn lemma_already_sorted<T>(v: Seq<T>, keys: Seq<i128>)
    requires
        keys.len() == v.len(),
        v.len() <= usize::MAX,
        forall|i: int, j: int| 0 <= i < j < keys.len() ==> #[trigger] keys[i] <= #[trigger] keys[j],
    ensures
        sorted_by(v, keys) == v,
{
    let o = Seq::new(v.len(), |i: int| i as usize);
    assert forall|i: int, j: int| 0 <= i < j < o.len() implies goes_before(
        keys,
        #[trigger] o[i] as int,
        #[trigger] o[j] as int,
    ) by {
        assert(keys[i] <= keys[j]);
    }
    assert forall|k: usize| k < keys.len() implies #[trigger] o.contains(k) by {
        assert(o[k as int] == k);
    }
    assert(is_order(keys, o));
    lemma_sorted(v, keys, o);
    assert(sorted_by(v, keys) =~= v);
}

// --- texts ---------------------------------------------------------------------------------------

/// How many of the first `n` texts of a list sort before a text.
pub open spec fn count_before(ts: Seq<Seq<char>>, t: Seq<char>, n: int) -> nat
    decreases n,
{
    if n <= 0 {
        0
    } else {
        count_before(ts, t, n - 1) + (if text_before(ts[n - 1], t) {
            1nat
        } else {
            0nat
        })
    }
}

/// The rank of each text of a list: how many of the list sort before it. Texts are ordered
/// as their ranks are.
pub open spec fn ranks(ts: Seq<Seq<char>>) -> Seq<i128> {
    Seq::new(ts.len(), |i: int| count_before(ts, ts[i], ts.len() as int) as i128)
}

proof fn lemma_count(ts: Seq<Seq<char>>, a: Seq<char>, b: Seq<char>, n: int)
    requires
        text_before(a, b),
        0 <= n <= ts.len(),
    ensures
        count_before(ts, a, n) <= count_before(ts, b, n),
        count_before(ts, b, n) <= n,
        ts.take(n).contains(a) ==> count_before(ts, a, n) < count_before(ts, b, n),
    decreases n,
{
    if n > 0 {
        lemma_count(ts, a, b, n - 1);
        lemma_text_order(a, a);
        if text_before(ts[n - 1], a) {
            lemma_text_order_chain(ts[n - 1], a, b);
        }
        if ts.take(n).contains(a) && ts[n - 1] != a {
            let k = choose|k: int| 0 <= k < ts.take(n).len() && ts.take(n)[k] == a;
            assert(ts.take(n - 1)[k] == a);
        }
    }
}

/// Texts are ordered as their ranks are.
pub proof fn lemma_ranks(ts: Seq<Seq<char>>, i: int, j: int)
    requires
        0 <= i < ts.len(),
        0 <= j < ts.len(),
        ts.len() <= usize::MAX,
    ensures
        ranks(ts)[i] < ranks(ts)[j] <==> text_before(ts[i], ts[j]),
        ranks(ts)[i] == ranks(ts)[j] <==> ts[i] == ts[j],
{
    let n = ts.len() as int;
    assert(ts.take(n) =~= ts);
    lemma_text_order(ts[i], ts[j]);
    lemma_count_bound(ts, ts[i], n);
    lemma_count_bound(ts, ts[j], n);
    if text_before(ts[i], ts[j]) {
        lemma_count(ts, ts[i], ts[j], n);
    } else if text_before(ts[j], ts[i]) {
        lemma_count(ts, ts[j], ts[i], n);
    }
}

proof fn lemma_count_bound(ts: Seq<Seq<char>>, t: Seq<char>, n: int)
    requires
        0 <= n,
    ensures
        count_before(ts, t, n) <= n,
    decreases n,
{
    if n > 0 {
        lemma_count_bound(ts, t, n - 1);
    }
}

/// The ranks of texts.
pub fn text_ranks(ts: &Vec<String>) -> (r: Vec<i128>)
    ensures
        r@ == ranks(views(ts@)),
{
    let ghost vs = views(ts@);
    let mut r: Vec<i128> = Vec::new();
    for i in 0..ts.len()
        invariant
            vs == views(ts@),
            r@ =~= ranks(vs).take(i as int),
    {
        let mut c: i128 = 0;
        for j in 0..ts.len()
            invariant
                vs == views(ts@),
                i < ts@.len(),
                0 <= c <= j,
                c == count_before(vs, vs[i as int], j as int),
        {
            assert(vs[j as int] == ts@[j as int]@ && vs[i as int] == ts@[i as int]@);
            if sorts_before(ts[j].as_str(), ts[i].as_str()) {
                c = c + 1;
            }
        }
        r.push(c);
    }
    assert(r@ =~= ranks(vs));
    r
}

/// Texts in their order.
pub open spec fn sorted_texts(ts: Seq<Seq<char>>) -> Seq<Seq<char>> {
    sorted_by(ts, ranks(ts))
}

/// Texts in their order.
pub fn sort_texts(ts: &Vec<String>) -> (r: Vec<String>)
    ensures
        views(r@) == sorted_texts(views(ts@)),
{
    let ghost vs = views(ts@);
    let keys = text_ranks(ts);
    let o = stable_order(keys.as_slice());
    proof {
        lemma_sorted(vs, keys@, o@);
    }
    let mut r: Vec<String> = Vec::new();
    for i in 0..o.len()
        invariant
            vs == views(ts@),
            is_order(keys@, o@),
            keys@.len() == vs.len(),
            views(r@) =~= Seq::new(i as nat, |k: int| vs[o@[k] as int]),
    {
        let ghost before = views(r@);
        r.push(ts[o[i]].clone());
        assert(views(r@) =~= before.push(vs[o@[i as int] as int]));
    }
    assert(views(r@) =~= sorted_texts(vs));
    r
}

/// What sorting does: the members stand by their keys, those with one key as they stood, and each
/// is there once. The places they came from are what is given.
pub proof fn lemma_sorted_from<T>(v: Seq<T>, keys: Seq<i128>) -> (o: Seq<int>)
    requires
        keys.len() == v.len(),
        v.len() <= usize::MAX,
    ensures
        sorted_by(v, keys).len() == v.len(),
        o.len() == v.len(),
        o.no_duplicates(),
        forall|i: int|
            0 <= i < o.len() ==> 0 <= #[trigger] o[i] < v.len() && sorted_by(v, keys)[i] == v[o[i]],
        forall|k: int| 0 <= k < v.len() ==> #[trigger] o.contains(k),
        forall|i: int, j: int|
            0 <= i < j < o.len() ==> keys[#[trigger] o[i]] < keys[#[trigger] o[j]] || (keys[o[i]]
                == keys[o[j]] && o[i] < o[j]),
{
    lemma_order_exists(keys);
    let r = choose|r: Seq<usize>| is_order(keys, r);
    lemma_sorted(v, keys, r);
    let o = Seq::new(r.len(), |i: int| r[i] as int);
    assert forall|i: int, j: int| 0 <= i < o.len() && 0 <= j < o.len() && i != j implies o[i]
        != o[j] by {
        lemma_order_distinct(keys, r, i, j);
    }
    assert forall|k: int| 0 <= k < v.len() implies #[trigger] o.contains(k) by {
        assert(r.contains(k as usize));
        let i = choose|i: int| 0 <= i < r.len() && r[i] == k as usize;
        assert(o[i] == k);
    }
    assert forall|i: int, j: int| 0 <= i < j < o.len() implies keys[#[trigger] o[i]]
        < keys[#[trigger] o[j]] || (keys[o[i]] == keys[o[j]] && o[i] < o[j]) by {
        assert(goes_before(keys, r[i] as int, r[j] as int));
    }
    o
}

/// Sorting keeps the members: all of them, and no others.
pub proof fn lemma_sorted_members<T>(v: Seq<T>, keys: Seq<i128>)
    requires
        keys.len() == v.len(),
        v.len() <= usize::MAX,
    ensures
        sorted_by(v, keys).len() == v.len(),
        forall|x: T| v.contains(x) <==> #[trigger] sorted_by(v, keys).contains(x),
{
    let o = lemma_sorted_from(v, keys);
    let s = sorted_by(v, keys);
    assert forall|x: T| v.contains(x) <==> #[trigger] s.contains(x) by {
        if v.contains(x) {
            let k = choose|k: int| 0 <= k < v.len() && v[k] == x;
            assert(o.contains(k));
            let i = choose|i: int| 0 <= i < o.len() && o[i] == k;
            assert(s[i] == x);
        }
        if s.contains(x) {
            let i = choose|i: int| 0 <= i < s.len() && s[i] == x;
            assert(v[o[i]] == x);
        }
    }
}

/// Texts in their order: none sorts before one that stands ahead of it, and all are there.
pub proof fn lemma_sorted_texts(ts: Seq<Seq<char>>)
    requires
        ts.len() <= usize::MAX,
    ensures
        sorted_texts(ts).len() == ts.len(),
        forall|t: Seq<char>| ts.contains(t) <==> #[trigger] sorted_texts(ts).contains(t),
        forall|i: int, j: int|
            0 <= i < j < ts.len() ==> !text_before(
                #[trigger] sorted_texts(ts)[j],
                #[trigger] sorted_texts(ts)[i],
            ),
{
    let o = lemma_sorted_from(ts, ranks(ts));
    lemma_sorted_members(ts, ranks(ts));
    let s = sorted_texts(ts);
    assert forall|i: int, j: int| 0 <= i < j < ts.len() implies !text_before(
        #[trigger] s[j],
        #[trigger] s[i],
    ) by {
        lemma_ranks(ts, o[j], o[i]);
        assert(s[i] == ts[o[i]] && s[j] == ts[o[j]]);
    }
}

} // verus!
