//! Lists made of what a function makes of the members of another, some left out.

use vstd::prelude::*;

verus! {

/// What `f` makes of the members of a list, those it makes nothing of left out.
pub open spec fn picked<T, A>(vs: Seq<T>, f: spec_fn(T) -> Option<A>) -> Seq<A>
    decreases vs.len(),
{
    if vs.len() == 0 {
        Seq::empty()
    } else {
        match f(vs.last()) {
            Some(a) => picked(vs.drop_last(), f).push(a),
            None => picked(vs.drop_last(), f),
        }
    }
}

/// One more member of a list: what `f` makes of it goes at the end.
pub proof fn lemma_pick<T, A>(vs: Seq<T>, f: spec_fn(T) -> Option<A>, i: int)
    requires
        0 <= i < vs.len(),
    ensures
        picked(vs.take(i + 1), f) == (match f(vs[i]) {
            Some(a) => picked(vs.take(i), f).push(a),
            None => picked(vs.take(i), f),
        }),
{
    assert(vs.take(i + 1).drop_last() =~= vs.take(i));
}

/// The start and the end of such a pass.
pub proof fn lemma_pick_ends<T, A>(vs: Seq<T>, f: spec_fn(T) -> Option<A>)
    ensures
        picked(vs.take(0), f) == Seq::<A>::empty(),
        vs.take(vs.len() as int) == vs,
{
    assert(vs.take(vs.len() as int) =~= vs);
}

/// Where `f` makes something of every member, there is one for each.
pub proof fn lemma_pick_each<R, A>(ls: Seq<R>, f: spec_fn(R) -> Option<A>, xs: Seq<A>)
    requires
        ls.len() == xs.len(),
        forall|i: int| 0 <= i < ls.len() ==> f(#[trigger] ls[i]) == Some(xs[i]),
    ensures
        picked(ls, f) == xs,
    decreases ls.len(),
{
    if ls.len() > 0 {
        let a = ls.drop_last();
        let b = xs.drop_last();
        assert forall|i: int| 0 <= i < a.len() implies f(#[trigger] a[i]) == Some(b[i]) by {
            assert(a[i] == ls[i]);
        }
        lemma_pick_each(a, f, b);
        assert(f(ls[ls.len() - 1]) == Some(xs[xs.len() - 1]));
        assert(b.push(xs.last()) =~= xs);
    } else {
        assert(picked(ls, f) =~= xs);
    }
}

/// A member that `f` makes nothing of takes no other with it: the list gives what it would
/// without that member.
pub proof fn lemma_pick_without<R, A>(ls: Seq<R>, f: spec_fn(R) -> Option<A>, i: int)
    requires
        0 <= i < ls.len(),
        f(ls[i]) is None,
    ensures
        picked(ls, f) == picked(ls.remove(i), f),
    decreases ls.len(),
{
    let a = ls.drop_last();
    if i == ls.len() - 1 {
        assert(ls.remove(i) =~= a);
    } else {
        lemma_pick_without(a, f, i);
        let b = ls.remove(i);
        assert(b.drop_last() =~= a.remove(i));
        assert(b.last() == ls.last());
    }
}

/// Picking from two lists, one after the other.
pub proof fn lemma_pick_sum<R, A>(a: Seq<R>, b: Seq<R>, f: spec_fn(R) -> Option<A>)
    ensures
        picked(a + b, f) == picked(a, f) + picked(b, f),
    decreases b.len(),
{
    if b.len() == 0 {
        assert(a + b =~= a);
        assert(picked(a, f) + picked(b, f) =~= picked(a, f));
    } else {
        assert((a + b).drop_last() =~= a + b.drop_last());
        lemma_pick_sum(a, b.drop_last(), f);
        match f(b.last()) {
            Some(x) => {
                assert(picked(a, f) + picked(b, f) =~= (picked(a, f) + picked(
                    b.drop_last(),
                    f,
                )).push(x));
            },
            None => {},
        }
    }
}

/// Picking where nothing is to be picked.
pub proof fn lemma_pick_none<R, A>(a: Seq<R>, f: spec_fn(R) -> Option<A>)
    requires
        forall|i: int| 0 <= i < a.len() ==> f(#[trigger] a[i]) is None,
    ensures
        picked(a, f) == Seq::<A>::empty(),
    decreases a.len(),
{
    if a.len() > 0 {
        let b = a.drop_last();
        assert forall|i: int| 0 <= i < b.len() implies f(#[trigger] b[i]) is None by {
            assert(b[i] == a[i]);
        }
        lemma_pick_none(b, f);
        assert(f(a[a.len() - 1]) is None);
    }
}

/// Where what was picked comes from: the places of members, each after the one before it, and all
/// the members that `f` makes something of are among them.
pub proof fn lemma_picked_from<T, A>(vs: Seq<T>, f: spec_fn(T) -> Option<A>) -> (ks: Seq<int>)
    ensures
        ks.len() == picked(vs, f).len(),
        forall|i: int|
            0 <= i < ks.len() ==> 0 <= #[trigger] ks[i] < vs.len() && f(vs[ks[i]]) == Some(
                picked(vs, f)[i],
            ),
        forall|i: int, j: int| 0 <= i < j < ks.len() ==> #[trigger] ks[i] < #[trigger] ks[j],
        forall|k: int| 0 <= k < vs.len() && f(#[trigger] vs[k]) is Some ==> ks.contains(k),
    decreases vs.len(),
{
    if vs.len() == 0 {
        Seq::empty()
    } else {
        let w = vs.drop_last();
        let n = vs.len() - 1;
        let a = lemma_picked_from(w, f);
        match f(vs.last()) {
            Some(x) => {
                let ks = a.push(n);
                assert forall|k: int| 0 <= k < vs.len() && f(#[trigger] vs[k]) is Some implies
                    ks.contains(k) by {
                    if k < n {
                        assert(w[k] == vs[k]);
                        assert(a.contains(k));
                        let i = choose|i: int| 0 <= i < a.len() && a[i] == k;
                        assert(ks[i] == k);
                    } else {
                        assert(ks[ks.len() - 1] == k);
                    }
                }
                assert forall|i: int| 0 <= i < ks.len() implies 0 <= #[trigger] ks[i] < vs.len()
                    && f(vs[ks[i]]) == Some(picked(vs, f)[i]) by {
                    if i < a.len() {
                        assert(w[a[i]] == vs[ks[i]]);
                    }
                }
                ks
            },
            None => {
                assert forall|k: int| 0 <= k < vs.len() && f(#[trigger] vs[k]) is Some implies
                    a.contains(k) by {
                    assert(w[k] == vs[k]);
                }
                a
            },
        }
    }
}

} // verus!
