//! Lists of named values, each name once, in the order the names were first put in.

use vstd::prelude::*;
use crate::text::same;

verus! {

/// The place of a name in a list.
pub open spec fn place<V>(l: Seq<(Seq<char>, V)>, k: Seq<char>) -> Option<int>
    decreases l.len(),
{
    if l.len() == 0 {
        None
    } else {
        match place(l.drop_last(), k) {
            Some(i) => Some(i),
            None => if l.last().0 == k {
                Some(l.len() - 1)
            } else {
                None
            },
        }
    }
}

/// The value under a name.
pub open spec fn under<V>(l: Seq<(Seq<char>, V)>, k: Seq<char>) -> Option<V> {
    match place(l, k) {
        Some(i) => Some(l[i].1),
        None => None,
    }
}

/// The list after a value is put under a name: in the place of the one that was there, or
/// at the end.
pub open spec fn put<V>(l: Seq<(Seq<char>, V)>, k: Seq<char>, v: V) -> Seq<(Seq<char>, V)> {
    match place(l, k) {
        Some(i) => l.update(i, (k, v)),
        None => l.push((k, v)),
    }
}

/// The list after several values are put, one after the other.
pub open spec fn put_all<V>(l: Seq<(Seq<char>, V)>, ps: Seq<(Seq<char>, V)>) -> Seq<(Seq<char>, V)>
    decreases ps.len(),
{
    if ps.len() == 0 {
        l
    } else {
        put(put_all(l, ps.drop_last()), ps.last().0, ps.last().1)
    }
}

/// No name stands twice in a list.
pub open spec fn once<V>(l: Seq<(Seq<char>, V)>) -> bool {
    forall|i: int, j: int| 0 <= i < j < l.len() ==> #[trigger] l[i].0 != #[trigger] l[j].0
}

/// What `place` finds.
pub proof fn lemma_place<V>(l: Seq<(Seq<char>, V)>, k: Seq<char>)
    ensures
        (match place(l, k) {
            Some(i) => 0 <= i < l.len() && l[i].0 == k && forall|j: int|
                0 <= j < i ==> #[trigger] l[j].0 != k,
            None => forall|j: int| 0 <= j < l.len() ==> #[trigger] l[j].0 != k,
        }),
    decreases l.len(),
{
    if l.len() > 0 {
        lemma_place(l.drop_last(), k);
        assert(forall|j: int| 0 <= j < l.len() - 1 ==> l.drop_last()[j] == #[trigger] l[j]);
    }
}

/// The first place with a name is the one that is found.
pub proof fn lemma_is_place<V>(l: Seq<(Seq<char>, V)>, k: Seq<char>, i: int)
    requires
        0 <= i < l.len(),
        l[i].0 == k,
        forall|j: int| 0 <= j < i ==> #[trigger] l[j].0 != k,
    ensures
        place(l, k) == Some(i),
{
    lemma_place(l, k);
}

/// What is put under a name is what stands under it, the other names keep theirs, and no
/// name comes to stand twice.
pub proof fn lemma_put<V>(l: Seq<(Seq<char>, V)>, k: Seq<char>, v: V, o: Seq<char>)
    requires
        once(l),
    ensures
        once(put(l, k, v)),
        under(put(l, k, v), o) == (if o == k {
            Some(v)
        } else {
            under(l, o)
        }),
{
    lemma_place(l, k);
    lemma_place(l, o);
    let r = put(l, k, v);
    lemma_place(r, o);
    assert forall|i: int, j: int| 0 <= i < j < r.len() implies #[trigger] r[i].0
        != #[trigger] r[j].0 by {
        if j < l.len() {
            assert(l[i].0 != l[j].0);
        }
    }
    if o == k {
        let i = match place(l, k) {
            Some(i) => i,
            None => l.len() as int,
        };
        assert(r[i].0 == k);
        lemma_is_place(r, k, i);
    } else {
        match place(l, o) {
            Some(i) => {
                assert(r[i] == l[i]);
                lemma_is_place(r, o, i);
            },
            None => {
                assert forall|j: int| 0 <= j < r.len() implies #[trigger] r[j].0 != o by {
                    if j < l.len() {
                        assert(l[j].0 != o);
                    }
                }
            },
        }
    }
}

/// Putting the members of a list with each name once, one after the other, gives the list.
pub proof fn lemma_put_all<V>(ps: Seq<(Seq<char>, V)>)
    requires
        once(ps),
    ensures
        put_all(Seq::empty(), ps) == ps,
    decreases ps.len(),
{
    if ps.len() > 0 {
        let a = ps.drop_last();
        assert forall|i: int, j: int| 0 <= i < j < a.len() implies #[trigger] a[i].0
            != #[trigger] a[j].0 by {
            assert(ps[i].0 != ps[j].0);
        }
        lemma_put_all(a);
        lemma_place(a, ps.last().0);
        match place(a, ps.last().0) {
            Some(i) => {
                assert(ps[i].0 != ps[ps.len() - 1].0);
            },
            None => {},
        }
        assert(a.push((ps.last().0, ps.last().1)) =~= ps);
    } else {
        assert(put_all(Seq::empty(), ps) =~= ps);
    }
}

/// The pairs of a list of names and values.
pub open spec fn pairs<V>(v: Seq<(String, V)>) -> Seq<(Seq<char>, V)> {
    Seq::new(v.len(), |i: int| (v[i].0@, v[i].1))
}

/// The pairs of a list of texts and texts.
pub open spec fn words_of(v: Seq<(String, String)>) -> Seq<(Seq<char>, Seq<char>)> {
    Seq::new(v.len(), |i: int| (v[i].0@, v[i].1@))
}

/// The place of a name in a list.
pub fn find_pair<V>(l: &Vec<(String, V)>, k: &str) -> (r: Option<usize>)
    ensures
        (match r {
            Some(i) => place(pairs(l@), k@) == Some(i as int) && i < l@.len(),
            None => place(pairs(l@), k@) is None,
        }),
{
    let ghost p = pairs(l@);
    for i in 0..l.len()
        invariant
            p == pairs(l@),
            forall|j: int| 0 <= j < i ==> #[trigger] p[j].0 != k@,
    {
        assert(p[i as int].0 == l@[i as int].0@);
        if same(l[i].0.as_str(), k) {
            proof {
                lemma_is_place(p, k@, i as int);
            }
            return Some(i);
        }
    }
    proof {
        lemma_place(p, k@);
    }
    None
}

/// Puts a value under a name.
pub fn put_pair<V>(l: &mut Vec<(String, V)>, k: &str, v: V)
    ensures
        pairs(final(l)@) == put(pairs(old(l)@), k@, v),
{
    let ghost p = pairs(l@);
    match find_pair(l, k) {
        Some(i) => {
            l.set(i, (k.to_owned(), v));
            assert(pairs(l@) =~= p.update(i as int, (k@, v)));
        },
        None => {
            l.push((k.to_owned(), v));
            assert(pairs(l@) =~= p.push((k@, v)));
        },
    }
}

/// The place of a name in a list of texts.
pub fn find_word(l: &Vec<(String, String)>, k: &str) -> (r: Option<usize>)
    ensures
        (match r {
            Some(i) => place(words_of(l@), k@) == Some(i as int) && i < l@.len(),
            None => place(words_of(l@), k@) is None,
        }),
{
    let ghost p = words_of(l@);
    for i in 0..l.len()
        invariant
            p == words_of(l@),
            forall|j: int| 0 <= j < i ==> #[trigger] p[j].0 != k@,
    {
        assert(p[i as int].0 == l@[i as int].0@);
        if same(l[i].0.as_str(), k) {
            proof {
                lemma_is_place(p, k@, i as int);
            }
            return Some(i);
        }
    }
    proof {
        lemma_place(p, k@);
    }
    None
}

/// Puts a text under a name.
pub fn put_word(l: &mut Vec<(String, String)>, k: &str, v: &str)
    ensures
        words_of(final(l)@) == put(words_of(old(l)@), k@, v@),
{
    let ghost p = words_of(l@);
    match find_word(l, k) {
        Some(i) => {
            l.set(i, (k.to_owned(), v.to_owned()));
            assert(words_of(l@) =~= p.update(i as int, (k@, v@)));
        },
        None => {
            l.push((k.to_owned(), v.to_owned()));
            assert(words_of(l@) =~= p.push((k@, v@)));
        },
    }
}

} // verus!
