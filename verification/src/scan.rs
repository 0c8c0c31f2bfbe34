//! Going through the lines of a text.

use vstd::prelude::*;
use crate::pick::{lemma_pick, lemma_pick_ends, picked};
use crate::text::{first_some, lemma_first_some, maybe, views};

verus! {

/// What the first line has for which there is something.
pub fn find_in<F: Fn(&str) -> Option<String>>(
    ls: &Vec<String>,
    read: F,
    Ghost(f): Ghost<spec_fn(Seq<char>) -> Option<Seq<char>>>,
) -> (r: Option<String>)
    requires
        forall|s: &str| #[trigger] read.requires((s,)),
        forall|s: &str, o: Option<String>| #[trigger] read.ensures((s,), o) ==> maybe(o) == f(s@),
    ensures
        maybe(r) == first_some(views(ls@), f),
{
    let ghost vs = views(ls@);
    assert(vs.skip(0) =~= vs);
    for i in 0..ls.len()
        invariant
            vs == views(ls@),
            forall|s: &str| #[trigger] read.requires((s,)),
            forall|s: &str, o: Option<String>| #[trigger]
                read.ensures((s,), o) ==> maybe(o) == f(s@),
            first_some(vs.skip(i as int), f) == first_some(vs, f),
    {
        proof {
            lemma_first_some(vs, f, i as int);
            assert(vs[i as int] == ls@[i as int]@);
        }
        match read(ls[i].as_str()) {
            Some(t) => {
                return Some(t);
            },
            None => {},
        }
    }
    proof {
        lemma_first_some(vs, f, vs.len() as int);
    }
    None
}

/// What each line has, of those that have something.
pub fn pick_in<F: Fn(&str) -> Option<String>>(
    ls: &Vec<String>,
    read: F,
    Ghost(f): Ghost<spec_fn(Seq<char>) -> Option<Seq<char>>>,
) -> (r: Vec<String>)
    requires
        forall|s: &str| #[trigger] read.requires((s,)),
        forall|s: &str, o: Option<String>| #[trigger] read.ensures((s,), o) ==> maybe(o) == f(s@),
    ensures
        views(r@) == picked(views(ls@), f),
{
    let ghost vs = views(ls@);
    let mut r: Vec<String> = Vec::new();
    proof {
        lemma_pick_ends(vs, f);
        assert(views(r@) =~= Seq::empty());
    }
    for i in 0..ls.len()
        invariant
            vs == views(ls@),
            forall|s: &str| #[trigger] read.requires((s,)),
            forall|s: &str, o: Option<String>| #[trigger]
                read.ensures((s,), o) ==> maybe(o) == f(s@),
            views(r@) == picked(vs.take(i as int), f),
    {
        proof {
            lemma_pick(vs, f, i as int);
            assert(vs[i as int] == ls@[i as int]@);
        }
        match read(ls[i].as_str()) {
            Some(t) => {
                let ghost before = views(r@);
                let ghost y = t@;
                r.push(t);
                assert(views(r@) =~= before.push(y));
            },
            None => {},
        }
    }
    r
}

/// What the first line has of a key, of those that have something.
pub fn find_for<F: Fn(&str, &str) -> Option<String>>(
    ls: &Vec<String>,
    key: &str,
    read: F,
    Ghost(f): Ghost<spec_fn(Seq<char>) -> Option<Seq<char>>>,
) -> (r: Option<String>)
    requires
        forall|s: &str| #[trigger] read.requires((s, key)),
        forall|s: &str, o: Option<String>| #[trigger]
            read.ensures((s, key), o) ==> maybe(o) == f(s@),
    ensures
        maybe(r) == first_some(views(ls@), f),
{
    let ghost vs = views(ls@);
    assert(vs.skip(0) =~= vs);
    for i in 0..ls.len()
        invariant
            vs == views(ls@),
            forall|s: &str| #[trigger] read.requires((s, key)),
            forall|s: &str, o: Option<String>| #[trigger]
                read.ensures((s, key), o) ==> maybe(o) == f(s@),
            first_some(vs.skip(i as int), f) == first_some(vs, f),
    {
        proof {
            lemma_first_some(vs, f, i as int);
            assert(vs[i as int] == ls@[i as int]@);
        }
        match read(ls[i].as_str(), key) {
            Some(t) => {
                return Some(t);
            },
            None => {},
        }
    }
    proof {
        lemma_first_some(vs, f, vs.len() as int);
    }
    None
}

/// What each line has of a key, of those that have something.
pub fn pick_for<F: Fn(&str, &str) -> Option<String>>(
    ls: &Vec<String>,
    key: &str,
    read: F,
    Ghost(f): Ghost<spec_fn(Seq<char>) -> Option<Seq<char>>>,
) -> (r: Vec<String>)
    requires
        forall|s: &str| #[trigger] read.requires((s, key)),
        forall|s: &str, o: Option<String>| #[trigger]
            read.ensures((s, key), o) ==> maybe(o) == f(s@),
    ensures
        views(r@) == picked(views(ls@), f),
{
    let ghost vs = views(ls@);
    let mut r: Vec<String> = Vec::new();
    proof {
        lemma_pick_ends(vs, f);
        assert(views(r@) =~= Seq::empty());
    }
    for i in 0..ls.len()
        invariant
            vs == views(ls@),
            forall|s: &str| #[trigger] read.requires((s, key)),
            forall|s: &str, o: Option<String>| #[trigger]
                read.ensures((s, key), o) ==> maybe(o) == f(s@),
            views(r@) == picked(vs.take(i as int), f),
    {
        proof {
            lemma_pick(vs, f, i as int);
            assert(vs[i as int] == ls@[i as int]@);
        }
        match read(ls[i].as_str(), key) {
            Some(t) => {
                let ghost before = views(r@);
                let ghost y = t@;
                r.push(t);
                assert(views(r@) =~= before.push(y));
            },
            None => {},
        }
    }
    r
}

} // verus!
