//! Text as sequences of characters: cutting, trimming, searching, joining, and numbers
//! written in decimal and hexadecimal.
//!
//! Every reader in this crate (the `/proc` tables, the session files, the news feeds) is
//! stated over the sequence of characters of its input. This module holds the vocabulary
//! that those statements share, together with the executable functions that meet it.

use vstd::prelude::*;
use vstd::slice::slice_subrange;

verus! {

/// `String::push`: the character goes at the end of the text.
pub assume_specification[ String::push ](s: &mut String, c: char)
    ensures
        final(s)@ == old(s)@.push(c),
;

/// Names what `str::to_lowercase` makes of a text: the Unicode lowercase mapping.
pub uninterp spec fn lowercase(s: Seq<char>) -> Seq<char>;

/// `str::to_lowercase`. Nothing is claimed of the mapping itself beyond its being a function
/// of the text.
#[verifier::external_body]
pub(crate) fn to_lower(s: &str) -> (r: String)
    ensures
        r@ == lowercase(s@),
{
    s.to_lowercase()
}

/// Names what `str::to_uppercase` makes of a text: the Unicode uppercase mapping.
pub uninterp spec fn uppercase(s: Seq<char>) -> Seq<char>;

/// `str::to_uppercase`. Nothing is claimed of the mapping itself beyond its being a function
/// of the text.
#[verifier::external_body]
pub(crate) fn to_upper(s: &str) -> (r: String)
    ensures
        r@ == uppercase(s@),
{
    s.to_uppercase()
}

// --- characters ----------------------------------------------------------------------

/// The Unicode `White_Space` characters.
pub open spec fn is_space(c: char) -> bool {
    ||| '\u{9}' <= c <= '\u{d}'
    ||| c == ' '
    ||| c == '\u{85}'
    ||| c == '\u{a0}'
    ||| c == '\u{1680}'
    ||| '\u{2000}' <= c <= '\u{200a}'
    ||| c == '\u{2028}'
    ||| c == '\u{2029}'
    ||| c == '\u{202f}'
    ||| c == '\u{205f}'
    ||| c == '\u{3000}'
}

/// An ASCII decimal digit.
pub open spec fn is_digit(c: char) -> bool {
    '0' <= c <= '9'
}

/// An ASCII hexadecimal digit, in either case.
pub open spec fn is_hex(c: char) -> bool {
    is_digit(c) || 'a' <= c <= 'f' || 'A' <= c <= 'F'
}

/// What a hexadecimal digit is worth; 0 for any other character.
pub open spec fn hex_worth(c: char) -> nat {
    if is_digit(c) {
        (c as int - '0' as int) as nat
    } else if 'a' <= c <= 'f' {
        (c as int - 'a' as int + 10) as nat
    } else if 'A' <= c <= 'F' {
        (c as int - 'A' as int + 10) as nat
    } else {
        0
    }
}

/// What a decimal digit is worth; 0 for any other character.
pub open spec fn worth(c: char) -> nat {
    if is_digit(c) {
        (c as int - '0' as int) as nat
    } else {
        0
    }
}

/// The digit that stands for `d` in decimal.
pub open spec fn digit_char(d: nat) -> char {
    ('0' as int + d) as char
}

/// Which characters separate, when a text is cut or trimmed.
#[derive(Clone, Copy)]
pub enum Cut {
    /// One given character.
    At(char),
    /// Any of three given characters.
    In(char, char, char),
    /// Any white space.
    Space,
    /// Anything that is not an ASCII decimal digit.
    NonDigit,
}

impl Cut {
    /// Whether `c` is one of the separating characters.
    pub open spec fn cuts(self, c: char) -> bool {
        match self {
            Cut::At(sep) => c == sep,
            Cut::In(a, b, d) => c == a || c == b || c == d,
            Cut::Space => is_space(c),
            Cut::NonDigit => !is_digit(c),
        }
    }

    /// Whether `c` is one of the separating characters.
    pub fn hits(self, c: char) -> (r: bool)
        ensures
            r == self.cuts(c),
    {
        match self {
            Cut::At(sep) => c == sep,
            Cut::In(a, b, d) => c == a || c == b || c == d,
            Cut::Space => ('\u{9}' <= c && c <= '\u{d}') || c == ' ' || c == '\u{85}' || c
                == '\u{a0}' || c == '\u{1680}' || ('\u{2000}' <= c && c <= '\u{200a}') || c
                == '\u{2028}' || c == '\u{2029}' || c == '\u{202f}' || c == '\u{205f}' || c
                == '\u{3000}',
            Cut::NonDigit => !('0' <= c && c <= '9'),
        }
    }
}

// --- texts and their characters --------------------------------------------------------

/// The characters of each text of a list.
pub open spec fn views(v: Seq<String>) -> Seq<Seq<char>> {
    Seq::new(v.len(), |i: int| v[i]@)
}

/// The characters of a text, in order.
pub fn chars_of(s: &str) -> (r: Vec<char>)
    ensures
        r@ == s@,
{
    let mut r: Vec<char> = Vec::new();
    broadcast use vstd::string::axiom_spec_iter;

    for c in it: s.chars()
        invariant
            r@ == it.seq().take(it.index() as int),
            it.seq() == s@,
    {
        r.push(c);
    }
    r
}

/// The text made of the given characters.
pub fn text_of(v: &[char]) -> (r: String)
    ensures
        r@ == v@,
{
    let mut r = String::new();
    for i in 0..v.len()
        invariant
            r@ == v@.take(i as int),
    {
        r.push(v[i]);
    }
    r
}

/// Whether two texts are the same, character by character.
pub fn same(a: &str, b: &str) -> (r: bool)
    ensures
        r == (a@ == b@),
{
    a.to_owned() == b.to_owned()
}

/// Whether two runs of characters are the same.
pub fn same_chars(a: &[char], b: &[char]) -> (r: bool)
    ensures
        r == (a@ == b@),
{
    if a.len() != b.len() {
        return false;
    }
    for i in 0..a.len()
        invariant
            a@.len() == b@.len(),
            forall|j: int| 0 <= j < i ==> a@[j] == b@[j],
    {
        if a[i] != b[i] {
            return false;
        }
    }
    assert(a@ =~= b@);
    true
}

// --- cutting ---------------------------------------------------------------------------

/// The stretches of `s` between separating characters, empty ones included: always at
/// least one.
pub open spec fn pieces(s: Seq<char>, cut: Cut) -> Seq<Seq<char>>
    decreases s.len(),
{
    if s.len() == 0 {
        seq![Seq::empty()]
    } else {
        let done = pieces(s.drop_last(), cut);
        if cut.cuts(s.last()) {
            done.push(Seq::empty())
        } else {
            done.drop_last().push(done.last().push(s.last()))
        }
    }
}

/// The non-empty members of a list.
pub open spec fn filled(ps: Seq<Seq<char>>) -> Seq<Seq<char>>
    decreases ps.len(),
{
    if ps.len() == 0 {
        ps
    } else if ps.last().len() == 0 {
        filled(ps.drop_last())
    } else {
        filled(ps.drop_last()).push(ps.last())
    }
}

/// The stretches of `s` between separating characters, without the empty ones.
pub open spec fn runs(s: Seq<char>, cut: Cut) -> Seq<Seq<char>> {
    filled(pieces(s, cut))
}

/// The words of `s`: what white space separates.
pub open spec fn words(s: Seq<char>) -> Seq<Seq<char>> {
    runs(s, Cut::Space)
}

proof fn lemma_pieces_nonempty(s: Seq<char>, cut: Cut)
    ensures
        pieces(s, cut).len() > 0,
    decreases s.len(),
{
    if s.len() > 0 {
        lemma_pieces_nonempty(s.drop_last(), cut);
    }
}

/// Cuts a text at every separating character.
pub fn split(s: &str, cut: Cut) -> (r: Vec<String>)
    ensures
        views(r@) == pieces(s@, cut),
        r@.len() > 0,
{
    let v = chars_of(s);
    let mut done: Vec<String> = Vec::new();
    let mut cur = String::new();
    proof {
        assert(v@.take(0) =~= Seq::empty());
        assert(views(done@).push(cur@) =~= pieces(v@.take(0), cut));
    }
    for i in 0..v.len()
        invariant
            views(done@).push(cur@) == pieces(v@.take(i as int), cut),
    {
        let c = v[i];
        proof {
            let t = v@.take(i + 1);
            assert(t.drop_last() =~= v@.take(i as int));
            assert(t.last() == c);
            assert(views(done@).push(cur@).drop_last() =~= views(done@));
        }
        if cut.hits(c) {
            let ghost before = views(done@);
            let ghost last = cur@;
            done.push(cur);
            cur = String::new();
            assert(views(done@) =~= before.push(last));
            assert(views(done@).push(cur@) =~= before.push(last).push(Seq::empty()));
        } else {
            cur.push(c);
        }
    }
    proof {
        assert(v@.take(v@.len() as int) =~= v@);
    }
    let ghost before = views(done@);
    let ghost last = cur@;
    done.push(cur);
    assert(views(done@) =~= before.push(last));
    done
}

/// Cuts a text at every separating character and keeps the stretches that are not empty.
pub fn split_runs(s: &str, cut: Cut) -> (r: Vec<String>)
    ensures
        views(r@) == runs(s@, cut),
{
    let all = split(s, cut);
    let mut r: Vec<String> = Vec::new();
    assert(views(r@) =~= Seq::<Seq<char>>::empty());
    for i in 0..all.len()
        invariant
            views(r@) == filled(views(all@).take(i as int)),
    {
        proof {
            let t = views(all@).take(i + 1);
            assert(t.drop_last() =~= views(all@).take(i as int));
            assert(t.last() == all@[i as int]@);
        }
        if !all[i].as_str().is_empty() {
            let ghost before = views(r@);
            r.push(all[i].clone());
            assert(views(r@) =~= before.push(all@[i as int]@));
        }
    }
    assert(views(all@).take(all@.len() as int) =~= views(all@));
    r
}

/// The words of a text.
pub fn split_words(s: &str) -> (r: Vec<String>)
    ensures
        views(r@) == words(s@),
{
    split_runs(s, Cut::Space)
}

/// The text between one line feed and the next, as `/proc` and configuration files are
/// read: a carriage return before the line feed belongs to the line ending, and a file that
/// ends in a line feed has no empty last line.
pub open spec fn lines(s: Seq<char>) -> Seq<Seq<char>> {
    let ps = pieces(s, Cut::At('\n'));
    let ended = Seq::new((ps.len() - 1) as nat, |i: int| without_return(ps[i]));
    if ps.last().len() == 0 {
        ended
    } else {
        ended.push(ps.last())
    }
}

/// A line without the carriage return at its end.
pub open spec fn without_return(s: Seq<char>) -> Seq<char> {
    if s.len() > 0 && s.last() == '\r' {
        s.drop_last()
    } else {
        s
    }
}

/// The lines of a text.
pub fn split_lines(s: &str) -> (r: Vec<String>)
    ensures
        views(r@) == lines(s@),
{
    let ps = split(s, Cut::At('\n'));
    let mut r: Vec<String> = Vec::new();
    let n: usize = ps.len() - 1;
    let ghost all = views(ps@);
    for i in 0..n
        invariant
            n + 1 == ps@.len(),
            all == views(ps@),
            views(r@) == Seq::new(i as nat, |k: int| without_return(all[k])),
    {
        let v = chars_of(ps[i].as_str());
        let m: usize = v.len();
        let line = if m > 0 && v[m - 1] == '\r' {
            proof {
                assert(v@.subrange(0, m - 1) =~= v@.drop_last());
            }
            text_of(slice_subrange(v.as_slice(), 0, m - 1))
        } else {
            ps[i].clone()
        };
        let ghost before = views(r@);
        let ghost l = line@;
        r.push(line);
        proof {
            assert(l == without_return(all[i as int]));
            assert(views(r@) =~= before.push(l));
            assert(views(r@) =~= Seq::new((i + 1) as nat, |k: int| without_return(all[k])));
        }
    }
    if !ps[n].as_str().is_empty() {
        let ghost before = views(r@);
        r.push(ps[n].clone());
        assert(views(r@) =~= before.push(all.last()));
    }
    r
}

/// How many characters come before the first separating one; all of them when none
/// separates.
pub open spec fn reach(s: Seq<char>, cut: Cut) -> nat
    decreases s.len(),
{
    if s.len() == 0 || cut.cuts(s[0]) {
        0
    } else {
        1 + reach(s.skip(1), cut)
    }
}

/// `reach` is the one place where a separating character stands with none before it.
pub proof fn lemma_reach(s: Seq<char>, cut: Cut, n: int)
    requires
        0 <= n <= s.len(),
        forall|j: int| 0 <= j < n ==> !cut.cuts(#[trigger] s[j]),
        n == s.len() || cut.cuts(s[n]),
    ensures
        reach(s, cut) == n,
    decreases n,
{
    if n > 0 {
        assert(!cut.cuts(s[0]));
        assert forall|j: int| 0 <= j < n - 1 implies !cut.cuts(#[trigger] s.skip(1)[j]) by {
            assert(s.skip(1)[j] == s[j + 1]);
        }
        lemma_reach(s.skip(1), cut, n - 1);
    }
}

/// How many characters come before the first separating one, from a given place on.
pub fn reach_from(v: &[char], from: usize, cut: Cut) -> (r: usize)
    requires
        from <= v@.len(),
    ensures
        from <= r <= v@.len(),
        r - from == reach(v@.skip(from as int), cut),
        forall|j: int| from <= j < r ==> !cut.cuts(#[trigger] v@[j]),
        r < v@.len() ==> cut.cuts(v@[r as int]),
{
    let mut i: usize = from;
    while i < v.len() && !cut.hits(v[i])
        invariant
            from <= i <= v@.len(),
            forall|j: int| from <= j < i ==> !cut.cuts(#[trigger] v@[j]),
        decreases v@.len() - i,
    {
        i = i + 1;
    }
    proof {
        let t = v@.skip(from as int);
        assert forall|j: int| 0 <= j < i - from implies !cut.cuts(#[trigger] t[j]) by {
            assert(t[j] == v@[from + j]);
        }
        lemma_reach(t, cut, i - from);
    }
    i
}

/// What stands before and after the first separating character, when there is one.
pub open spec fn cut_once(s: Seq<char>, cut: Cut) -> Option<(Seq<char>, Seq<char>)> {
    let n = reach(s, cut) as int;
    if n < s.len() {
        Some((s.take(n), s.skip(n + 1)))
    } else {
        None
    }
}

/// Cuts a text in two at the first occurrence of `sep`.
pub fn split_once(s: &str, sep: char) -> (r: Option<(String, String)>)
    ensures
        (match r {
            Some((a, b)) => cut_once(s@, Cut::At(sep)) == Some((a@, b@)),
            None => cut_once(s@, Cut::At(sep)) is None,
        }),
{
    let v = chars_of(s);
    assert(v@.skip(0) =~= v@);
    let n = reach_from(v.as_slice(), 0, Cut::At(sep));
    if n < v.len() {
        let a = text_of(slice_subrange(v.as_slice(), 0, n));
        let b = text_of(slice_subrange(v.as_slice(), n + 1, v.len()));
        assert(a@ =~= s@.take(n as int));
        assert(b@ =~= s@.skip(n + 1));
        Some((a, b))
    } else {
        None
    }
}

/// The part of a text before the first separating character: all of it when none
/// separates.
pub open spec fn before(s: Seq<char>, cut: Cut) -> Seq<char> {
    s.take(reach(s, cut) as int)
}

/// The part of a text before the first `sep`.
pub fn head_before(s: &str, sep: char) -> (r: String)
    ensures
        r@ == before(s@, Cut::At(sep)),
{
    let v = chars_of(s);
    assert(v@.skip(0) =~= v@);
    let n = reach_from(v.as_slice(), 0, Cut::At(sep));
    let r = text_of(slice_subrange(v.as_slice(), 0, n));
    assert(r@ =~= s@.take(n as int));
    r
}

// --- trimming --------------------------------------------------------------------------

/// `s` without the separating characters it begins with.
pub open spec fn trimmed_start(s: Seq<char>, cut: Cut) -> Seq<char>
    decreases s.len(),
{
    if s.len() > 0 && cut.cuts(s[0]) {
        trimmed_start(s.skip(1), cut)
    } else {
        s
    }
}

/// `s` without the separating characters it ends with.
pub open spec fn trimmed_end(s: Seq<char>, cut: Cut) -> Seq<char>
    decreases s.len(),
{
    if s.len() > 0 && cut.cuts(s.last()) {
        trimmed_end(s.drop_last(), cut)
    } else {
        s
    }
}

/// `s` without the separating characters at either end.
pub open spec fn trimmed_of(s: Seq<char>, cut: Cut) -> Seq<char> {
    trimmed_end(trimmed_start(s, cut), cut)
}

/// `s` without the white space at either end.
pub open spec fn trimmed(s: Seq<char>) -> Seq<char> {
    trimmed_of(s, Cut::Space)
}

/// Where the text proper begins.
fn start_of(v: &[char], cut: Cut) -> (r: usize)
    ensures
        r <= v@.len(),
        v@.skip(r as int) == trimmed_start(v@, cut),
{
    let mut i: usize = 0;
    assert(v@.skip(0) =~= v@);
    while i < v.len() && cut.hits(v[i])
        invariant
            i <= v@.len(),
            trimmed_start(v@.skip(i as int), cut) == trimmed_start(v@, cut),
        decreases v@.len() - i,
    {
        assert(v@.skip(i as int).skip(1) =~= v@.skip(i + 1));
        i = i + 1;
    }
    i
}

/// Where the text proper ends.
fn end_of(v: &[char], cut: Cut) -> (r: usize)
    ensures
        r <= v@.len(),
        v@.take(r as int) == trimmed_end(v@, cut),
{
    let mut i: usize = v.len();
    assert(v@.take(i as int) =~= v@);
    while i > 0 && cut.hits(v[i - 1])
        invariant
            i <= v@.len(),
            trimmed_end(v@.take(i as int), cut) == trimmed_end(v@, cut),
        decreases i,
    {
        assert(v@.take(i as int).drop_last() =~= v@.take(i - 1));
        i = i - 1;
    }
    i
}

/// Drops the separating characters at the start.
pub fn trim_start_of(s: &str, cut: Cut) -> (r: String)
    ensures
        r@ == trimmed_start(s@, cut),
{
    let v = chars_of(s);
    let a = start_of(v.as_slice(), cut);
    let r = text_of(slice_subrange(v.as_slice(), a, v.len()));
    assert(r@ =~= s@.skip(a as int));
    r
}

/// Drops the separating characters at the end.
pub fn trim_end_of(s: &str, cut: Cut) -> (r: String)
    ensures
        r@ == trimmed_end(s@, cut),
{
    let v = chars_of(s);
    let b = end_of(v.as_slice(), cut);
    let r = text_of(slice_subrange(v.as_slice(), 0, b));
    assert(r@ =~= s@.take(b as int));
    r
}

/// Drops the separating characters at both ends.
pub fn trim_of(s: &str, cut: Cut) -> (r: String)
    ensures
        r@ == trimmed_of(s@, cut),
{
    let t = trim_start_of(s, cut);
    trim_end_of(t.as_str(), cut)
}

/// Drops the white space at both ends.
pub fn trim(s: &str) -> (r: String)
    ensures
        r@ == trimmed(s@),
{
    trim_of(s, Cut::Space)
}

// --- searching -------------------------------------------------------------------------

/// `pat` stands in `s` at position `i`.
pub open spec fn occurs_at(s: Seq<char>, pat: Seq<char>, i: int) -> bool {
    0 <= i && i + pat.len() <= s.len() && s.subrange(i, i + pat.len()) == pat
}

/// `pat` stands somewhere in `s`.
pub open spec fn holds(s: Seq<char>, pat: Seq<char>) -> bool {
    exists|i: int| #[trigger] occurs_at(s, pat, i)
}

/// The first position, `from` or later, at which `pat` stands in `s`.
pub open spec fn found(s: Seq<char>, pat: Seq<char>, from: int) -> Option<int>
    decreases s.len() + 1 - from,
{
    if from < 0 || from + pat.len() > s.len() {
        None
    } else if occurs_at(s, pat, from) {
        Some(from)
    } else {
        found(s, pat, from + 1)
    }
}

/// `found` finds something exactly when `pat` stands in `s` at `from` or later, and then it
/// finds the first such place.
pub proof fn lemma_found(s: Seq<char>, pat: Seq<char>, from: int)
    requires
        0 <= from,
    ensures
        (match found(s, pat, from) {
            Some(i) => from <= i && occurs_at(s, pat, i) && (forall|j: int|
                from <= j < i ==> !#[trigger] occurs_at(s, pat, j)),
            None => forall|j: int| from <= j ==> !#[trigger] occurs_at(s, pat, j),
        }),
    decreases s.len() + 1 - from,
{
    if from + pat.len() <= s.len() && !occurs_at(s, pat, from) {
        lemma_found(s, pat, from + 1);
    }
}

/// Whether `pat` stands in `v` at position `i`.
pub fn stands_at(v: &[char], pat: &[char], i: usize) -> (r: bool)
    ensures
        r == occurs_at(v@, pat@, i as int),
{
    if i > v.len() || pat.len() > v.len() - i {
        return false;
    }
    let sub = slice_subrange(v, i, i + pat.len());
    same_chars(sub, pat)
}

/// The first position, `from` or later, at which `pat` stands in `v`.
pub fn find_from(v: &[char], pat: &[char], from: usize) -> (r: Option<usize>)
    ensures
        (match r {
            Some(i) => found(v@, pat@, from as int) == Some(i as int),
            None => found(v@, pat@, from as int) is None,
        }),
        r is Some ==> from <= r->0 && r->0 + pat@.len() <= v@.len() <= usize::MAX,
{
    let mut i: usize = from;
    while i <= v.len() && pat.len() <= v.len() - i
        invariant
            from <= i,
            found(v@, pat@, i as int) == found(v@, pat@, from as int),
        decreases v@.len() + 1 - i,
    {
        if stands_at(v, pat, i) {
            return Some(i);
        }
        assert(pat@.len() == 0 ==> v@.subrange(i as int, i as int) =~= pat@);
        i = i + 1;
    }
    None
}

/// Whether `pat` stands somewhere in `s`.
pub fn contains(s: &str, pat: &str) -> (r: bool)
    ensures
        r == holds(s@, pat@),
{
    let v = chars_of(s);
    let p = chars_of(pat);
    let r = find_from(v.as_slice(), p.as_slice(), 0);
    proof {
        lemma_found(s@, pat@, 0);
    }
    r.is_some()
}

/// Whether a text holds another, in either case.
pub fn contains_ci(s: &str, pat: &str) -> (r: bool)
    ensures
        r == holds(lowercase(s@), lowercase(pat@)),
{
    let a = to_lower(s);
    let b = to_lower(pat);
    contains(a.as_str(), b.as_str())
}

/// Whether the character `c` stands somewhere in `s`.
pub fn contains_char(s: &str, c: char) -> (r: bool)
    ensures
        r == s@.contains(c),
{
    let v = chars_of(s);
    for i in 0..v.len()
        invariant
            v@ == s@,
            forall|j: int| 0 <= j < i ==> v@[j] != c,
    {
        if v[i] == c {
            return true;
        }
    }
    false
}

/// `s` begins with `pat`.
pub open spec fn begins(s: Seq<char>, pat: Seq<char>) -> bool {
    occurs_at(s, pat, 0)
}

/// `s` ends with `pat`.
pub open spec fn finishes(s: Seq<char>, pat: Seq<char>) -> bool {
    occurs_at(s, pat, s.len() - pat.len())
}

/// Whether `s` begins with `pat`.
pub fn starts_with(s: &str, pat: &str) -> (r: bool)
    ensures
        r == begins(s@, pat@),
{
    let v = chars_of(s);
    let p = chars_of(pat);
    stands_at(v.as_slice(), p.as_slice(), 0)
}

/// Whether `s` ends with `pat`.
pub fn ends_with(s: &str, pat: &str) -> (r: bool)
    ensures
        r == finishes(s@, pat@),
{
    let v = chars_of(s);
    let p = chars_of(pat);
    if p.len() > v.len() {
        return false;
    }
    stands_at(v.as_slice(), p.as_slice(), v.len() - p.len())
}

/// What follows `pat` in a text that begins with it.
pub open spec fn past(s: Seq<char>, pat: Seq<char>) -> Option<Seq<char>> {
    if begins(s, pat) {
        Some(s.skip(pat.len() as int))
    } else {
        None
    }
}

/// What precedes `pat` in a text that ends with it.
pub open spec fn upto(s: Seq<char>, pat: Seq<char>) -> Option<Seq<char>> {
    if finishes(s, pat) {
        Some(s.take(s.len() - pat.len()))
    } else {
        None
    }
}

/// The characters of an optional text.
pub open spec fn maybe(o: Option<String>) -> Option<Seq<char>> {
    match o {
        Some(s) => Some(s@),
        None => None,
    }
}

/// Takes a prefix off.
pub fn strip_prefix(s: &str, pat: &str) -> (r: Option<String>)
    ensures
        maybe(r) == past(s@, pat@),
{
    let v = chars_of(s);
    let p = chars_of(pat);
    if stands_at(v.as_slice(), p.as_slice(), 0) {
        let t = text_of(slice_subrange(v.as_slice(), p.len(), v.len()));
        assert(t@ =~= s@.skip(pat@.len() as int));
        Some(t)
    } else {
        None
    }
}

/// Takes a suffix off.
pub fn strip_suffix(s: &str, pat: &str) -> (r: Option<String>)
    ensures
        maybe(r) == upto(s@, pat@),
{
    let v = chars_of(s);
    let p = chars_of(pat);
    if p.len() > v.len() {
        return None;
    }
    let n: usize = v.len() - p.len();
    if stands_at(v.as_slice(), p.as_slice(), n) {
        let t = text_of(slice_subrange(v.as_slice(), 0, n));
        assert(t@ =~= s@.take(n as int));
        Some(t)
    } else {
        None
    }
}

/// What `f` says of the first member of a list that it says anything of.
pub open spec fn first_some<A>(ps: Seq<Seq<char>>, f: spec_fn(Seq<char>) -> Option<A>) -> Option<A>
    decreases ps.len(),
{
    if ps.len() == 0 {
        None
    } else {
        match f(ps[0]) {
            Some(a) => Some(a),
            None => first_some(ps.skip(1), f),
        }
    }
}

/// One step of a search for the first member that `f` says something of.
pub proof fn lemma_first_some<A>(
    ps: Seq<Seq<char>>,
    f: spec_fn(Seq<char>) -> Option<A>,
    i: int,
)
    requires
        0 <= i <= ps.len(),
    ensures
        i == ps.len() ==> first_some(ps.skip(i), f) is None,
        i < ps.len() ==> first_some(ps.skip(i), f) == (match f(ps[i]) {
            Some(a) => Some(a),
            None => first_some(ps.skip(i + 1), f),
        }),
        ps.skip(0) == ps,
{
    assert(ps.skip(0) =~= ps);
    if i < ps.len() {
        assert(ps.skip(i)[0] == ps[i]);
        assert(ps.skip(i).skip(1) =~= ps.skip(i + 1));
    }
}

/// The decimal digits of a text, without its other characters.
pub open spec fn digits_of(s: Seq<char>) -> Seq<char>
    decreases s.len(),
{
    if s.len() == 0 {
        s
    } else if is_digit(s.last()) {
        digits_of(s.drop_last()).push(s.last())
    } else {
        digits_of(s.drop_last())
    }
}

/// Keeps the decimal digits of a run of characters.
pub fn only_digits(v: &[char]) -> (r: Vec<char>)
    ensures
        r@ == digits_of(v@),
{
    let mut r: Vec<char> = Vec::new();
    assert(v@.take(0) =~= Seq::empty());
    for i in 0..v.len()
        invariant
            r@ == digits_of(v@.take(i as int)),
    {
        assert(v@.take(i + 1).drop_last() =~= v@.take(i as int));
        if '0' <= v[i] && v[i] <= '9' {
            r.push(v[i]);
        }
    }
    assert(v@.take(v@.len() as int) =~= v@);
    r
}

// --- joining ---------------------------------------------------------------------------

/// The texts of a list one after the other, with `sep` between each and the next.
pub open spec fn joined(ps: Seq<Seq<char>>, sep: Seq<char>) -> Seq<char>
    decreases ps.len(),
{
    if ps.len() == 0 {
        Seq::empty()
    } else if ps.len() == 1 {
        ps[0]
    } else {
        joined(ps.drop_last(), sep) + sep + ps.last()
    }
}

/// A word: at least one character, and no white space.
pub open spec fn is_word(w: Seq<char>) -> bool {
    w.len() > 0 && forall|i: int| 0 <= i < w.len() ==> !is_space(#[trigger] w[i])
}

/// The stretches between separating characters hold none of them, and nothing that the text does
/// not.
proof fn lemma_pieces_of(s: Seq<char>, cut: Cut)
    ensures
        forall|k: int, i: int|
            0 <= k < pieces(s, cut).len() && 0 <= i < pieces(s, cut)[k].len() ==> !cut.cuts(
                #[trigger] pieces(s, cut)[k][i],
            ) && s.contains(pieces(s, cut)[k][i]),
    decreases s.len(),
{
    let ps = pieces(s, cut);
    if s.len() > 0 {
        let a = s.drop_last();
        let done = pieces(a, cut);
        lemma_pieces_of(a, cut);
        lemma_pieces_nonempty(a, cut);
        assert forall|k: int, i: int| 0 <= k < ps.len() && 0 <= i < ps[k].len() implies !cut.cuts(
            #[trigger] ps[k][i],
        ) && s.contains(ps[k][i]) by {
            if k < done.len() && i < done[k].len() {
                assert(ps[k][i] == done[k][i]);
                let j = choose|j: int| 0 <= j < a.len() && a[j] == done[k][i];
                assert(s[j] == ps[k][i]);
            } else {
                assert(ps[k][i] == s[s.len() - 1]);
            }
        }
    }
}

/// What is left of a list without its empty members is not empty, and was in the list.
proof fn lemma_filled_of(ps: Seq<Seq<char>>)
    ensures
        forall|k: int|
            0 <= k < filled(ps).len() ==> (#[trigger] filled(ps)[k]).len() > 0 && ps.contains(
                filled(ps)[k],
            ),
    decreases ps.len(),
{
    if ps.len() > 0 {
        let a = ps.drop_last();
        lemma_filled_of(a);
        assert forall|k: int| 0 <= k < filled(ps).len() implies (#[trigger] filled(ps)[k]).len() > 0
            && ps.contains(filled(ps)[k]) by {
            if k < filled(a).len() {
                assert(filled(ps)[k] == filled(a)[k]);
                let j = choose|j: int| 0 <= j < a.len() && a[j] == filled(a)[k];
                assert(ps[j] == filled(ps)[k]);
            } else {
                assert(filled(ps)[k] == ps[ps.len() - 1]);
            }
        }
    }
}

/// The words of a text are words, and hold nothing that the text does not.
pub proof fn lemma_words(s: Seq<char>)
    ensures
        forall|k: int| 0 <= k < words(s).len() ==> is_word(#[trigger] words(s)[k]),
        forall|k: int, i: int|
            0 <= k < words(s).len() && 0 <= i < words(s)[k].len() ==> s.contains(
                #[trigger] words(s)[k][i],
            ),
{
    let ps = pieces(s, Cut::Space);
    lemma_pieces_of(s, Cut::Space);
    lemma_filled_of(ps);
    assert forall|k: int| 0 <= k < words(s).len() implies is_word(#[trigger] words(s)[k]) by {
        let j = choose|j: int| 0 <= j < ps.len() && ps[j] == words(s)[k];
        assert forall|i: int| 0 <= i < words(s)[k].len() implies !is_space(
            #[trigger] words(s)[k][i],
        ) by {
            assert(!Cut::Space.cuts(ps[j][i]));
        }
    }
    assert forall|k: int, i: int|
        0 <= k < words(s).len() && 0 <= i < words(s)[k].len() implies s.contains(
        #[trigger] words(s)[k][i],
    ) by {
        assert(ps.contains(words(s)[k]));
        let j = choose|j: int| 0 <= j < ps.len() && ps[j] == words(s)[k];
        assert(s.contains(ps[j][i]));
    }
}

/// A stretch without separating characters goes on where the text before it ended.
proof fn lemma_pieces_grow(s: Seq<char>, w: Seq<char>, cut: Cut)
    requires
        forall|i: int| 0 <= i < w.len() ==> !cut.cuts(#[trigger] w[i]),
    ensures
        pieces(s + w, cut) == pieces(s, cut).drop_last().push(pieces(s, cut).last() + w),
    decreases w.len(),
{
    let ps = pieces(s, cut);
    lemma_pieces_nonempty(s, cut);
    if w.len() == 0 {
        assert(s + w =~= s);
        assert(ps.last() + w =~= ps.last());
        assert(ps =~= ps.drop_last().push(ps.last()));
    } else {
        let v = w.drop_last();
        assert((s + w).drop_last() =~= s + v);
        assert((s + w).last() == w[w.len() - 1]);
        lemma_pieces_grow(s, v, cut);
        assert(ps.drop_last().push(ps.last() + v).drop_last() =~= ps.drop_last());
        assert((ps.last() + v).push(w.last()) =~= ps.last() + w);
    }
}

/// Words joined by single spaces, and cut at white space again, are those words.
pub proof fn lemma_join_words(ws: Seq<Seq<char>>)
    requires
        forall|k: int| 0 <= k < ws.len() ==> is_word(#[trigger] ws[k]),
    ensures
        words(joined(ws, " "@)) == ws,
{
    reveal_strlit(" ");
    if ws.len() == 0 {
        assert(pieces(joined(ws, " "@), Cut::Space) =~= seq![Seq::<char>::empty()]);
        let ps = seq![Seq::<char>::empty()];
        assert(filled(ps.drop_last()) =~= Seq::empty());
        assert(words(joined(ws, " "@)) =~= ws);
    } else {
        lemma_pieces_joined(ws);
        lemma_filled_all(ws);
    }
}

proof fn lemma_pieces_joined(ws: Seq<Seq<char>>)
    requires
        ws.len() > 0,
        forall|k: int| 0 <= k < ws.len() ==> is_word(#[trigger] ws[k]),
    ensures
        pieces(joined(ws, " "@), Cut::Space) == ws,
    decreases ws.len(),
{
    reveal_strlit(" ");
    let none = Seq::<char>::empty();
    let w = ws.last();
    assert(is_word(ws[ws.len() - 1]));
    assert forall|i: int| 0 <= i < w.len() implies !Cut::Space.cuts(#[trigger] w[i]) by {
        assert(!is_space(w[i]));
    }
    if ws.len() == 1 {
        lemma_pieces_grow(none, w, Cut::Space);
        assert(none + w =~= w);
        assert(pieces(none, Cut::Space).drop_last().push(none + w) =~= ws);
    } else {
        let a = ws.drop_last();
        assert forall|k: int| 0 <= k < a.len() implies is_word(#[trigger] a[k]) by {
            assert(a[k] == ws[k]);
        }
        lemma_pieces_joined(a);
        let t = joined(a, " "@) + " "@;
        assert(t =~= joined(a, " "@).push(' '));
        assert(t.drop_last() =~= joined(a, " "@));
        assert(pieces(t, Cut::Space) == a.push(none));
        lemma_pieces_grow(t, w, Cut::Space);
        assert(a.push(none).drop_last() =~= a);
        assert(none + w =~= w);
        assert(a.push(w) =~= ws);
    }
}

proof fn lemma_filled_all(ps: Seq<Seq<char>>)
    requires
        forall|k: int| 0 <= k < ps.len() ==> is_word(#[trigger] ps[k]),
    ensures
        filled(ps) == ps,
    decreases ps.len(),
{
    if ps.len() > 0 {
        let a = ps.drop_last();
        assert forall|k: int| 0 <= k < a.len() implies is_word(#[trigger] a[k]) by {
            assert(a[k] == ps[k]);
        }
        lemma_filled_all(a);
        assert(is_word(ps[ps.len() - 1]));
        assert(a.push(ps.last()) =~= ps);
    }
}

/// Words one space apart: a word at each end, and no white space but single spaces between them.
pub open spec fn single_spaced(s: Seq<char>) -> bool {
    &&& s.len() > 0 ==> !is_space(s[0]) && !is_space(s.last())
    &&& forall|i: int| 0 <= i < s.len() && is_space(#[trigger] s[i]) ==> s[i] == ' '
    &&& forall|i: int, j: int|
        0 <= i < s.len() && j == i + 1 && j < s.len() && is_space(#[trigger] s[i]) ==> !is_space(
            #[trigger] s[j],
        )
}

/// Words joined by single spaces stand one space apart, and hold nothing but the characters of
/// the words and the spaces.
pub proof fn lemma_join_spaces(ws: Seq<Seq<char>>)
    requires
        forall|k: int| 0 <= k < ws.len() ==> is_word(#[trigger] ws[k]),
    ensures
        single_spaced(joined(ws, " "@)),
        ws.len() > 0 ==> joined(ws, " "@).len() > 0,
        forall|i: int|
            0 <= i < joined(ws, " "@).len() ==> #[trigger] joined(ws, " "@)[i] == ' ' || exists|
                k: int,
            |
                0 <= k < ws.len() && #[trigger] ws[k].contains(joined(ws, " "@)[i]),
    decreases ws.len(),
{
    reveal_strlit(" ");
    let r = joined(ws, " "@);
    if ws.len() == 1 {
        assert(is_word(ws[0]));
        assert forall|i: int| 0 <= i < r.len() implies ws[0].contains(#[trigger] r[i]) by {}
    } else if ws.len() > 1 {
        let a = ws.drop_last();
        let w = ws.last();
        assert(is_word(ws[ws.len() - 1]));
        assert forall|k: int| 0 <= k < a.len() implies is_word(#[trigger] a[k]) by {
            assert(a[k] == ws[k]);
        }
        lemma_join_spaces(a);
        let t = joined(a, " "@);
        assert(r =~= t.push(' ') + w);
        assert forall|i: int| 0 <= i < r.len() implies #[trigger] r[i] == ' ' || exists|k: int|
            0 <= k < ws.len() && #[trigger] ws[k].contains(r[i]) by {
            if i < t.len() {
                assert(r[i] == t[i]);
                if t[i] != ' ' {
                    let k = choose|k: int| 0 <= k < a.len() && #[trigger] a[k].contains(t[i]);
                    assert(ws[k].contains(r[i]));
                }
            } else if i > t.len() {
                assert(r[i] == w[i - t.len() - 1]);
                assert(ws[ws.len() - 1].contains(r[i]));
            }
        }
        assert forall|i: int| 0 <= i < r.len() && is_space(#[trigger] r[i]) implies r[i] == ' ' by {
            if i < t.len() {
                assert(r[i] == t[i]);
            } else if i > t.len() {
                assert(r[i] == w[i - t.len() - 1]);
            }
        }
        assert forall|i: int, j: int|
            0 <= i < r.len() && j == i + 1 && j < r.len() && is_space(
                #[trigger] r[i],
            ) implies !is_space(#[trigger] r[j]) by {
            if j < t.len() {
                assert(r[i] == t[i] && r[j] == t[j]);
            } else if j == t.len() {
                assert(r[i] == t[t.len() - 1]);
            } else {
                assert(r[j] == w[j - t.len() - 1]);
            }
        }
        assert(r[0] == t[0]);
        assert(r.last() == w.last());
    }
}

/// A text without a character.
pub open spec fn is_without(s: Seq<char>, c: char) -> bool {
    forall|i: int| 0 <= i < s.len() ==> #[trigger] s[i] != c
}

/// Texts without a separator, joined by it and cut at it again, are those texts.
pub proof fn lemma_join_and_cut(ws: Seq<Seq<char>>, c: char)
    requires
        ws.len() > 0,
        forall|k: int| 0 <= k < ws.len() ==> is_without(#[trigger] ws[k], c),
    ensures
        pieces(joined(ws, seq![c]), Cut::At(c)) == ws,
    decreases ws.len(),
{
    let none = Seq::<char>::empty();
    let w = ws.last();
    assert(is_without(ws[ws.len() - 1], c));
    assert forall|i: int| 0 <= i < w.len() implies !Cut::At(c).cuts(#[trigger] w[i]) by {}
    if ws.len() == 1 {
        lemma_pieces_grow(none, w, Cut::At(c));
        assert(none + w =~= w);
        assert(pieces(none, Cut::At(c)).drop_last().push(none + w) =~= ws);
    } else {
        let a = ws.drop_last();
        assert forall|k: int| 0 <= k < a.len() implies is_without(#[trigger] a[k], c) by {
            assert(a[k] == ws[k]);
        }
        lemma_join_and_cut(a, c);
        let t = joined(a, seq![c]) + seq![c];
        assert(t =~= joined(a, seq![c]).push(c));
        assert(t.drop_last() =~= joined(a, seq![c]));
        assert(pieces(t, Cut::At(c)) == a.push(none));
        lemma_pieces_grow(t, w, Cut::At(c));
        assert(a.push(none).drop_last() =~= a);
        assert(none + w =~= w);
        assert(a.push(w) =~= ws);
    }
}

/// Joins texts with a separator.
pub fn join(ps: &[String], sep: &str) -> (r: String)
    ensures
        r@ == joined(views(ps@), sep@),
{
    let mut r = String::new();
    let ghost all = views(ps@);
    for i in 0..ps.len()
        invariant
            all == views(ps@),
            r@ == joined(all.take(i as int), sep@),
    {
        proof {
            assert(all.take(i + 1).drop_last() =~= all.take(i as int));
        }
        if i > 0 {
            r.append(sep);
        }
        r.append(ps[i].as_str());
        proof {
            assert(all.take(i + 1).last() == ps@[i as int]@);
            if i == 0 {
                assert(r@ =~= ps@[0]@);
            }
        }
    }
    assert(all.take(ps@.len() as int) =~= all);
    r
}

// --- replacing -------------------------------------------------------------------------

/// `s` with every occurrence of `pat` replaced by `with`, read from the left.
pub open spec fn replaced(s: Seq<char>, pat: Seq<char>, with: Seq<char>) -> Seq<char>
    decreases s.len(),
{
    match found(s, pat, 0) {
        Some(i) => if pat.len() > 0 && 0 <= i && i + pat.len() <= s.len() {
            s.take(i) + with + replaced(s.skip(i + pat.len()), pat, with)
        } else {
            s
        },
        None => s,
    }
}

/// Looking for a text from `k` on is looking for it in what follows `k`.
proof fn lemma_found_skip(s: Seq<char>, pat: Seq<char>, k: int, from: int)
    requires
        0 <= k <= from,
        k <= s.len(),
    ensures
        (match found(s, pat, from) {
            Some(i) => found(s.skip(k), pat, from - k) == Some(i - k),
            None => found(s.skip(k), pat, from - k) is None,
        }),
    decreases s.len() + 1 - from,
{
    if from + pat.len() <= s.len() {
        assert(s.skip(k).subrange(from - k, from - k + pat.len()) =~= s.subrange(
            from,
            from + pat.len(),
        ));
        if !occurs_at(s, pat, from) {
            lemma_found_skip(s, pat, k, from + 1);
        }
    }
}

/// Replaces every occurrence of a non-empty pattern.
pub fn replace(s: &str, pat: &str, with: &str) -> (r: String)
    requires
        pat@.len() > 0,
    ensures
        r@ == replaced(s@, pat@, with@),
{
    let v = chars_of(s);
    let p = chars_of(pat);
    let mut r = String::new();
    let mut at: usize = 0;
    assert(v@.skip(0) =~= v@);
    assert(r@ + replaced(v@.skip(0), p@, with@) =~= replaced(v@, p@, with@));
    loop
        invariant
            at <= v@.len(),
            p@.len() > 0,
            r@ + replaced(v@.skip(at as int), p@, with@) == replaced(v@, p@, with@),
        ensures
            at <= v@.len(),
            found(v@, p@, at as int) is None,
            r@ + replaced(v@.skip(at as int), p@, with@) == replaced(v@, p@, with@),
        decreases v@.len() - at,
    {
        match find_from(v.as_slice(), p.as_slice(), at) {
            None => {
                break;
            },
            Some(i) => {
                let ghost rest = v@.skip(at as int);
                let ghost r0 = r@;
                let part = text_of(slice_subrange(v.as_slice(), at, i));
                r.append(part.as_str());
                r.append(with);
                let next: usize = i + p.len();
                proof {
                    lemma_found_skip(v@, p@, at as int, at as int);
                    lemma_found(v@, p@, at as int);
                    assert(part@ =~= rest.take(i - at));
                    assert(rest.skip(i - at + p@.len()) =~= v@.skip(next as int));
                    assert(r@ + replaced(v@.skip(next as int), p@, with@) =~= r0 + (rest.take(i - at)
                        + with@ + replaced(v@.skip(next as int), p@, with@)));
                }
                at = next;
            },
        }
    }
    let tail = text_of(slice_subrange(v.as_slice(), at, v.len()));
    proof {
        lemma_found_skip(v@, p@, at as int, at as int);
        assert(tail@ =~= v@.skip(at as int));
    }
    r.append(tail.as_str());
    r
}

// --- ASCII case ------------------------------------------------------------------------

/// A character with ASCII capitals made small.
pub open spec fn ascii_lower_char(c: char) -> char {
    if 'A' <= c <= 'Z' {
        (c as int + 32) as char
    } else {
        c
    }
}

/// A text with ASCII capitals made small.
pub open spec fn ascii_lower(s: Seq<char>) -> Seq<char> {
    s.map_values(|c: char| ascii_lower_char(c))
}

/// One character with ASCII capitals made small.
fn lower_char(c: char) -> (r: char)
    ensures
        r == ascii_lower_char(c),
{
    if 'A' <= c && c <= 'Z' {
        ((c as u8) + 32) as char
    } else {
        c
    }
}

/// Makes ASCII capitals small.
pub fn lower_ascii(s: &str) -> (r: String)
    ensures
        r@ == ascii_lower(s@),
{
    let v = chars_of(s);
    let mut r = String::new();
    for i in 0..v.len()
        invariant
            v@ == s@,
            r@ == ascii_lower(v@.take(i as int)),
    {
        let c = lower_char(v[i]);
        r.push(c);
        assert(r@ =~= ascii_lower(v@.take(i + 1)));
    }
    assert(v@.take(v@.len() as int) =~= v@);
    r
}

// --- putting texts together --------------------------------------------------------------------

/// Two texts, one after the other.
pub fn cat2(a: &str, b: &str) -> (r: String)
    ensures
        r@ == a@ + b@,
{
    let mut r = a.to_owned();
    r.append(b);
    r
}

/// Three texts, one after the other.
pub fn cat3(a: &str, b: &str, c: &str) -> (r: String)
    ensures
        r@ == a@ + b@ + c@,
{
    let mut r = cat2(a, b);
    r.append(c);
    r
}

/// Four texts, one after the other.
pub fn cat4(a: &str, b: &str, c: &str, d: &str) -> (r: String)
    ensures
        r@ == a@ + b@ + c@ + d@,
{
    let mut r = cat3(a, b, c);
    r.append(d);
    r
}

/// Five texts, one after the other.
pub fn cat5(a: &str, b: &str, c: &str, d: &str, e: &str) -> (r: String)
    ensures
        r@ == a@ + b@ + c@ + d@ + e@,
{
    let mut r = cat4(a, b, c, d);
    r.append(e);
    r
}

/// Six texts, one after the other.
pub fn cat6(a: &str, b: &str, c: &str, d: &str, e: &str, f: &str) -> (r: String)
    ensures
        r@ == a@ + b@ + c@ + d@ + e@ + f@,
{
    let mut r = cat5(a, b, c, d, e);
    r.append(f);
    r
}

// --- ends that are taken off -------------------------------------------------------------------

/// What stands behind the last of a character; all of it where there is none.
pub open spec fn behind_last(s: Seq<char>, c: char) -> Seq<char>
    decreases s.len(),
{
    if s.len() == 0 || s.last() == c {
        Seq::empty()
    } else {
        behind_last(s.drop_last(), c).push(s.last())
    }
}

/// What stands behind the last of a character.
pub fn after_last(s: &str, c: char) -> (r: String)
    ensures
        r@ == behind_last(s@, c),
{
    let v = chars_of(s);
    let mut i: usize = v.len();
    let ghost whole = v@;
    proof {
        assert(whole.take(i as int) =~= whole);
        assert(whole.skip(i as int) =~= Seq::empty());
        assert(behind_last(whole, c) + Seq::<char>::empty() =~= behind_last(whole, c));
    }
    while i > 0 && v[i - 1] != c
        invariant
            v@ == whole,
            i <= whole.len(),
            behind_last(whole, c) == behind_last(whole.take(i as int), c) + whole.skip(i as int),
        decreases i,
    {
        proof {
            let t = whole.take(i as int);
            assert(t.drop_last() =~= whole.take(i - 1));
            assert(t.last() == whole[i - 1]);
            assert(behind_last(whole.take(i - 1), c).push(whole[i - 1]) + whole.skip(i as int)
                =~= behind_last(whole.take(i - 1), c) + whole.skip(i - 1));
        }
        i = i - 1;
    }
    proof {
        let t = whole.take(i as int);
        if i > 0 {
            assert(t.last() == whole[i - 1]);
        }
        assert(behind_last(t, c) =~= Seq::empty());
        assert(behind_last(whole, c) =~= whole.skip(i as int));
        assert(whole.subrange(i as int, whole.len() as int) =~= whole.skip(i as int));
    }
    text_of(slice_subrange(v.as_slice(), i, v.len()))
}

/// A text without any number of copies of another at its start.
pub open spec fn stripped_start(s: Seq<char>, pat: Seq<char>) -> Seq<char>
    decreases s.len(),
{
    if pat.len() > 0 && begins(s, pat) {
        stripped_start(s.skip(pat.len() as int), pat)
    } else {
        s
    }
}

/// A text without any number of copies of another at its end.
pub open spec fn stripped_end(s: Seq<char>, pat: Seq<char>) -> Seq<char>
    decreases s.len(),
{
    if pat.len() > 0 && finishes(s, pat) {
        stripped_end(s.take(s.len() - pat.len()), pat)
    } else {
        s
    }
}

/// Takes every copy of a text off the start of another.
pub fn strip_start(s: &str, pat: &str) -> (r: String)
    ensures
        r@ == stripped_start(s@, pat@),
{
    let mut t = s.to_owned();
    if pat.is_empty() {
        return t;
    }
    loop
        invariant
            pat@.len() > 0,
            stripped_start(t@, pat@) == stripped_start(s@, pat@),
        decreases t@.len(),
    {
        match strip_prefix(t.as_str(), pat) {
            Some(u) => {
                t = u;
            },
            None => {
                return t;
            },
        }
    }
}

/// Takes every copy of a text off the end of another.
pub fn strip_end(s: &str, pat: &str) -> (r: String)
    ensures
        r@ == stripped_end(s@, pat@),
{
    let mut t = s.to_owned();
    if pat.is_empty() {
        return t;
    }
    loop
        invariant
            pat@.len() > 0,
            stripped_end(t@, pat@) == stripped_end(s@, pat@),
        decreases t@.len(),
    {
        match strip_suffix(t.as_str(), pat) {
            Some(u) => {
                t = u;
            },
            None => {
                return t;
            },
        }
    }
}

// --- the order of texts ----------------------------------------------------------------------

/// Two texts agree before `k` and the first has the smaller character there.
pub open spec fn differs_at(a: Seq<char>, b: Seq<char>, k: int) -> bool {
    0 <= k < a.len() && k < b.len() && (forall|j: int| 0 <= j < k ==> a[j] == b[j]) && a[k] < b[k]
}

/// One text sorts before another: at the first character that differs it has the smaller
/// one, or it ends where the other goes on.
pub open spec fn text_before(a: Seq<char>, b: Seq<char>) -> bool {
    ||| exists|k: int| #[trigger] differs_at(a, b, k)
    ||| a.len() < b.len() && a == b.take(a.len() as int)
}

/// Of two texts, one sorts before the other or they are the same, and only one of these.
pub proof fn lemma_text_order(a: Seq<char>, b: Seq<char>)
    ensures
        text_before(a, b) || text_before(b, a) || a == b,
        !(text_before(a, b) && text_before(b, a)),
        !text_before(a, a),
{
    lemma_compare(a, b, 0);
    lemma_not_both(a, b);
    lemma_not_both(a, a);
}

proof fn lemma_compare(a: Seq<char>, b: Seq<char>, k: int)
    requires
        0 <= k <= a.len(),
        k <= b.len(),
        forall|j: int| 0 <= j < k ==> a[j] == b[j],
    ensures
        text_before(a, b) || text_before(b, a) || a == b,
    decreases a.len() - k,
{
    if k == a.len() {
        if k == b.len() {
            assert(a =~= b);
        } else {
            assert(a =~= b.take(k));
        }
    } else if k == b.len() {
        assert(b =~= a.take(k));
    } else if a[k] < b[k] {
        assert(differs_at(a, b, k));
    } else if b[k] < a[k] {
        assert(differs_at(b, a, k));
    } else {
        lemma_compare(a, b, k + 1);
    }
}

proof fn lemma_not_both(a: Seq<char>, b: Seq<char>)
    ensures
        !(text_before(a, b) && text_before(b, a)),
{
    if text_before(a, b) && text_before(b, a) {
        let n = a.len() as int;
        let m = b.len() as int;
        if exists|k: int| differs_at(a, b, k) {
            let k = choose|k: int| differs_at(a, b, k);
            if exists|l: int| differs_at(b, a, l) {
                let l = choose|l: int| differs_at(b, a, l);
                assert(k == l);
            } else {
                assert(b[k] == a.take(m)[k]);
            }
        } else {
            assert(a == b.take(n));
            if exists|l: int| differs_at(b, a, l) {
                let l = choose|l: int| differs_at(b, a, l);
                assert(b.take(n)[l] == a[l]);
            }
        }
    }
}

/// The order of texts is transitive.
pub proof fn lemma_text_order_chain(a: Seq<char>, b: Seq<char>, c: Seq<char>)
    requires
        text_before(a, b),
        text_before(b, c),
    ensures
        text_before(a, c),
{
    let n = a.len() as int;
    let m = b.len() as int;
    if exists|k: int| differs_at(a, b, k) {
        let k = choose|k: int| differs_at(a, b, k);
        if exists|l: int| differs_at(b, c, l) {
            let l = choose|l: int| differs_at(b, c, l);
            assert(differs_at(a, c, if k < l { k } else { l }));
        } else {
            assert(forall|j: int| 0 <= j < m ==> b[j] == c.take(m)[j]);
            assert(differs_at(a, c, k));
        }
    } else {
        assert(forall|j: int| 0 <= j < n ==> a[j] == b.take(n)[j]);
        if exists|l: int| differs_at(b, c, l) {
            let l = choose|l: int| differs_at(b, c, l);
            if l < n {
                assert(differs_at(a, c, l));
            } else {
                assert(a =~= c.take(n));
            }
        } else {
            assert(forall|j: int| 0 <= j < m ==> b[j] == c.take(m)[j]);
            assert(a =~= c.take(n));
        }
    }
}

/// Whether one text sorts before another.
pub fn sorts_before(a: &str, b: &str) -> (r: bool)
    ensures
        r == text_before(a@, b@),
{
    let x = chars_of(a);
    let y = chars_of(b);
    let mut i: usize = 0;
    while i < x.len() && i < y.len()
        invariant
            x@ == a@,
            y@ == b@,
            i <= x@.len(),
            i <= y@.len(),
            forall|j: int| 0 <= j < i ==> x@[j] == y@[j],
        decreases x@.len() - i,
    {
        if x[i] < y[i] {
            assert(differs_at(a@, b@, i as int));
            return true;
        }
        if y[i] < x[i] {
            proof {
                assert(differs_at(b@, a@, i as int));
                lemma_text_order(a@, b@);
            }
            return false;
        }
        i = i + 1;
    }
    proof {
        if x@.len() < y@.len() {
            assert(a@ =~= b@.take(a@.len() as int));
        } else {
            assert(b@ =~= a@.take(b@.len() as int));
            if x@.len() == y@.len() {
                assert(a@ =~= b@);
            }
            lemma_text_order(a@, b@);
        }
    }
    x.len() < y.len()
}

/// What a search finds is said of some member, and nothing is said of those before it.
pub proof fn lemma_first_of<A>(ps: Seq<Seq<char>>, f: spec_fn(Seq<char>) -> Option<A>)
    ensures
        (match first_some(ps, f) {
            Some(a) => exists|k: int|
                0 <= k < ps.len() && f(#[trigger] ps[k]) == Some(a) && forall|j: int|
                    0 <= j < k ==> f(#[trigger] ps[j]) is None,
            None => forall|j: int| 0 <= j < ps.len() ==> f(#[trigger] ps[j]) is None,
        }),
    decreases ps.len(),
{
    if ps.len() > 0 && f(ps[0]) is None {
        let t = ps.skip(1);
        lemma_first_of(t, f);
        match first_some(t, f) {
            Some(a) => {
                let k = choose|k: int|
                    0 <= k < t.len() && f(#[trigger] t[k]) == Some(a) && forall|j: int|
                        0 <= j < k ==> f(#[trigger] t[j]) is None;
                assert(ps[k + 1] == t[k]);
                assert forall|j: int| 0 <= j < k + 1 implies f(#[trigger] ps[j]) is None by {
                    if j > 0 {
                        assert(t[j - 1] == ps[j]);
                    }
                }
            },
            None => {
                assert forall|j: int| 0 <= j < ps.len() implies f(#[trigger] ps[j]) is None by {
                    if j > 0 {
                        assert(t[j - 1] == ps[j]);
                    }
                }
            },
        }
    } else if ps.len() > 0 {
        assert(f(ps[0]) is Some);
    }
}

proof fn lemma_trimmed_start(s: Seq<char>, cut: Cut) -> (n: int)
    ensures
        0 <= n <= s.len(),
        trimmed_start(s, cut) == s.skip(n),
        forall|j: int| 0 <= j < n ==> cut.cuts(#[trigger] s[j]),
        n < s.len() ==> !cut.cuts(s[n]),
    decreases s.len(),
{
    if s.len() > 0 && cut.cuts(s[0]) {
        let t = s.skip(1);
        let n = lemma_trimmed_start(t, cut);
        assert(t.skip(n) =~= s.skip(n + 1));
        assert forall|j: int| 0 <= j < n + 1 implies cut.cuts(#[trigger] s[j]) by {
            if j > 0 {
                assert(t[j - 1] == s[j]);
            }
        }
        if n + 1 < s.len() {
            assert(t[n] == s[n + 1]);
        }
        n + 1
    } else {
        assert(s.skip(0) =~= s);
        0
    }
}

proof fn lemma_trimmed_end(s: Seq<char>, cut: Cut) -> (n: int)
    ensures
        0 <= n <= s.len(),
        trimmed_end(s, cut) == s.take(n),
        forall|j: int| n <= j < s.len() ==> cut.cuts(#[trigger] s[j]),
        n > 0 ==> !cut.cuts(s[n - 1]),
    decreases s.len(),
{
    if s.len() > 0 && cut.cuts(s.last()) {
        let t = s.drop_last();
        let n = lemma_trimmed_end(t, cut);
        assert(t.take(n) =~= s.take(n));
        assert forall|j: int| n <= j < s.len() implies cut.cuts(#[trigger] s[j]) by {
            if j < t.len() {
                assert(t[j] == s[j]);
            }
        }
        n
    } else {
        assert(s.take(s.len() as int) =~= s);
        s.len() as int
    }
}

/// A trimmed text is the stretch of it that neither begins nor ends with white space, and all that
/// was left out on either side is white space.
pub proof fn lemma_trimmed(s: Seq<char>) -> (r: (int, int))
    ensures
        0 <= r.0 <= r.1 <= s.len(),
        trimmed(s) == s.subrange(r.0, r.1),
        forall|j: int| 0 <= j < r.0 ==> is_space(#[trigger] s[j]),
        forall|j: int| r.1 <= j < s.len() ==> is_space(#[trigger] s[j]),
        trimmed(s).len() > 0 ==> !is_space(trimmed(s)[0]) && !is_space(trimmed(s).last()),
{
    let a = lemma_trimmed_start(s, Cut::Space);
    let t = s.skip(a);
    let b = lemma_trimmed_end(t, Cut::Space);
    assert(t.take(b) =~= s.subrange(a, a + b));
    assert forall|j: int| a + b <= j < s.len() implies is_space(#[trigger] s[j]) by {
        assert(t[j - a] == s[j]);
    }
    if b > 0 {
        assert(trimmed(s)[0] == s[a]);
        assert(trimmed(s).last() == t[b - 1]);
    }
    (a, a + b)
}

/// The lines of a text that ends each of its lines: what stands between the ends.
pub proof fn lemma_lines(ls: Seq<Seq<char>>)
    requires
        ls.len() > 0,
        forall|i: int| 0 <= i < ls.len() ==> is_without(#[trigger] ls[i], '\n'),
        forall|i: int| 0 <= i < ls.len() && (#[trigger] ls[i]).len() > 0 ==> ls[i].last() != '\r',
    ensures
        lines(joined(ls, seq!['\n']) + seq!['\n']) == ls,
{
    let e = ls.push(Seq::empty());
    assert(e.drop_last() =~= ls);
    assert(joined(e, seq!['\n']) =~= joined(ls, seq!['\n']) + seq!['\n']);
    assert forall|k: int| 0 <= k < e.len() implies is_without(#[trigger] e[k], '\n') by {
        if k < ls.len() {
            assert(e[k] == ls[k]);
        }
    }
    lemma_join_and_cut(e, '\n');
    assert(lines(joined(e, seq!['\n'])) =~= ls);
}

/// The pieces of a text hold no separator, and with one between each two they are the text again.
pub proof fn lemma_cut_and_join(s: Seq<char>, c: char)
    ensures
        joined(pieces(s, Cut::At(c)), seq![c]) == s,
        pieces(s, Cut::At(c)).len() > 0,
        forall|k: int|
            0 <= k < pieces(s, Cut::At(c)).len() ==> is_without(
                #[trigger] pieces(s, Cut::At(c))[k],
                c,
            ),
    decreases s.len(),
{
    let p = pieces(s, Cut::At(c));
    if s.len() > 0 {
        let t = s.drop_last();
        let q = pieces(t, Cut::At(c));
        lemma_cut_and_join(t, c);
        if s.last() == c {
            assert(p.drop_last() =~= q);
            assert(joined(p, seq![c]) =~= s);
        } else {
            assert(p.drop_last() =~= q.drop_last());
            assert(is_without(q[q.len() - 1], c));
            assert(p.last() == q.last().push(s.last()));
            assert(t.push(s.last()) =~= s);
            if q.len() > 1 {
                let h = joined(q.drop_last(), seq![c]) + seq![c];
                assert(joined(q, seq![c]) == h + q.last());
                assert(joined(p, seq![c]) == h + p.last());
                assert(h + q.last().push(s.last()) =~= (h + q.last()).push(s.last()));
            } else {
                assert(q.last() == q[0] && p.last() == p[0]);
                assert(joined(q, seq![c]) == q[0]);
                assert(joined(p, seq![c]) =~= s);
            }
            assert forall|k: int| 0 <= k < p.len() implies is_without(#[trigger] p[k], c) by {
                if k < q.len() - 1 {
                    assert(p[k] == q[k]);
                }
            }
        }
    } else {
        assert(joined(p, seq![c]) =~= s);
    }
}

} // verus!
