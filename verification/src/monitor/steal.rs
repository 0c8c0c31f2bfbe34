//! The time that a hypervisor takes from the machine.

use vstd::prelude::*;
use crate::number::{dec, decimal, natural, parse_upto, within};
use crate::pick::{lemma_pick, lemma_pick_ends, picked};
use crate::text::{
    begins, cat2, is_space, is_without, is_word, joined, lemma_join_words, lemma_lines, lines, same,
    split_lines, split_words, starts_with, views, words,
};

verus! {

/// From what share on, in percent, the time taken is a problem and no noise.
pub const CONCERNING: u64 = 10;

/// How high the chart goes, in percent.
pub const SCALE: u64 = 100;

/// A line that lists the features of a processor and has that of a guest.
pub open spec fn is_guest_line(line: Seq<char>) -> bool {
    begins(line, "flags"@) && words(line).contains("hypervisor"@)
}

/// The processors are those of a guest.
pub open spec fn is_guest(cpuinfo: Seq<char>) -> bool {
    exists|i: int| 0 <= i < lines(cpuinfo).len() && is_guest_line(#[trigger] lines(cpuinfo)[i])
}

/// How many of the first `n` lines open the block of a processor.
pub open spec fn processors(ls: Seq<Seq<char>>, n: int) -> nat
    decreases n,
{
    if n <= 0 {
        0
    } else {
        processors(ls, n - 1) + (if begins(ls[n - 1], "processor"@) {
            1nat
        } else {
            0nat
        })
    }
}

/// How many processors there are, at least one.
pub open spec fn vcpus_in(cpuinfo: Seq<char>) -> nat {
    let n = processors(lines(cpuinfo), lines(cpuinfo).len() as int);
    if n > 0 {
        n
    } else {
        1
    }
}

/// The sum of numbers.
pub open spec fn sum(v: Seq<nat>) -> nat
    decreases v.len(),
{
    if v.len() == 0 {
        0
    } else {
        sum(v.drop_last()) + v.last()
    }
}

/// The number that a word writes.
pub open spec fn jiffies(word: Seq<char>) -> Option<nat> {
    within(natural(word), u64::MAX as nat)
}

/// The counters that a line has: up to eight behind its name.
pub open spec fn counters(line: Seq<char>) -> Seq<nat> {
    let w = words(line);
    let end = if w.len() > 9 {
        9
    } else {
        w.len() as int
    };
    picked(w.subrange(1, end), |x: Seq<char>| jiffies(x))
}

/// The time taken and the whole time, of the first line. The sum stops at the time taken: what
/// follows is counted in the first two already. There is nothing where the whole does not fit.
pub open spec fn times_in(stat: Seq<char>) -> Option<(nat, nat)> {
    let ls = lines(stat);
    if ls.len() == 0 || words(ls[0]).len() == 0 || words(ls[0])[0] != "cpu"@ {
        None
    } else {
        let v = counters(ls[0]);
        if v.len() < 8 || sum(v) > u64::MAX {
            None
        } else {
            Some((v[7], sum(v)))
        }
    }
}

proof fn lemma_sum_grows(v: Seq<nat>, n: int)
    requires
        0 <= n <= v.len(),
    ensures
        sum(v.take(n)) <= sum(v),
    decreases v.len(),
{
    if n == v.len() {
        assert(v.take(n) =~= v);
    } else {
        assert(v.drop_last().take(n) =~= v.take(n));
        lemma_sum_grows(v.drop_last(), n);
    }
}

/// Numbers, in contracts.
pub open spec fn nats(v: Seq<u64>) -> Seq<nat> {
    Seq::new(v.len(), |i: int| v[i] as nat)
}

fn read_counters(w: &Vec<String>, Ghost(line): Ghost<Seq<char>>) -> (r: Vec<u64>)
    requires
        views(w@) == words(line),
        w@.len() > 0,
    ensures
        nats(r@) == counters(line),
{
    let ghost vs = words(line);
    assert(vs.len() == w@.len());
    let end: usize = if w.len() > 9 {
        9
    } else {
        w.len()
    };
    let ghost part = vs.subrange(1, end as int);
    let ghost f = |x: Seq<char>| jiffies(x);
    let mut r: Vec<u64> = Vec::new();
    proof {
        lemma_pick_ends(part, f);
        assert(nats(r@) =~= Seq::empty());
    }
    for i in 1..end
        invariant
            vs == views(w@),
            1 <= end <= w@.len(),
            part == vs.subrange(1, end as int),
            f == (|x: Seq<char>| jiffies(x)),
            nats(r@) == picked(part.take(i - 1), f),
    {
        proof {
            lemma_pick(part, f, i - 1);
            assert(part[i - 1] == w@[i as int]@);
        }
        match parse_upto(w[i].as_str(), u64::MAX) {
            Some(n) => {
                let ghost before = nats(r@);
                r.push(n);
                assert(nats(r@) =~= before.push(n as nat));
            },
            None => {},
        }
    }
    r
}

/// Two numbers, in contracts.
pub open spec fn pair_seen(r: Option<(u64, u64)>) -> Option<(nat, nat)> {
    match r {
        Some(x) => Some((x.0 as nat, x.1 as nat)),
        None => None,
    }
}

/// The time taken and the whole time, since the machine was turned on.
pub fn read_jiffies(stat: &str) -> (r: Option<(u64, u64)>)
    ensures
        pair_seen(r) == times_in(stat@),
{
    let ls = split_lines(stat);
    assert(views(ls@).len() == ls@.len());
    if ls.len() == 0 {
        return None;
    }
    assert(views(ls@)[0] == ls@[0]@);
    let w = split_words(ls[0].as_str());
    assert(views(w@).len() == w@.len());
    if w.len() == 0 {
        return None;
    }
    assert(views(w@)[0] == w@[0]@);
    if !same(w[0].as_str(), "cpu") {
        return None;
    }
    let v = read_counters(&w, Ghost(lines(stat@)[0]));
    let ghost vs = nats(v@);
    assert(vs.len() == v@.len());
    if v.len() < 8 {
        return None;
    }
    let mut total: u64 = 0;
    assert(vs.take(0) =~= Seq::empty());
    for i in 0..v.len()
        invariant
            vs == nats(v@),
            vs == counters(lines(stat@)[0]),
            lines(stat@).len() > 0,
            words(lines(stat@)[0]).len() > 0,
            total == sum(vs.take(i as int)),
    {
        proof {
            assert(vs.take(i + 1).drop_last() =~= vs.take(i as int));
            lemma_sum_grows(vs, i + 1);
        }
        if v[i] > u64::MAX - total {
            return None;
        }
        total = total + v[i];
    }
    assert(vs.take(vs.len() as int) =~= vs);
    Some((v[7], total))
}

/// A share of a time: none where no time has gone by.
#[derive(Clone, Copy, PartialEq, Eq, Debug, Structural)]
pub struct Share {
    pub part: u64,
    pub whole: u64,
}

/// What the hypervisor takes, between one reading and the next. A counter that only grows says
/// nothing by itself.
#[derive(Debug)]
pub struct StealMonitor {
    pub previous: Option<(u64, u64)>,
    pub last: Share,
    pub vcpus: usize,
}

/// The share between two readings; the one before where no time went by between them.
pub open spec fn taken(before: (u64, u64), now: (u64, u64), last: Share) -> Share {
    if now.1 > before.1 {
        Share {
            part: if now.0 >= before.0 {
                (now.0 - before.0) as u64
            } else {
                0
            },
            whole: (now.1 - before.1) as u64,
        }
    } else {
        last
    }
}

fn has_word(w: &Vec<String>, x: &str) -> (r: bool)
    ensures
        r == views(w@).contains(x@),
{
    for i in 0..w.len()
        invariant
            forall|j: int| 0 <= j < i ==> #[trigger] views(w@)[j] != x@,
    {
        assert(views(w@)[i as int] == w@[i as int]@);
        if same(w[i].as_str(), x) {
            return true;
        }
    }
    false
}

fn check_guest(cpuinfo: &str) -> (r: bool)
    ensures
        r == is_guest(cpuinfo@),
{
    let ls = split_lines(cpuinfo);
    assert(views(ls@).len() == ls@.len());
    for i in 0..ls.len()
        invariant
            views(ls@) == lines(cpuinfo@),
            forall|j: int| 0 <= j < i ==> !is_guest_line(#[trigger] lines(cpuinfo@)[j]),
    {
        assert(lines(cpuinfo@)[i as int] == ls@[i as int]@);
        let l = ls[i].as_str();
        if starts_with(l, "flags") && has_word(&split_words(l), "hypervisor") {
            return true;
        }
    }
    false
}

fn count_processors(cpuinfo: &str) -> (r: usize)
    ensures
        r == vcpus_in(cpuinfo@),
{
    let ls = split_lines(cpuinfo);
    let ghost vs = views(ls@);
    assert(vs.len() == ls@.len());
    let mut n: usize = 0;
    for i in 0..ls.len()
        invariant
            vs == views(ls@),
            n == processors(vs, i as int),
            n <= i,
    {
        assert(vs[i as int] == ls@[i as int]@);
        if starts_with(ls[i].as_str(), "processor") {
            n = n + 1;
        }
    }
    if n > 0 {
        n
    } else {
        1
    }
}

impl StealMonitor {
    /// A monitor, where the machine is a guest and its kernel counts the time taken. On a machine
    /// of its own there is nobody to wait for.
    pub fn probe(cpuinfo: &str, stat: &str) -> (r: Option<StealMonitor>)
        ensures
            (match r {
                Some(m) => is_guest(cpuinfo@) && times_in(stat@) is Some && pair_seen(m.previous)
                    == times_in(stat@) && m.last == (Share { part: 0, whole: 0 }) && m.vcpus
                    == vcpus_in(cpuinfo@),
                None => !(is_guest(cpuinfo@) && times_in(stat@) is Some),
            }),
    {
        if !check_guest(cpuinfo) {
            return None;
        }
        match read_jiffies(stat) {
            None => None,
            Some(x) => Some(
                StealMonitor {
                    previous: Some(x),
                    last: Share { part: 0, whole: 0 },
                    vcpus: count_processors(cpuinfo),
                },
            ),
        }
    }

    /// The share taken since the reading before. What cannot be read leaves all as it was.
    pub fn rate(&mut self, now: Option<(u64, u64)>) -> (r: Share)
        ensures
            r == final(self).last,
            final(self).vcpus == old(self).vcpus,
            (match now {
                None => *final(self) == *old(self),
                Some(x) => final(self).previous == Some(x) && r == (match old(self).previous {
                    Some(b) => taken(b, x, old(self).last),
                    None => old(self).last,
                }),
            }),
    {
        match now {
            None => {},
            Some((steal, total)) => {
                match self.previous {
                    Some((a, b)) => {
                        if total > b {
                            let part: u64 = if steal >= a {
                                steal - a
                            } else {
                                0
                            };
                            self.last = Share { part, whole: total - b };
                        }
                    },
                    None => {},
                }
                self.previous = Some((steal, total));
            },
        }
        self.last
    }

    /// The share taken, by the file of times.
    pub fn sample(&mut self, stat: &str) -> (r: Share)
        ensures
            r == final(self).last,
            final(self).vcpus == old(self).vcpus,
            (match times_in(stat@) {
                None => *final(self) == *old(self),
                Some(x) => pair_seen(final(self).previous) == Some(x) && r == (match old(
                    self,
                ).previous {
                    Some(b) => taken(b, (x.0 as u64, x.1 as u64), old(self).last),
                    None => old(self).last,
                }),
            }),
    {
        self.rate(read_jiffies(stat))
    }

    /// From what share on, in percent, it is a problem.
    pub fn limit(&self) -> (r: u64)
        ensures
            r == CONCERNING,
    {
        CONCERNING
    }

    /// How high the chart goes, in percent: as high as the share can.
    pub fn scale(&self) -> (r: u64)
        ensures
            r == SCALE,
            r > CONCERNING,
    {
        SCALE
    }

    /// How many processors there are, and from where on it is bad.
    pub fn extra(&self) -> (r: String)
        ensures
            r@ == decimal(self.vcpus as nat) + " vCPUs · ruim acima de 10%"@,
    {
        cat2(dec(self.vcpus as u64).as_str(), " vCPUs · ruim acima de 10%")
    }
}

/// A machine takes no more from a guest than there was, as long as its counters are sound.
pub proof fn lemma_taken_within(before: (u64, u64), now: (u64, u64), last: Share)
    requires
        last.part <= last.whole,
        now.0 - before.0 <= now.1 - before.1,
    ensures
        taken(before, now, last).part <= taken(before, now, last).whole,
{
}

/// The first line of the kernel's counters, written out: the eighth number is what was stolen, and
/// the whole is the first eight added up; what a guest used is in other numbers already, and does
/// not count twice.
pub proof fn lemma_times_in(ws: Seq<Seq<char>>, rest: Seq<Seq<char>>)
    requires
        ws.len() >= 9,
        ws[0] == "cpu"@,
        forall|k: int| 0 <= k < ws.len() ==> is_word(#[trigger] ws[k]),
        forall|k: int| 1 <= k < 9 ==> jiffies(#[trigger] ws[k]) is Some,
        sum(Seq::new(8, |k: int| jiffies(ws[k + 1])->0)) <= u64::MAX,
        forall|k: int|
            0 <= k < rest.len() ==> is_without(#[trigger] rest[k], '\n') && is_without(
                rest[k],
                '\r',
            ),
    ensures
        times_in(joined(seq![joined(ws, " "@)] + rest, seq!['\n']) + seq!['\n']) == Some(
            (jiffies(ws[8])->0, sum(Seq::new(8, |k: int| jiffies(ws[k + 1])->0))),
        ),
{
    lemma_join_words(ws);
    let line = joined(ws, " "@);
    let ls = seq![line] + rest;
    lemma_on_one_line(ws);
    assert forall|i: int| 0 <= i < ls.len() implies is_without(#[trigger] ls[i], '\n') && is_without(
        ls[i],
        '\r',
    ) by {
        if i > 0 {
            assert(ls[i] == rest[i - 1]);
        }
    }
    assert forall|i: int| 0 <= i < ls.len() && (#[trigger] ls[i]).len() > 0 implies ls[i].last()
        != '\r' by {
        assert(is_without(ls[i], '\r'));
        assert(ls[i][ls[i].len() - 1] != '\r');
    }
    lemma_lines(ls);
    let xs = Seq::new(8, |k: int| jiffies(ws[k + 1])->0);
    let part = ws.subrange(1, 9);
    let f = |x: Seq<char>| jiffies(x);
    assert forall|i: int| 0 <= i < part.len() implies f(#[trigger] part[i]) == Some(xs[i]) by {
        assert(part[i] == ws[i + 1]);
    }
    crate::pick::lemma_pick_each(part, f, xs);
    assert(counters(line) == xs);
    assert(xs[7] == jiffies(ws[8])->0);
}

proof fn lemma_on_one_line(ws: Seq<Seq<char>>)
    requires
        forall|k: int| 0 <= k < ws.len() ==> is_word(#[trigger] ws[k]),
    ensures
        is_without(joined(ws, " "@), '\n'),
        is_without(joined(ws, " "@), '\r'),
    decreases ws.len(),
{
    let s = joined(ws, " "@);
    reveal_strlit(" ");
    if ws.len() > 0 {
        let w = ws.drop_last();
        assert forall|k: int| 0 <= k < w.len() implies is_word(#[trigger] w[k]) by {
            assert(w[k] == ws[k]);
        }
        lemma_on_one_line(w);
        let h = joined(w, " "@);
        assert(is_word(ws[ws.len() - 1]));
        assert forall|i: int| 0 <= i < s.len() implies #[trigger] s[i] != '\n' && s[i] != '\r' by {
            if ws.len() == 1 {
                assert(!is_space(ws[0][i]));
            } else if i < h.len() {
                assert(s[i] == h[i]);
            } else if i > h.len() {
                assert(s[i] == ws.last()[i - h.len() - 1]);
                assert(!is_space(ws.last()[i - h.len() - 1]));
            }
        }
    }
}

/// What was stolen between two readings, and what there was: each reading is the one before it and
/// that. Where no time passed the last share stays.
pub proof fn lemma_taken(before: (u64, u64), now: (u64, u64), last: Share)
    ensures
        before.1 < now.1 ==> before.1 + taken(before, now, last).whole == now.1,
        before.1 < now.1 && before.0 <= now.0 ==> before.0 + taken(before, now, last).part == now.0,
        before.1 < now.1 && before.0 > now.0 ==> taken(before, now, last).part == 0,
        before.1 >= now.1 ==> taken(before, now, last) == last,
{
}

/// The sum of two lists one after the other.
pub proof fn lemma_sum(a: Seq<nat>, b: Seq<nat>)
    ensures
        sum(a + b) == sum(a) + sum(b),
        b.len() == 1 ==> sum(b) == b[0],
    decreases b.len(),
{
    reveal_with_fuel(sum, 2);
    if b.len() == 0 {
        assert(a + b =~= a);
    } else {
        assert((a + b).drop_last() =~= a + b.drop_last());
        assert((a + b).last() == b.last());
        lemma_sum(a, b.drop_last());
        if b.len() == 1 {
            assert(b.drop_last().len() == 0);
        }
    }
}

/// There is always a processor, and one for each line that begins one.
pub proof fn lemma_vcpus(cpuinfo: Seq<char>)
    ensures
        vcpus_in(cpuinfo) >= 1,
        (forall|i: int|
            0 <= i < lines(cpuinfo).len() ==> begins(#[trigger] lines(cpuinfo)[i], "processor"@))
            && lines(cpuinfo).len() > 0 ==> vcpus_in(cpuinfo) == lines(cpuinfo).len(),
{
    let ls = lines(cpuinfo);
    if forall|i: int| 0 <= i < ls.len() ==> begins(#[trigger] ls[i], "processor"@) {
        lemma_all_processors(ls, ls.len() as int);
    }
}

proof fn lemma_all_processors(ls: Seq<Seq<char>>, n: int)
    requires
        0 <= n <= ls.len(),
        forall|i: int| 0 <= i < ls.len() ==> begins(#[trigger] ls[i], "processor"@),
    ensures
        processors(ls, n) == n,
    decreases n,
{
    if n > 0 {
        lemma_all_processors(ls, n - 1);
        assert(begins(ls[n - 1], "processor"@));
    }
}

} // verus!
