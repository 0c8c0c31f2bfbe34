//! Turning numbers into names: an address into a host, a port into a service, a user id into
//! a user. Every lookup degrades to the raw number.

use vstd::prelude::*;
use crate::dict::{lemma_is_place, lemma_place, lemma_put, once, place, put, under};
use crate::number::{decimal, natural, parse_upto, within};
use crate::pick::{lemma_pick, lemma_pick_ends, picked};
use crate::text::{
    before, cut_once, first_some, head_before, is_space, is_without, is_word, joined,
    lemma_join_and_cut, lemma_join_words, lemma_reach, lines, maybe, pieces, same, split,
    split_lines, split_once, split_words, views, words, Cut,
};

verus! {

/// What is known about an address right now.
#[derive(Debug)]
pub enum Lookup {
    /// A lookup is under way.
    Pending,
    /// The address has this name.
    Name(String),
    /// It has none, or the lookup failed: there is no asking again.
    Unnamed,
}

/// Names by address, in contracts: each with what its lookup gave.
pub open spec fn answers_of(v: Seq<(String, Option<String>)>) -> Seq<
    (Seq<char>, Option<Seq<char>>),
> {
    Seq::new(v.len(), |i: int| (v[i].0@, maybe(v[i].1)))
}

/// Names of addresses, looked up elsewhere: what the lookups gave, and which are under way.
#[derive(Debug)]
pub struct Resolver {
    pub cache: Vec<(String, Option<String>)>,
    pub in_flight: Vec<String>,
}

/// What a resolver says of an address.
pub open spec fn says(l: Lookup, answer: Option<Option<Seq<char>>>) -> bool {
    match (l, answer) {
        (Lookup::Name(n), Some(Some(m))) => n@ == m,
        (Lookup::Unnamed, Some(None)) => true,
        (Lookup::Pending, None) => true,
        _ => false,
    }
}

impl Resolver {
    /// The answers so far.
    pub open spec fn answers(self) -> Seq<(Seq<char>, Option<Seq<char>>)> {
        answers_of(self.cache@)
    }

    /// The lookups under way.
    pub open spec fn waiting(self) -> Seq<Seq<char>> {
        views(self.in_flight@)
    }

    /// Nothing looked up yet.
    pub fn new() -> (r: Resolver)
        ensures
            r.answers() == Seq::<(Seq<char>, Option<Seq<char>>)>::empty(),
            r.waiting() == Seq::<Seq<char>>::empty(),
    {
        let r = Resolver { cache: Vec::new(), in_flight: Vec::new() };
        assert(r.answers() =~= Seq::empty());
        assert(r.waiting() =~= Seq::empty());
        r
    }

    /// The place of an address among the answers.
    fn find(&self, ip: &str) -> (r: Option<usize>)
        ensures
            (match r {
                Some(i) => place(self.answers(), ip@) == Some(i as int) && i < self.cache@.len(),
                None => place(self.answers(), ip@) is None,
            }),
    {
        let ghost p = self.answers();
        for i in 0..self.cache.len()
            invariant
                p == self.answers(),
                forall|j: int| 0 <= j < i ==> #[trigger] p[j].0 != ip@,
        {
            assert(p[i as int].0 == self.cache@[i as int].0@);
            if same(self.cache[i].0.as_str(), ip) {
                proof {
                    lemma_is_place(p, ip@, i as int);
                }
                return Some(i);
            }
        }
        proof {
            lemma_place(p, ip@);
        }
        None
    }

    /// Puts an answer under its address.
    fn remember(&mut self, ip: &str, name: Option<String>)
        ensures
            final(self).answers() == put(old(self).answers(), ip@, maybe(name)),
            final(self).in_flight == old(self).in_flight,
    {
        let ghost p = self.answers();
        let ghost n = maybe(name);
        match self.find(ip) {
            Some(i) => {
                self.cache.set(i, (ip.to_owned(), name));
                assert(self.answers() =~= p.update(i as int, (ip@, n)));
            },
            None => {
                self.cache.push((ip.to_owned(), name));
                assert(self.answers() =~= p.push((ip@, n)));
            },
        }
    }

    /// A lookup has ended.
    pub fn receive(&mut self, ip: &str, name: Option<String>)
        ensures
            final(self).answers() == put(old(self).answers(), ip@, maybe(name)),
            final(self).waiting() == without(old(self).waiting(), ip@),
    {
        let ghost w = self.waiting();
        let mut rest: Vec<String> = Vec::new();
        assert(w.take(0) =~= Seq::empty());
        assert(views(rest@) =~= Seq::empty());
        for i in 0..self.in_flight.len()
            invariant
                w == views(self.in_flight@),
                views(rest@) == without(w.take(i as int), ip@),
        {
            assert(w.take(i + 1).drop_last() =~= w.take(i as int));
            if !same(self.in_flight[i].as_str(), ip) {
                let ghost before = rest@;
                rest.push(self.in_flight[i].clone());
                assert(views(rest@) =~= views(before).push(w[i as int]));
            }
        }
        assert(w.take(w.len() as int) =~= w);
        self.remember(ip, name);
        self.in_flight = rest;
    }

    /// What is known about an address, and whether a lookup of it is to be started now. One
    /// that is no address at all has no name, and is not looked up.
    pub fn reverse(&mut self, ip: &str, is_address: bool) -> (r: (Lookup, bool))
        ensures
            (match under(old(self).answers(), ip@) {
                Some(a) => says(r.0, Some(a)) && !r.1 && *final(self) == *old(self),
                None => if !is_address {
                    r.0 is Unnamed && !r.1 && final(self).answers() == put(
                        old(self).answers(),
                        ip@,
                        None,
                    ) && final(self).waiting() == old(self).waiting()
                } else {
                    r.0 is Pending && r.1 == !old(self).waiting().contains(ip@)
                        && final(self).answers() == old(self).answers() && final(self).waiting()
                        == (if r.1 {
                        old(self).waiting().push(ip@)
                    } else {
                        old(self).waiting()
                    })
                },
            }),
    {
        match self.find(ip) {
            Some(i) => {
                let l = match &self.cache[i].1 {
                    Some(n) => Lookup::Name(n.clone()),
                    None => Lookup::Unnamed,
                };
                return (l, false);
            },
            None => {},
        }
        if !is_address {
            self.remember(ip, None);
            return (Lookup::Unnamed, false);
        }
        let ghost w = self.waiting();
        for i in 0..self.in_flight.len()
            invariant
                *self == *old(self),
                w == self.waiting(),
                is_address,
                under(old(self).answers(), ip@) is None,
                forall|j: int| 0 <= j < i ==> #[trigger] w[j] != ip@,
        {
            assert(w[i as int] == self.in_flight@[i as int]@);
            if same(self.in_flight[i].as_str(), ip) {
                return (Lookup::Pending, false);
            }
        }
        self.in_flight.push(ip.to_owned());
        assert(self.waiting() =~= w.push(ip@));
        (Lookup::Pending, true)
    }
}

/// Texts without one of them.
pub open spec fn without(v: Seq<Seq<char>>, t: Seq<char>) -> Seq<Seq<char>>
    decreases v.len(),
{
    if v.len() == 0 {
        Seq::empty()
    } else if v.last() == t {
        without(v.drop_last(), t)
    } else {
        without(v.drop_last(), t).push(v.last())
    }
}

/// Once an address has been answered, it is answered the same and is not looked up again.
pub proof fn lemma_answered(
    a: Seq<(Seq<char>, Option<Seq<char>>)>,
    ip: Seq<char>,
    name: Option<Seq<char>>,
)
    requires
        once(a),
    ensures
        under(put(a, ip, name), ip) == Some(name),
        once(put(a, ip, name)),
{
    lemma_put(a, ip, name, ip);
}

// --- services ------------------------------------------------------------------------------------

/// A line of the list of services: its protocol, its port and its name.
pub open spec fn service_line(line: Seq<char>) -> Option<(bool, u16, Seq<char>)> {
    let w = words(before(line, Cut::At('#')));
    if w.len() < 2 {
        None
    } else {
        match cut_once(w[1], Cut::At('/')) {
            None => None,
            Some((port, proto)) => match within(natural(port), u16::MAX as nat) {
                None => None,
                Some(p) => if proto == "tcp"@ {
                    Some((true, p as u16, w[0]))
                } else if proto == "udp"@ {
                    Some((false, p as u16, w[0]))
                } else {
                    None
                },
            },
        }
    }
}

/// Service names by protocol and port, in the order of the list.
#[derive(Debug)]
pub struct Services {
    pub entries: Vec<(bool, u16, String)>,
}

/// Services, in contracts.
pub open spec fn entries_of(v: Seq<(bool, u16, String)>) -> Seq<(bool, u16, Seq<char>)> {
    Seq::new(v.len(), |i: int| (v[i].0, v[i].1, v[i].2@))
}

/// The name of a port: that of the first entry for it, as the canonical name stands before
/// the others.
pub open spec fn service_of(es: Seq<(bool, u16, Seq<char>)>, tcp: bool, port: u16) -> Option<
    Seq<char>,
>
    decreases es.len(),
{
    if es.len() == 0 {
        None
    } else if es[0].0 == tcp && es[0].1 == port {
        Some(es[0].2)
    } else {
        service_of(es.skip(1), tcp, port)
    }
}

/// Reads a line of the list of services.
fn read_service(line: &str) -> (r: Option<(bool, u16, String)>)
    ensures
        (match r {
            Some(e) => service_line(line@) == Some((e.0, e.1, e.2@)),
            None => service_line(line@) is None,
        }),
{
    let head = head_before(line, '#');
    let w = split_words(head.as_str());
    assert(views(w@).len() == w@.len());
    if w.len() < 2 {
        return None;
    }
    assert(views(w@)[0] == w@[0]@ && views(w@)[1] == w@[1]@);
    match split_once(w[1].as_str(), '/') {
        None => None,
        Some((port, proto)) => match parse_upto(port.as_str(), 65535) {
            None => None,
            Some(p) => if same(proto.as_str(), "tcp") {
                Some((true, p as u16, w[0].clone()))
            } else if same(proto.as_str(), "udp") {
                Some((false, p as u16, w[0].clone()))
            } else {
                None
            },
        },
    }
}

impl Services {
    /// Reads the list of services.
    pub fn load(content: &str) -> (r: Services)
        ensures
            entries_of(r.entries@) == picked(lines(content@), |l: Seq<char>| service_line(l)),
    {
        let ls = split_lines(content);
        let ghost vs = views(ls@);
        let ghost f = |l: Seq<char>| service_line(l);
        let mut entries: Vec<(bool, u16, String)> = Vec::new();
        proof {
            lemma_pick_ends(vs, f);
            assert(entries_of(entries@) =~= Seq::empty());
        }
        for i in 0..ls.len()
            invariant
                vs == views(ls@),
                f == (|l: Seq<char>| service_line(l)),
                entries_of(entries@) == picked(vs.take(i as int), f),
        {
            proof {
                lemma_pick(vs, f, i as int);
            }
            match read_service(ls[i].as_str()) {
                Some(e) => {
                    let ghost before = entries_of(entries@);
                    let ghost x = (e.0, e.1, e.2@);
                    entries.push(e);
                    assert(entries_of(entries@) =~= before.push(x));
                },
                None => {},
            }
        }
        Services { entries }
    }

    /// The name of a port, such as `https`.
    pub fn name(&self, tcp: bool, port: u16) -> (r: Option<&str>)
        ensures
            (match r {
                Some(s) => service_of(entries_of(self.entries@), tcp, port) == Some(s@),
                None => service_of(entries_of(self.entries@), tcp, port) is None,
            }),
    {
        let ghost es = entries_of(self.entries@);
        assert(es.skip(0) =~= es);
        for i in 0..self.entries.len()
            invariant
                es == entries_of(self.entries@),
                service_of(es.skip(i as int), tcp, port) == service_of(es, tcp, port),
        {
            assert(es.skip(i as int)[0] == es[i as int]);
            assert(es.skip(i as int).skip(1) =~= es.skip(i + 1));
            if self.entries[i].0 == tcp && self.entries[i].1 == port {
                return Some(self.entries[i].2.as_str());
            }
        }
        None
    }
}

// --- users -----------------------------------------------------------------------------------------

/// The user that a line of the list of users names, where it is of this id.
pub open spec fn user_line(line: Seq<char>, uid: u32) -> Option<Seq<char>> {
    let f = pieces(line, Cut::At(':'));
    if f.len() < 3 {
        None
    } else {
        match within(natural(f[2]), u32::MAX as nat) {
            Some(n) => if n == uid {
                Some(f[0])
            } else {
                None
            },
            None => None,
        }
    }
}

/// Reads a line of the list of users.
fn read_user(line: &str, uid: u32) -> (r: Option<String>)
    ensures
        maybe(r) == user_line(line@, uid),
{
    let f = split(line, Cut::At(':'));
    assert(views(f@).len() == f@.len());
    if f.len() < 3 {
        return None;
    }
    assert(views(f@)[0] == f@[0]@ && views(f@)[2] == f@[2]@);
    match parse_upto(f[2].as_str(), 0xffff_ffff) {
        Some(n) => if n == uid as u64 {
            Some(f[0].clone())
        } else {
            None
        },
        None => None,
    }
}

/// The name of a user id, out of the list of users: that of the first line for it.
pub fn user_name(content: &str, uid: u32) -> (r: Option<String>)
    ensures
        maybe(r) == first_some(lines(content@), |l: Seq<char>| user_line(l, uid)),
{
    let ls = split_lines(content);
    let ghost vs = views(ls@);
    let ghost f = |l: Seq<char>| user_line(l, uid);
    assert(vs.skip(0) =~= vs);
    for i in 0..ls.len()
        invariant
            vs == views(ls@),
            vs == lines(content@),
            f == (|l: Seq<char>| user_line(l, uid)),
            first_some(vs.skip(i as int), f) == first_some(vs, f),
    {
        assert(vs.skip(i as int)[0] == vs[i as int]);
        assert(vs.skip(i as int).skip(1) =~= vs.skip(i + 1));
        match read_user(ls[i].as_str(), uid) {
            Some(n) => {
                return Some(n);
            },
            None => {},
        }
    }
    None
}

/// The owner of a socket on the screen.
pub open spec fn owner_text(uid: u32, name: Option<Seq<char>>) -> Seq<char> {
    let n = crate::number::decimal(uid as nat);
    match name {
        Some(s) => s + " (uid "@ + n + ")"@,
        None => "uid "@ + n,
    }
}

/// Writes the owner of a socket.
pub fn owner_label(uid: u32, name: &Option<String>) -> (r: String)
    ensures
        r@ == owner_text(uid, maybe(*name)),
{
    let n = crate::number::dec(uid as u64);
    match name {
        Some(s) => crate::text::cat4(s.as_str(), " (uid ", n.as_str(), ")"),
        None => crate::text::cat2("uid ", n.as_str()),
    }
}

/// A line of the list of services: a name, and the port and the protocol that it goes by.
pub proof fn lemma_service_line(name: Seq<char>, port: u16)
    requires
        is_word(name),
        !name.contains('#'),
    ensures
        service_line(name + seq![' '] + decimal(port as nat) + "/tcp"@) == Some(
            (true, port, name),
        ),
        service_line(name + seq![' '] + decimal(port as nat) + "/udp"@) == Some(
            (false, port, name),
        ),
{
    reveal_strlit("/tcp");
    reveal_strlit("/udp");
    reveal_strlit("tcp");
    reveal_strlit("udp");
    reveal_strlit(" ");
    assert("tcp"@[0] != "udp"@[0]);
    lemma_one_service(name, port, "tcp"@);
    lemma_one_service(name, port, "udp"@);
    assert("/tcp"@ =~= seq!['/'] + "tcp"@);
    assert("/udp"@ =~= seq!['/'] + "udp"@);
    let d = decimal(port as nat);
    assert(name + seq![' '] + d + "/tcp"@ =~= name + seq![' '] + (d + seq!['/'] + "tcp"@));
    assert(name + seq![' '] + d + "/udp"@ =~= name + seq![' '] + (d + seq!['/'] + "udp"@));
}

proof fn lemma_one_service(name: Seq<char>, port: u16, proto: Seq<char>)
    requires
        is_word(name),
        !name.contains('#'),
        is_word(proto),
        !proto.contains('#'),
    ensures
        ({
            let line = name + seq![' '] + (decimal(port as nat) + seq!['/'] + proto);
            let w = words(before(line, Cut::At('#')));
            w.len() == 2 && w[0] == name && cut_once(w[1], Cut::At('/')) == Some(
                (decimal(port as nat), proto),
            ) && natural(decimal(port as nat)) == Some(port as nat)
        }),
{
    let d = decimal(port as nat);
    crate::number::lemma_decimal_reads_back(port as nat);
    let t = d + seq!['/'] + proto;
    let line = name + seq![' '] + t;
    assert forall|j: int| 0 <= j < t.len() implies #[trigger] t[j] != '#' && !is_space(t[j]) by {
        if j < d.len() {
            assert(crate::text::is_digit(d[j]));
        } else if j > d.len() {
            assert(t[j] == proto[j - d.len() - 1]);
            assert(proto.contains(proto[j - d.len() - 1]));
        }
    }
    assert forall|j: int| 0 <= j < line.len() implies !Cut::At('#').cuts(#[trigger] line[j]) by {
        if j < name.len() {
            assert(line[j] == name[j]);
            assert(name.contains(name[j]));
        } else if j > name.len() {
            assert(line[j] == t[j - name.len() - 1]);
        }
    }
    lemma_reach(line, Cut::At('#'), line.len() as int);
    assert(line.take(line.len() as int) =~= line);
    let ws = seq![name, t];
    assert(is_word(t));
    reveal_strlit(" ");
    lemma_join_words(ws);
    reveal_with_fuel(joined, 3);
    assert(ws.drop_last() =~= seq![name]);
    assert(" "@ =~= seq![' ']);
    assert(joined(ws, " "@) =~= line);
    let n = d.len() as int;
    assert forall|j: int| 0 <= j < n implies !Cut::At('/').cuts(#[trigger] t[j]) by {
        assert(crate::text::is_digit(d[j]));
    }
    assert(t[n] == '/');
    lemma_reach(t, Cut::At('/'), n);
    assert(t.take(n) =~= d);
    assert(t.skip(n + 1) =~= proto);
}

/// The service of a port is the name of the first entry for that protocol and that port.
pub proof fn lemma_service_of(es: Seq<(bool, u16, Seq<char>)>, tcp: bool, port: u16)
    ensures
        (match service_of(es, tcp, port) {
            Some(n) => exists|k: int|
                0 <= k < es.len() && #[trigger] es[k] == (tcp, port, n) && forall|j: int|
                    0 <= j < k ==> !((#[trigger] es[j]).0 == tcp && es[j].1 == port),
            None => forall|j: int|
                0 <= j < es.len() ==> !((#[trigger] es[j]).0 == tcp && es[j].1 == port),
        }),
    decreases es.len(),
{
    if es.len() > 0 && !(es[0].0 == tcp && es[0].1 == port) {
        let t = es.skip(1);
        lemma_service_of(t, tcp, port);
        match service_of(t, tcp, port) {
            Some(n) => {
                let k = choose|k: int|
                    0 <= k < t.len() && #[trigger] t[k] == (tcp, port, n) && forall|j: int|
                        0 <= j < k ==> !((#[trigger] t[j]).0 == tcp && t[j].1 == port);
                assert(es[k + 1] == t[k]);
                assert forall|j: int| 0 <= j < k + 1 implies !((#[trigger] es[j]).0 == tcp && es[j].1
                    == port) by {
                    if j > 0 {
                        assert(t[j - 1] == es[j]);
                    }
                }
            },
            None => {
                assert forall|j: int| 0 <= j < es.len() implies !((#[trigger] es[j]).0 == tcp
                    && es[j].1 == port) by {
                    if j > 0 {
                        assert(t[j - 1] == es[j]);
                    }
                }
            },
        }
    } else if es.len() > 0 {
        assert(es[0] == (tcp, port, es[0].2));
    }
}

/// A line of the list of users: the name comes first, and the number after the next colon but one.
pub proof fn lemma_user_line(f: Seq<Seq<char>>, uid: u32)
    requires
        f.len() >= 3,
        forall|k: int| 0 <= k < f.len() ==> is_without(#[trigger] f[k], ':'),
        f[2] == decimal(uid as nat),
    ensures
        user_line(joined(f, seq![':']), uid) == Some(f[0]),
        forall|other: u32| other != uid ==> user_line(joined(f, seq![':']), other) is None,
{
    lemma_join_and_cut(f, ':');
    crate::number::lemma_decimal_reads_back(uid as nat);
}

/// Taking a text out of a list leaves the others, and none of it.
pub proof fn lemma_without(v: Seq<Seq<char>>, t: Seq<char>, o: Seq<char>)
    ensures
        without(v, t).contains(o) <==> v.contains(o) && o != t,
    decreases v.len(),
{
    if v.len() > 0 {
        let w = v.drop_last();
        let p = without(w, t);
        lemma_without(w, t, o);
        assert(v =~= w.push(v.last()));
        if v.contains(o) {
            let k = choose|k: int| 0 <= k < v.len() && v[k] == o;
            if k < w.len() {
                assert(w[k] == o);
            }
        }
        if w.contains(o) {
            let k = choose|k: int| 0 <= k < w.len() && w[k] == o;
            assert(v[k] == o);
        }
        if v.last() != t {
            let r = p.push(v.last());
            if p.contains(o) {
                let k = choose|k: int| 0 <= k < p.len() && p[k] == o;
                assert(r[k] == o);
            }
            if r.contains(o) {
                let k = choose|k: int| 0 <= k < r.len() && r[k] == o;
                if k < p.len() {
                    assert(p[k] == o);
                } else {
                    assert(v[v.len() - 1] == o);
                }
            }
            if v.last() == o {
                assert(r[r.len() - 1] == o);
            }
        }
    }
}

} // verus!
