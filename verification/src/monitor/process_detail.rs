//! All that is known about one process.

use vstd::prelude::*;
use crate::dict::{find_word, lemma_place, put_all, put_word, under, words_of};
use crate::number::{
    as_nat, dec, decimal, human, human_bytes, lemma_decimal_reads_back, natural, parse_upto, within,
};
use crate::order::{
    is_order, lemma_sorted, lemma_sorted_from, lemma_sorted_members, sorted_by, stable_order,
};
use crate::pick::{lemma_pick, lemma_pick_ends, picked};
use crate::text::{
    cat2, cat3, chars_of, cut_once, first_some, is_digit, is_space, is_word, join, joined,
    lemma_first_some, lemma_join_words, lines, maybe, past, split_lines, split_once, split_words,
    strip_prefix, trim, trimmed, views, words, Cut,
};
use crate::monitor::{
    offers_of, sections_of, with_field, with_some, Detail, DetailSection, Handoff, HandoffV, Rates,
    SectionV,
};
use crate::monitor::iface::Delta;
use crate::monitor::owner::{find_proc, lemma_place_of, place_of, Proc};
use crate::monitor::ports::{
    endpoint_text, lemma_recorder, listening_port_set, record_traffic, recorder, recorder_port,
    sockets_of, taken_ports, SocketRow,
};
use crate::monitor::resolve::{owner_label, owner_text, user_line, user_name};

verus! {

/// How many connections are listed one by one.
pub const MAX_CONNECTIONS: usize = 12;

/// How many children are listed by name.
pub const MAX_CHILDREN: usize = 12;

// --- the status of a process --------------------------------------------------------------------------------

/// What a line of a status says of a key.
pub open spec fn status_line(line: Seq<char>) -> Option<(Seq<char>, Seq<char>)> {
    match cut_once(line, Cut::At(':')) {
        Some((k, v)) => Some((k, trimmed(v))),
        None => None,
    }
}

/// All that a status says, the last word on each key.
pub open spec fn status_fields(content: Seq<char>) -> Seq<(Seq<char>, Seq<char>)> {
    put_all(Seq::empty(), picked(lines(content), |l: Seq<char>| status_line(l)))
}

/// What the kernel says of the status of a process.
#[derive(Debug)]
pub struct ProcStatus {
    pub fields: Vec<(String, String)>,
}

/// The size in bytes that a value writes in kibibytes, where it fits.
pub open spec fn size_in(value: Seq<char>) -> Option<nat> {
    let w = words(value);
    if w.len() == 0 {
        None
    } else {
        match within(natural(w[0]), u64::MAX as nat) {
            Some(n) => if n * 1024 <= u64::MAX {
                Some(n * 1024)
            } else {
                None
            },
            None => None,
        }
    }
}

/// The size in bytes that a value writes in kibibytes, where it fits.
pub fn read_size(value: &str) -> (r: Option<u64>)
    ensures
        as_nat(r) == size_in(value@),
{
    let w = split_words(value);
    assert(views(w@).len() == w@.len());
    if w.len() == 0 {
        return None;
    }
    assert(views(w@)[0] == w@[0]@);
    match parse_upto(w[0].as_str(), u64::MAX) {
        Some(n) => if n <= u64::MAX / 1024 {
            Some(n * 1024)
        } else {
            None
        },
        None => None,
    }
}

/// The first number of a value, as a user.
pub open spec fn uid_in(value: Seq<char>) -> Option<nat> {
    let w = words(value);
    if w.len() == 0 {
        None
    } else {
        within(natural(w[0]), u32::MAX as nat)
    }
}

impl ProcStatus {
    /// What the status says of a key.
    pub open spec fn says(self, key: Seq<char>) -> Option<Seq<char>> {
        under(words_of(self.fields@), key)
    }

    /// The size under a key.
    pub open spec fn size(self, key: Seq<char>) -> Option<nat> {
        match self.says(key) {
            Some(v) => size_in(v),
            None => None,
        }
    }

    /// The user that the process runs as.
    pub open spec fn user(self) -> Option<nat> {
        match self.says("Uid"@) {
            Some(v) => uid_in(v),
            None => None,
        }
    }

    /// The user that the process runs as, as it reads; empty where the status does not say.
    pub open spec fn user_text(self, users: Seq<char>) -> Seq<char> {
        match self.user() {
            Some(uid) => owner_text(
                uid as u32,
                first_some(lines(users), |l: Seq<char>| user_line(l, uid as u32)),
            ),
            None => Seq::empty(),
        }
    }

    /// Reads a status.
    pub fn read(content: &str) -> (r: ProcStatus)
        ensures
            words_of(r.fields@) == status_fields(content@),
    {
        let ls = split_lines(content);
        let ghost vs = views(ls@);
        let ghost f = |l: Seq<char>| status_line(l);
        let mut fields: Vec<(String, String)> = Vec::new();
        proof {
            lemma_pick_ends(vs, f);
            assert(words_of(fields@) =~= put_all(Seq::empty(), Seq::empty()));
        }
        for i in 0..ls.len()
            invariant
                vs == views(ls@),
                vs == lines(content@),
                f == (|l: Seq<char>| status_line(l)),
                words_of(fields@) == put_all(Seq::empty(), picked(vs.take(i as int), f)),
        {
            proof {
                lemma_pick(vs, f, i as int);
                assert(vs[i as int] == ls@[i as int]@);
            }
            match split_once(ls[i].as_str(), ':') {
                Some((k, v)) => {
                    let t = trim(v.as_str());
                    proof {
                        let a = picked(vs.take(i as int), f);
                        assert(a.push((k@, t@)).drop_last() =~= a);
                    }
                    put_word(&mut fields, k.as_str(), t.as_str());
                },
                None => {},
            }
        }
        ProcStatus { fields }
    }

    /// What the status says of a key.
    pub fn get(&self, key: &str) -> (r: Option<String>)
        ensures
            maybe(r) == self.says(key@),
    {
        match find_word(&self.fields, key) {
            Some(i) => {
                proof {
                    lemma_place(words_of(self.fields@), key@);
                }
                Some(self.fields[i].1.clone())
            },
            None => None,
        }
    }

    /// The size in bytes under a key.
    pub fn bytes(&self, key: &str) -> (r: Option<u64>)
        ensures
            as_nat(r) == self.size(key@),
    {
        match self.get(key) {
            None => None,
            Some(v) => read_size(v.as_str()),
        }
    }

    /// The user that the process runs as: the first of the four that the kernel writes.
    pub fn uid(&self) -> (r: Option<u32>)
        ensures
            (match r {
                Some(n) => self.user() == Some(n as nat),
                None => self.user() is None,
            }),
    {
        match self.get("Uid") {
            None => None,
            Some(v) => {
                let w = split_words(v.as_str());
                assert(views(w@).len() == w@.len());
                if w.len() == 0 {
                    return None;
                }
                assert(views(w@)[0] == w@[0]@);
                match parse_upto(w[0].as_str(), u32::MAX as u64) {
                    Some(n) => Some(n as u32),
                    None => None,
                }
            },
        }
    }

    /// The user that the process runs as, by a list of users.
    pub fn described_user(&self, users: &str) -> (r: String)
        ensures
            r@ == self.user_text(users@),
    {
        match self.uid() {
            Some(uid) => owner_label(uid, &user_name(users, uid)),
            None => {
                let r = String::new();
                assert(r@ =~= Seq::empty());
                r
            },
        }
    }
}

/// The state of a process in words. One that waits and cannot be interrupted keeps its letter,
/// by which it is talked about.
pub open spec fn state_words(state: Seq<char>) -> Seq<char> {
    if state.len() == 0 {
        state
    } else if state[0] == 'R' {
        "executando"@
    } else if state[0] == 'S' {
        "dormindo"@
    } else if state[0] == 'D' {
        "espera ininterrompível (D) — travado em I/O"@
    } else if state[0] == 'Z' {
        "zumbi — já morreu, ninguém coletou"@
    } else if state[0] == 'T' {
        "parado (SIGSTOP)"@
    } else if state[0] == 't' {
        "parado por um depurador"@
    } else if state[0] == 'I' {
        "ocioso"@
    } else if state[0] == 'X' || state[0] == 'x' {
        "morto"@
    } else {
        state
    }
}

/// The state of a process in words.
pub fn state_name(state: &str) -> (r: String)
    ensures
        r@ == state_words(state@),
{
    let v = chars_of(state);
    if v.len() == 0 {
        return state.to_owned();
    }
    match v[0] {
        'R' => "executando".to_owned(),
        'S' => "dormindo".to_owned(),
        'D' => "espera ininterrompível (D) — travado em I/O".to_owned(),
        'Z' => "zumbi — já morreu, ninguém coletou".to_owned(),
        'T' => "parado (SIGSTOP)".to_owned(),
        't' => "parado por um depurador".to_owned(),
        'I' => "ocioso".to_owned(),
        'X' => "morto".to_owned(),
        'x' => "morto".to_owned(),
        _ => state.to_owned(),
    }
}

// --- what it moves to and from the disk ----------------------------------------------------------------------

/// The number behind a name that starts a line.
pub open spec fn counter_in(line: Seq<char>, name: Seq<char>) -> Option<nat> {
    match past(line, name) {
        Some(rest) => within(natural(trimmed(rest)), u64::MAX as nat),
        None => None,
    }
}

/// The first counter of a name.
pub open spec fn counter(content: Seq<char>, name: Seq<char>) -> Option<nat> {
    first_some(lines(content), |l: Seq<char>| counter_in(l, name))
}

fn read_counter(content: &str, name: &str) -> (r: Option<u64>)
    ensures
        as_nat(r) == counter(content@, name@),
{
    let ls = split_lines(content);
    let ghost vs = views(ls@);
    let ghost f = |l: Seq<char>| counter_in(l, name@);
    assert(vs.skip(0) =~= vs);
    for i in 0..ls.len()
        invariant
            vs == views(ls@),
            vs == lines(content@),
            f == (|l: Seq<char>| counter_in(l, name@)),
            first_some(vs.skip(i as int), f) == first_some(vs, f),
    {
        proof {
            lemma_first_some(vs, f, i as int);
            assert(vs[i as int] == ls@[i as int]@);
        }
        match strip_prefix(ls[i].as_str(), name) {
            Some(rest) => {
                match parse_upto(trim(rest.as_str()).as_str(), u64::MAX) {
                    Some(n) => {
                        return Some(n);
                    },
                    None => {},
                }
            },
            None => {},
        }
    }
    proof {
        lemma_first_some(vs, f, vs.len() as int);
    }
    None
}

/// What a process has read from and written to disks. There is nothing unless both are told.
pub open spec fn disk_counters(content: Seq<char>) -> Option<(nat, nat)> {
    match (counter(content, "read_bytes:"@), counter(content, "write_bytes:"@)) {
        (Some(a), Some(b)) => Some((a, b)),
        _ => None,
    }
}

/// Two counters as numbers.
pub open spec fn as_nats(r: Option<(u64, u64)>) -> Option<(nat, nat)> {
    match r {
        Some(x) => Some((x.0 as nat, x.1 as nat)),
        None => None,
    }
}

/// What a process has read from and written to disks, by its counters.
pub fn disk_io(content: &str) -> (r: Option<(u64, u64)>)
    ensures
        as_nats(r) == disk_counters(content@),
{
    match (read_counter(content, "read_bytes:"), read_counter(content, "write_bytes:")) {
        (Some(a), Some(b)) => Some((a, b)),
        _ => None,
    }
}

/// The disk counters of a process at one reading.
#[derive(Clone, Copy, PartialEq, Eq, Debug, Structural)]
pub struct IoReading {
    pub pid: u32,
    pub read: u64,
    pub written: u64,
    /// When, in milliseconds.
    pub at: u64,
}

/// What one reading has over another; nothing where it went back.
pub open spec fn gained(now: u64, before: u64) -> u64 {
    if now >= before {
        (now - before) as u64
    } else {
        0
    }
}

fn gain(now: u64, before: u64) -> (r: u64)
    ensures
        r == gained(now, before),
{
    if now >= before {
        now - before
    } else {
        0
    }
}

/// Turns counters into what was moved, by the reading before. It remembers one reading: that
/// of another process is no reading at all.
#[derive(Debug)]
pub struct IoSampler {
    pub last: Option<IoReading>,
}

/// What was moved since the reading before.
pub open spec fn moved(last: Option<IoReading>, now: IoReading) -> Delta {
    match last {
        Some(b) => if b.pid == now.pid && now.at > b.at {
            Delta {
                rx: gained(now.read, b.read),
                tx: gained(now.written, b.written),
                ms: (now.at - b.at) as u64,
            }
        } else {
            Delta { rx: 0, tx: 0, ms: 0 }
        },
        None => Delta { rx: 0, tx: 0, ms: 0 },
    }
}

impl IoSampler {
    /// A sampler that has not read anything.
    pub fn new() -> (r: IoSampler)
        ensures
            r.last is None,
    {
        IoSampler { last: None }
    }

    /// What a process moved since its reading before: nothing at its first. Counters that could
    /// not be read leave all as it was.
    pub fn rate(&mut self, pid: u32, io: Option<(u64, u64)>, at: u64) -> (r: Option<Delta>)
        ensures
            (match io {
                None => r is None && *final(self) == *old(self),
                Some(x) => ({
                    let now = IoReading { pid, read: x.0, written: x.1, at };
                    r == Some(moved(old(self).last, now)) && final(self).last == Some(now)
                }),
            }),
    {
        match io {
            None => None,
            Some((read, written)) => {
                let d = match self.last {
                    Some(b) => if b.pid == pid && at > b.at {
                        Delta { rx: gain(read, b.read), tx: gain(written, b.written), ms: at - b.at }
                    } else {
                        Delta { rx: 0, tx: 0, ms: 0 }
                    },
                    None => Delta { rx: 0, tx: 0, ms: 0 },
                };
                self.last = Some(IoReading { pid, read, written, at });
                Some(d)
            },
        }
    }
}

// --- its family ----------------------------------------------------------------------------------------------

/// The children of a process among the first `n`, threads left out.
pub open spec fn offspring(ps: Seq<Proc>, pid: u32, n: int) -> Seq<int>
    decreases n,
{
    if n <= 0 {
        Seq::empty()
    } else {
        let v = offspring(ps, pid, n - 1);
        if !ps[n - 1].thread && ps[n - 1].parent == Some(pid) {
            v.push(n - 1)
        } else {
            v
        }
    }
}

/// The number that orders a child: the busier first, equal ones by pid.
pub open spec fn child_key(p: Proc) -> i128 {
    ((u32::MAX - p.cpu) * 0x1_0000_0000 + p.pid) as i128
}

/// The children of a process, the busiest first.
pub open spec fn ordered_children(ps: Seq<Proc>, pid: u32) -> Seq<int> {
    let v = offspring(ps, pid, ps.len() as int);
    sorted_by(v, Seq::new(v.len(), |i: int| child_key(ps[v[i]])))
}

/// Some steps up from a process stands a child of another.
pub open spec fn hangs(ps: Seq<Proc>, pid: u32, q: int, steps: nat) -> bool
    decreases steps,
{
    match ps[q].parent {
        None => false,
        Some(x) => (x == pid && !ps[q].thread) || (steps > 0 && match place_of(ps, x) {
            Some(p) => hangs(ps, pid, p, (steps - 1) as nat),
            None => false,
        }),
    }
}

/// How many of the first `n` hang below a process, at any depth.
pub open spec fn hanging(ps: Seq<Proc>, pid: u32, n: int) -> nat
    decreases n,
{
    if n <= 0 {
        0
    } else {
        hanging(ps, pid, n - 1) + (if hangs(ps, pid, n - 1, ps.len()) {
            1nat
        } else {
            0nat
        })
    }
}

fn is_hanging(ps: &Vec<Proc>, pid: u32, q: usize) -> (r: bool)
    requires
        q < ps@.len(),
    ensures
        r == hangs(ps@, pid, q as int, ps@.len()),
{
    let n: usize = ps.len();
    let mut left: usize = n;
    let mut at: usize = q;
    loop
        invariant
            n == ps@.len(),
            at < n,
            left <= n,
            hangs(ps@, pid, at as int, left as nat) == hangs(ps@, pid, q as int, n as nat),
        decreases left,
    {
        match ps[at].parent {
            None => {
                return false;
            },
            Some(x) => {
                if x == pid && !ps[at].thread {
                    return true;
                }
                if left == 0 {
                    return false;
                }
                match find_proc(ps, x) {
                    Some(p) => {
                        at = p;
                        left = left - 1;
                    },
                    None => {
                        return false;
                    },
                }
            },
        }
    }
}

/// The children of a process, the busiest first, and how many hang below it at any depth.
pub fn family(ps: &Vec<Proc>, pid: u32) -> (r: (Vec<usize>, usize))
    ensures
        Seq::new(r.0@.len(), |i: int| r.0@[i] as int) == ordered_children(ps@, pid),
        forall|i: int| 0 <= i < r.0@.len() ==> #[trigger] r.0@[i] < ps@.len(),
        r.1 == hanging(ps@, pid, ps@.len() as int),
{
    let ghost all = offspring(ps@, pid, ps@.len() as int);
    let mut v: Vec<usize> = Vec::new();
    let mut keys: Vec<i128> = Vec::new();
    let mut total: usize = 0;
    for i in 0..ps.len()
        invariant
            Seq::new(v@.len(), |k: int| v@[k] as int) =~= offspring(ps@, pid, i as int),
            forall|k: int| 0 <= k < v@.len() ==> #[trigger] v@[k] < i,
            keys@.len() == v@.len(),
            forall|k: int| 0 <= k < v@.len() ==> #[trigger] keys@[k] == child_key(ps@[v@[k] as int]),
            total == hanging(ps@, pid, i as int),
            total <= i,
    {
        let mine = match ps[i].parent {
            Some(x) => x == pid,
            None => false,
        };
        if !ps[i].thread && mine {
            v.push(i);
            keys.push((u32::MAX - ps[i].cpu) as i128 * 0x1_0000_0000 + ps[i].pid as i128);
        }
        if is_hanging(ps, pid, i) {
            total = total + 1;
        }
    }
    let o = stable_order(keys.as_slice());
    proof {
        assert(all == Seq::new(v@.len(), |k: int| v@[k] as int));
        assert(keys@ =~= Seq::new(all.len(), |i: int| child_key(ps@[all[i]])));
        lemma_sorted(all, keys@, o@);
    }
    let mut r: Vec<usize> = Vec::new();
    for i in 0..o.len()
        invariant
            is_order(keys@, o@),
            keys@.len() == v@.len(),
            forall|k: int| 0 <= k < v@.len() ==> #[trigger] v@[k] < ps@.len(),
            r@.len() == i,
            forall|k: int| 0 <= k < i ==> #[trigger] r@[k] == v@[o@[k] as int],
    {
        r.push(v[o[i]]);
    }
    assert(Seq::new(r@.len(), |i: int| r@[i] as int) =~= ordered_children(ps@, pid));
    (r, total)
}

// --- its sockets ---------------------------------------------------------------------------------------------

/// The sockets of a table that are among some inodes.
pub open spec fn held(ss: Seq<SocketRow<Seq<char>>>, inodes: Seq<u64>) -> Seq<SocketRow<Seq<char>>> {
    picked(ss, |s: SocketRow<Seq<char>>| holds_it(s, inodes))
}

/// A socket that is among some inodes.
pub open spec fn holds_it(s: SocketRow<Seq<char>>, inodes: Seq<u64>) -> Option<
    SocketRow<Seq<char>>,
> {
    if inodes.contains(s.inode) {
        Some(s)
    } else {
        None
    }
}

/// Some socket of a list is on a port.
pub open spec fn on_port(v: Seq<SocketRow<Seq<char>>>, s: SocketRow<Seq<char>>) -> bool {
    exists|i: int|
        0 <= i < v.len() && (#[trigger] v[i]).proto == s.proto && v[i].local_port == s.local_port
}

/// The listening sockets, the first on each port: a service on both families is two sockets to
/// the kernel and one port to a reader.
pub open spec fn listeners(ss: Seq<SocketRow<Seq<char>>>) -> Seq<SocketRow<Seq<char>>>
    decreases ss.len(),
{
    if ss.len() == 0 {
        Seq::empty()
    } else {
        let v = listeners(ss.drop_last());
        if ss.last().listens() && !on_port(v, ss.last()) {
            v.push(ss.last())
        } else {
            v
        }
    }
}

/// A socket that has a far end.
pub open spec fn is_open(s: SocketRow<Seq<char>>) -> Option<SocketRow<Seq<char>>> {
    if !s.listens() && s.remote_port != 0 {
        Some(s)
    } else {
        None
    }
}

/// The near end of a socket, with its protocol.
pub open spec fn near_text(s: SocketRow<Seq<char>>) -> Seq<char> {
    s.proto.text() + " "@ + endpoint_text(s.local_ip, s.local_port)
}

/// Lines with one more for each of the first `n` connections.
pub open spec fn with_open(
    f: Seq<(Seq<char>, Seq<char>)>,
    open: Seq<SocketRow<Seq<char>>>,
    n: int,
) -> Seq<(Seq<char>, Seq<char>)>
    decreases n,
{
    if n <= 0 {
        f
    } else {
        with_field(
            with_open(f, open, n - 1),
            near_text(open[n - 1]),
            "→ "@ + endpoint_text(open[n - 1].remote_ip, open[n - 1].remote_port),
        )
    }
}

/// The smaller of two numbers.
pub open spec fn at_most(n: nat, max: usize) -> int {
    if n > max {
        max as int
    } else {
        n as int
    }
}

/// The lines about the sockets of a process.
pub open spec fn socket_lines(mine: Seq<SocketRow<Seq<char>>>) -> Seq<(Seq<char>, Seq<char>)> {
    let l = listeners(mine);
    let open = picked(mine, |s: SocketRow<Seq<char>>| is_open(s));
    let f = Seq::empty();
    let f = with_field(
        f,
        "Escutando"@,
        joined(Seq::new(l.len(), |i: int| near_text(l[i])), "  ·  "@),
    );
    let f = with_field(f, "Conexões abertas"@, decimal(open.len()));
    let f = with_open(f, open, at_most(open.len(), MAX_CONNECTIONS));
    if open.len() > MAX_CONNECTIONS {
        with_field(
            f,
            "E mais"@,
            decimal((open.len() - MAX_CONNECTIONS) as nat)
                + " conexão(ões) — veja o painel Connections"@,
        )
    } else {
        f
    }
}

/// The offers to record what the first `n` listening sockets receive, and the ports that are
/// taken behind them: no two offers listen on one port.
pub open spec fn recorders(l: Seq<SocketRow<Seq<char>>>, taken: Seq<u16>, n: int) -> (
    Seq<HandoffV>,
    Seq<u16>,
)
    decreases n,
{
    if n <= 0 {
        (Seq::empty(), taken)
    } else {
        let (v, t) = recorders(l, taken, n - 1);
        match recorder_port(t, l[n - 1].local_port) {
            Some(p) => (
                v.push(recorder(l[n - 1].proto.text(), l[n - 1].local_port, p)),
                t.push(p as u16),
            ),
            None => (v, t),
        }
    }
}

/// The ports that the offers listen on are free, and no two are the same.
pub proof fn lemma_recorders_apart(l: Seq<SocketRow<Seq<char>>>, taken: Seq<u16>, n: int)
    requires
        0 <= n <= l.len(),
    ensures
        ({
            let (v, t) = recorders(l, taken, n);
            &&& t.len() == taken.len() + v.len()
            &&& t.take(taken.len() as int) == taken
            &&& forall|i: int, j: int|
                0 <= i < j < t.len() && taken.len() <= j ==> #[trigger] t[i] != #[trigger] t[j]
        }),
    decreases n,
{
    let (v, t) = recorders(l, taken, n);
    if n > 0 {
        lemma_recorders_apart(l, taken, n - 1);
        let b = recorders(l, taken, n - 1).1;
        lemma_recorder(b, l[n - 1].local_port);
        match recorder_port(b, l[n - 1].local_port) {
            Some(p) => {
                assert(t.take(taken.len() as int) =~= b.take(taken.len() as int));
                assert forall|i: int, j: int| 0 <= i < j < t.len() && taken.len() <= j implies
                    #[trigger] t[i] != #[trigger] t[j] by {
                    if j == b.len() {
                        assert(b.contains(b[i]));
                    }
                }
            },
            None => {},
        }
    } else {
        assert(t.take(taken.len() as int) =~= taken);
    }
}

/// Sockets behind references, in contracts.
pub open spec fn seen(v: Seq<&SocketRow<String>>) -> Seq<SocketRow<Seq<char>>> {
    Seq::new(v.len(), |i: int| v[i]@)
}

/// Whether an inode is in a list.
pub fn has_inode(v: &Vec<u64>, inode: u64) -> (r: bool)
    ensures
        r == v@.contains(inode),
{
    for i in 0..v.len()
        invariant
            forall|j: int| 0 <= j < i ==> #[trigger] v@[j] != inode,
    {
        if v[i] == inode {
            return true;
        }
    }
    false
}

fn list_held<'a>(table: &'a Vec<SocketRow<String>>, inodes: &Vec<u64>) -> (r: Vec<
    &'a SocketRow<String>,
>)
    ensures
        seen(r@) == held(sockets_of(table@), inodes@),
{
    let ghost vs = sockets_of(table@);
    let ghost f = |s: SocketRow<Seq<char>>| holds_it(s, inodes@);
    let mut r: Vec<&'a SocketRow<String>> = Vec::new();
    proof {
        lemma_pick_ends(vs, f);
        assert(seen(r@) =~= Seq::empty());
    }
    for i in 0..table.len()
        invariant
            vs == sockets_of(table@),
            f == (|s: SocketRow<Seq<char>>| holds_it(s, inodes@)),
            seen(r@) == picked(vs.take(i as int), f),
    {
        proof {
            lemma_pick(vs, f, i as int);
            assert(vs[i as int] == table@[i as int]@);
        }
        if has_inode(inodes, table[i].inode) {
            let ghost before = seen(r@);
            r.push(&table[i]);
            assert(seen(r@) =~= before.push(vs[i as int]));
        }
    }
    r
}

fn is_on_port(v: &Vec<&SocketRow<String>>, s: &SocketRow<String>) -> (r: bool)
    ensures
        r == on_port(seen(v@), s@),
{
    for i in 0..v.len()
        invariant
            forall|j: int|
                0 <= j < i ==> !((#[trigger] seen(v@)[j]).proto == s.proto && seen(
                    v@,
                )[j].local_port == s.local_port),
    {
        assert(seen(v@)[i as int] == v@[i as int]@);
        if v[i].proto == s.proto && v[i].local_port == s.local_port {
            return true;
        }
    }
    false
}

fn list_listeners<'a>(mine: &Vec<&'a SocketRow<String>>) -> (r: Vec<&'a SocketRow<String>>)
    ensures
        seen(r@) == listeners(seen(mine@)),
{
    let ghost vs = seen(mine@);
    let mut r: Vec<&'a SocketRow<String>> = Vec::new();
    proof {
        assert(vs.take(0) =~= Seq::empty());
        assert(seen(r@) =~= Seq::empty());
    }
    for i in 0..mine.len()
        invariant
            vs == seen(mine@),
            seen(r@) == listeners(vs.take(i as int)),
    {
        proof {
            assert(vs.take(i + 1).drop_last() =~= vs.take(i as int));
            assert(vs.take(i + 1).last() == mine@[i as int]@);
        }
        if mine[i].is_listening() && !is_on_port(&r, mine[i]) {
            let ghost before = seen(r@);
            r.push(mine[i]);
            assert(seen(r@) =~= before.push(vs[i as int]));
        }
    }
    assert(vs.take(vs.len() as int) =~= vs);
    r
}

fn list_open<'a>(mine: &Vec<&'a SocketRow<String>>) -> (r: Vec<&'a SocketRow<String>>)
    ensures
        seen(r@) == picked(seen(mine@), |s: SocketRow<Seq<char>>| is_open(s)),
{
    let ghost vs = seen(mine@);
    let ghost f = |s: SocketRow<Seq<char>>| is_open(s);
    let mut r: Vec<&'a SocketRow<String>> = Vec::new();
    proof {
        lemma_pick_ends(vs, f);
        assert(seen(r@) =~= Seq::empty());
    }
    for i in 0..mine.len()
        invariant
            vs == seen(mine@),
            f == (|s: SocketRow<Seq<char>>| is_open(s)),
            seen(r@) == picked(vs.take(i as int), f),
    {
        proof {
            lemma_pick(vs, f, i as int);
            assert(vs[i as int] == mine@[i as int]@);
        }
        if !mine[i].is_listening() && mine[i].remote_port != 0 {
            let ghost before = seen(r@);
            r.push(mine[i]);
            assert(seen(r@) =~= before.push(vs[i as int]));
        }
    }
    r
}

fn write_near(s: &SocketRow<String>) -> (r: String)
    ensures
        r@ == near_text(s@),
{
    cat3(s.proto.label(), " ", s.local().as_str())
}

/// Writes the lines about the sockets of a process.
fn write_sockets(mine: &Vec<&SocketRow<String>>, l: &Vec<&SocketRow<String>>) -> (r: DetailSection)
    requires
        seen(l@) == listeners(seen(mine@)),
    ensures
        r@ == (SectionV { title: "Rede"@, fields: socket_lines(seen(mine@)) }),
{
    let mut s = DetailSection::new("Rede");
    let ghost ls = seen(l@);
    let mut names: Vec<String> = Vec::new();
    for i in 0..l.len()
        invariant
            ls == seen(l@),
            views(names@) =~= Seq::new(i as nat, |k: int| near_text(ls[k])),
    {
        let t = write_near(l[i]);
        assert(ls[i as int] == l@[i as int]@);
        let ghost before = views(names@);
        let ghost y = t@;
        names.push(t);
        assert(views(names@) =~= before.push(y));
    }
    assert(ls.len() == l@.len());
    assert(views(names@) =~= Seq::new(ls.len(), |k: int| near_text(ls[k])));
    s.push("Escutando", join(names.as_slice(), "  ·  "));
    let open = list_open(mine);
    let ghost os = seen(open@);
    assert(os.len() == open@.len());
    let n: usize = open.len();
    s.push("Conexões abertas", dec(n as u64));
    let ghost f = s@.fields;
    let top: usize = if n > MAX_CONNECTIONS {
        MAX_CONNECTIONS
    } else {
        n
    };
    for i in 0..top
        invariant
            os == seen(open@),
            top <= open@.len(),
            s@.title == "Rede"@,
            s@.fields == with_open(f, os, i as int),
    {
        assert(os[i as int] == open@[i as int]@);
        let a = write_near(open[i]);
        let b = cat2("→ ", open[i].remote().as_str());
        s.push(a.as_str(), b);
    }
    if n > MAX_CONNECTIONS {
        let t = cat2(
            dec((n - MAX_CONNECTIONS) as u64).as_str(),
            " conexão(ões) — veja o painel Connections",
        );
        s.push("E mais", t);
    }
    s
}

/// The sockets that a process holds, by the inodes behind its descriptors, and the offers to
/// record what it receives. There is nothing where it holds none.
pub fn sockets_section(inodes: &Vec<u64>, table: &Vec<SocketRow<String>>) -> (r: Option<
    (DetailSection, Vec<Handoff>),
>)
    ensures
        ({
            let ss = sockets_of(table@);
            let mine = held(ss, inodes@);
            let l = listeners(mine);
            match r {
                None => mine.len() == 0,
                Some(x) => mine.len() > 0 && x.0@ == (SectionV {
                    title: "Rede"@,
                    fields: socket_lines(mine),
                }) && offers_of(x.1@) == recorders(l, taken_ports(ss), l.len() as int).0,
            }
        }),
{
    let mine = list_held(table, inodes);
    assert(seen(mine@).len() == mine@.len());
    if mine.len() == 0 {
        return None;
    }
    let l = list_listeners(&mine);
    let s = write_sockets(&mine, &l);
    let mut taken = listening_port_set(table);
    let ghost start = taken@;
    let ghost ls = seen(l@);
    let mut offers: Vec<Handoff> = Vec::new();
    assert(offers_of(offers@) =~= Seq::empty());
    for i in 0..l.len()
        invariant
            ls == seen(l@),
            (offers_of(offers@), taken@) == recorders(ls, start, i as int),
    {
        assert(ls[i as int] == l@[i as int]@);
        match record_traffic(l[i].proto, l[i].local_port, &mut taken) {
            Some(h) => {
                let ghost before = offers_of(offers@);
                let ghost y = h@;
                offers.push(h);
                assert(offers_of(offers@) =~= before.push(y));
            },
            None => {},
        }
    }
    assert(ls.len() == l@.len());
    Some((s, offers))
}

// --- the detail ----------------------------------------------------------------------------------------------

/// What is read about a process only while its detail is open.
#[derive(Debug)]
pub struct Facts {
    pub status: ProcStatus,
    /// The list of users.
    pub users: String,
    /// How many descriptors it has, where they can be counted.
    pub fds: Option<u64>,
    /// The kernel's note on which process to kill first when memory runs out.
    pub oom: Option<String>,
    pub exe: Option<String>,
    /// The memory of the machine in bytes, and the share of the process in it, as it reads.
    pub total_memory: u64,
    pub share: String,
    pub memory: u64,
    pub virtual_memory: u64,
    /// Its disk counters, where they can be read.
    pub io: Option<String>,
    /// The inodes of its sockets.
    pub inodes: Vec<u64>,
}

/// A text as it was or nothing.
pub open spec fn or_empty(o: Option<Seq<char>>) -> Seq<char> {
    match o {
        Some(s) => s,
        None => Seq::empty(),
    }
}

/// The lines that say which process it is.
pub open spec fn identity_lines(ps: Seq<Proc>, p: Proc, x: Facts) -> Seq<(Seq<char>, Seq<char>)> {
    let f = Seq::empty();
    let f = with_field(f, "PID"@, decimal(p.pid as nat));
    let f = with_field(f, "Nome"@, p.name@);
    let f = with_field(f, "Usuário"@, x.status.user_text(x.users@));
    let f = with_some(
        f,
        "Estado"@,
        match x.status.says("State"@) {
            Some(s) => Some(state_words(s)),
            None => None,
        },
    );
    let f = with_field(f, "Pai"@, parent_text(ps, p));
    let f = with_field(f, "Ativo há"@, p.age@);
    let f = with_field(f, "Threads"@, or_empty(x.status.says("Threads"@)));
    let f = with_some(
        f,
        "Descritores abertos"@,
        match x.fds {
            Some(n) => Some(decimal(n as nat)),
            None => None,
        },
    );
    with_some(
        f,
        "Nota do OOM killer"@,
        match x.oom {
            Some(s) => Some(
                trimmed(s@) + " (quanto maior, mais cedo morre se faltar memória)"@,
            ),
            None => None,
        },
    )
}

/// The parent of a process, as it reads.
pub open spec fn parent_text(ps: Seq<Proc>, p: Proc) -> Seq<char> {
    let up = match p.parent {
        Some(x) => place_of(ps, x),
        None => None,
    };
    match up {
        Some(i) => decimal(ps[i].pid as nat) + " · "@ + ps[i].command@,
        None => "nenhum — processo raiz"@,
    }
}

/// The lines that say what runs.
pub open spec fn command_lines(p: Proc, x: Facts) -> Seq<(Seq<char>, Seq<char>)> {
    let f = Seq::empty();
    let f = with_some(f, "Executável"@, maybe(x.exe));
    let f = with_some(f, "Diretório"@, maybe(p.cwd));
    with_field(f, "Linha de comando"@, p.command@)
}

/// The resident memory of a process, as it reads.
pub open spec fn resident_text(x: Facts) -> Seq<char> {
    human(x.memory as nat) + (if x.total_memory > 0 {
        "  ("@ + x.share@ + " da máquina)"@
    } else {
        Seq::empty()
    })
}

/// A size, as it reads.
pub open spec fn human_some(n: Option<nat>) -> Option<Seq<char>> {
    match n {
        Some(k) => Some(human(k)),
        None => None,
    }
}

/// A size that is more than nothing.
pub open spec fn some_size(n: Option<nat>) -> Option<nat> {
    match n {
        Some(k) => if k > 0 {
            Some(k)
        } else {
            None
        },
        None => None,
    }
}

/// What the disk counters of a process say.
pub open spec fn counters_of(x: Facts) -> Option<(nat, nat)> {
    match x.io {
        Some(c) => disk_counters(c@),
        None => None,
    }
}

/// The lines about what it uses.
pub open spec fn resource_lines(p: Proc, x: Facts) -> Seq<(Seq<char>, Seq<char>)> {
    let f = Seq::empty();
    let f = with_field(f, "CPU"@, p.load@);
    let f = with_field(f, "Memória residente"@, resident_text(x));
    let f = with_some(f, "Pico residente"@, human_some(x.status.size("VmHWM"@)));
    let f = with_field(f, "Memória virtual"@, human(x.virtual_memory as nat));
    let f = with_some(f, "Em swap"@, human_some(some_size(x.status.size("VmSwap"@))));
    match counters_of(x) {
        Some((a, b)) => with_field(
            with_field(f, "Lido do disco"@, human(a)),
            "Gravado no disco"@,
            human(b),
        ),
        None => with_field(
            f,
            "Disco"@,
            "contadores ilegíveis — /proc/<pid>/io só se abre para o dono do processo"@,
        ),
    }
}

/// Lines with one more for each of the first `n` children.
pub open spec fn with_children(
    f: Seq<(Seq<char>, Seq<char>)>,
    ps: Seq<Proc>,
    v: Seq<int>,
    n: int,
) -> Seq<(Seq<char>, Seq<char>)>
    decreases n,
{
    if n <= 0 {
        f
    } else {
        with_field(
            with_children(f, ps, v, n - 1),
            decimal(ps[v[n - 1]].pid as nat),
            ps[v[n - 1]].command@,
        )
    }
}

/// The lines about its family.
pub open spec fn family_lines(ps: Seq<Proc>, pid: u32) -> Seq<(Seq<char>, Seq<char>)> {
    let v = ordered_children(ps, pid);
    let f = Seq::empty();
    let f = with_field(f, "Filhos diretos"@, decimal(v.len()));
    let f = with_field(f, "Descendentes"@, decimal(hanging(ps, pid, ps.len() as int)));
    let f = with_children(f, ps, v, at_most(v.len(), MAX_CHILDREN));
    if v.len() > MAX_CHILDREN {
        with_field(f, "E mais"@, decimal((v.len() - MAX_CHILDREN) as nat) + " filho(s)"@)
    } else {
        f
    }
}

/// All the sections of the detail of a process.
pub open spec fn detail_sections(
    ps: Seq<Proc>,
    p: Proc,
    x: Facts,
    ss: Seq<SocketRow<Seq<char>>>,
) -> Seq<SectionV> {
    let v = seq![
        SectionV { title: "Processo"@, fields: identity_lines(ps, p, x) },
        SectionV { title: "Comando"@, fields: command_lines(p, x) },
        SectionV { title: "Recursos"@, fields: resource_lines(p, x) },
        SectionV { title: "Árvore"@, fields: family_lines(ps, p.pid) },
    ];
    let mine = held(ss, x.inodes@);
    if mine.len() > 0 {
        v.push(SectionV { title: "Rede"@, fields: socket_lines(mine) })
    } else {
        v
    }
}

/// The offers of the detail of a process.
pub open spec fn detail_offers(ss: Seq<SocketRow<Seq<char>>>, inodes: Seq<u64>) -> Seq<HandoffV> {
    let l = listeners(held(ss, inodes));
    recorders(l, taken_ports(ss), l.len() as int).0
}

fn copied(t: &Option<String>) -> (r: Option<String>)
    ensures
        maybe(r) == maybe(*t),
{
    match t {
        Some(s) => Some(s.clone()),
        None => None,
    }
}

fn identity_section(ps: &Vec<Proc>, p: &Proc, x: &Facts) -> (r: DetailSection)
    ensures
        r@ == (SectionV { title: "Processo"@, fields: identity_lines(ps@, *p, *x) }),
{
    let mut s = DetailSection::new("Processo");
    s.push("PID", dec(p.pid as u64));
    s.push("Nome", p.name.clone());
    s.push("Usuário", x.status.described_user(x.users.as_str()));
    match x.status.get("State") {
        Some(t) => {
            s.push("Estado", state_name(t.as_str()));
        },
        None => {},
    }
    let up = match p.parent {
        Some(i) => find_proc(ps, i),
        None => None,
    };
    match up {
        Some(i) => {
            let t = cat3(dec(ps[i].pid as u64).as_str(), " · ", ps[i].command.as_str());
            s.push("Pai", t);
        },
        None => {
            s.push("Pai", "nenhum — processo raiz".to_owned());
        },
    }
    s.push("Ativo há", p.age.clone());
    match x.status.get("Threads") {
        Some(t) => {
            s.push("Threads", t);
        },
        None => {},
    }
    match x.fds {
        Some(n) => {
            s.push("Descritores abertos", dec(n));
        },
        None => {},
    }
    match &x.oom {
        Some(t) => {
            let note = cat2(
                trim(t.as_str()).as_str(),
                " (quanto maior, mais cedo morre se faltar memória)",
            );
            s.push("Nota do OOM killer", note);
        },
        None => {},
    }
    s
}

fn command_section(p: &Proc, x: &Facts) -> (r: DetailSection)
    ensures
        r@ == (SectionV { title: "Comando"@, fields: command_lines(*p, *x) }),
{
    let mut s = DetailSection::new("Comando");
    s.push_some("Executável", copied(&x.exe));
    s.push_some("Diretório", copied(&p.cwd));
    s.push("Linha de comando", p.command.clone());
    s
}

fn write_resident(x: &Facts) -> (r: String)
    ensures
        r@ == resident_text(*x),
{
    let h = human_bytes(x.memory);
    if x.total_memory > 0 {
        let tail = cat3("  (", x.share.as_str(), " da máquina)");
        cat2(h.as_str(), tail.as_str())
    } else {
        assert(h@ =~= resident_text(*x));
        h
    }
}

fn resource_section(p: &Proc, x: &Facts) -> (r: DetailSection)
    ensures
        r@ == (SectionV { title: "Recursos"@, fields: resource_lines(*p, *x) }),
{
    let mut s = DetailSection::new("Recursos");
    s.push("CPU", p.load.clone());
    s.push("Memória residente", write_resident(x));
    match x.status.bytes("VmHWM") {
        Some(n) => {
            s.push("Pico residente", human_bytes(n));
        },
        None => {},
    }
    s.push("Memória virtual", human_bytes(x.virtual_memory));
    match x.status.bytes("VmSwap") {
        Some(n) => {
            if n > 0 {
                s.push("Em swap", human_bytes(n));
            }
        },
        None => {},
    }
    let io = match &x.io {
        Some(c) => disk_io(c.as_str()),
        None => None,
    };
    match io {
        Some((a, b)) => {
            s.push("Lido do disco", human_bytes(a));
            s.push("Gravado no disco", human_bytes(b));
        },
        None => {
            s.push(
                "Disco",
                "contadores ilegíveis — /proc/<pid>/io só se abre para o dono do processo".to_owned(),
            );
        },
    }
    s
}

fn family_section(ps: &Vec<Proc>, pid: u32) -> (r: DetailSection)
    ensures
        r@ == (SectionV { title: "Árvore"@, fields: family_lines(ps@, pid) }),
{
    let mut s = DetailSection::new("Árvore");
    let (kids, below) = family(ps, pid);
    let ghost v = ordered_children(ps@, pid);
    assert(v.len() == kids@.len());
    let n: usize = kids.len();
    s.push("Filhos diretos", dec(n as u64));
    s.push("Descendentes", dec(below as u64));
    let ghost f = s@.fields;
    let top: usize = if n > MAX_CHILDREN {
        MAX_CHILDREN
    } else {
        n
    };
    for i in 0..top
        invariant
            top <= kids@.len(),
            v == Seq::new(kids@.len(), |i: int| kids@[i] as int),
            forall|i: int| 0 <= i < kids@.len() ==> #[trigger] kids@[i] < ps@.len(),
            s@.title == "Árvore"@,
            s@.fields == with_children(f, ps@, v, i as int),
    {
        let p = &ps[kids[i]];
        assert(ps@[v[i as int]] == *p);
        let pid_text = dec(p.pid as u64);
        s.push(pid_text.as_str(), p.command.clone());
    }
    if n > MAX_CHILDREN {
        s.push("E mais", cat2(dec((n - MAX_CHILDREN) as u64).as_str(), " filho(s)"));
    }
    s
}

/// All that is known about a process, with what it moves to and from disks a second as bit
/// patterns of doubles. There is nothing where it is gone.
pub fn build_detail(
    ps: &Vec<Proc>,
    pid: u32,
    x: &Facts,
    table: &Vec<SocketRow<String>>,
    rates: Option<(u64, u64)>,
) -> (r: Option<Detail>)
    ensures
        (match r {
            None => place_of(ps@, pid) is None,
            Some(d) => ({
                let p = ps@[place_of(ps@, pid)->0];
                &&& place_of(ps@, pid) is Some
                &&& d.title@ == p.name@ + " · pid "@ + decimal(pid as nat)
                &&& d.gone_note@ == "encerrado"@
                &&& sections_of(d.sections@) == detail_sections(ps@, p, *x, sockets_of(table@))
                &&& (match d.rates {
                    Some(y) => rates == Some(y.values) && y.labels.0@ == "↓ Lendo do disco"@
                        && y.labels.1@ == "↑ Gravando no disco"@,
                    None => rates is None,
                })
                &&& offers_of(d.handoffs@) == detail_offers(sockets_of(table@), x.inodes@)
                &&& d.handoff_title@ == "Gravar o tráfego deste processo"@
            }),
        }),
{
    match find_proc(ps, pid) {
        None => None,
        Some(i) => {
            let p = &ps[i];
            proof {
                lemma_place_of(ps@, pid);
            }
            let mut sections: Vec<DetailSection> = Vec::new();
            sections.push(identity_section(ps, p, x));
            sections.push(command_section(p, x));
            sections.push(resource_section(p, x));
            sections.push(family_section(ps, p.pid));
            let mut handoffs: Vec<Handoff> = Vec::new();
            match sockets_section(&x.inodes, table) {
                Some((s, offers)) => {
                    sections.push(s);
                    handoffs = offers;
                },
                None => {
                    assert(listeners(held(sockets_of(table@), x.inodes@)) =~= Seq::empty());
                    assert(offers_of(handoffs@) =~= Seq::empty());
                },
            }
            assert(sections_of(sections@) =~= detail_sections(ps@, *p, *x, sockets_of(table@)));
            Some(
                Detail {
                    title: cat3(p.name.as_str(), " · pid ", dec(pid as u64).as_str()),
                    gone_note: "encerrado",
                    sections,
                    rates: match rates {
                        Some(values) => Some(
                            Rates { labels: ("↓ Lendo do disco", "↑ Gravando no disco"), values },
                        ),
                        None => None,
                    },
                    handoffs,
                    handoff_title: "Gravar o tráfego deste processo",
                },
            )
        },
    }
}

/// A size that the kernel tells in kilobytes, in bytes.
pub proof fn lemma_size_in(n: nat)
    requires
        n * 1024 <= u64::MAX,
    ensures
        size_in(decimal(n) + seq![' '] + "kB"@) == Some(n * 1024),
{
    reveal_strlit("kB");
    reveal_strlit(" ");
    let d = decimal(n);
    lemma_decimal_reads_back(n);
    let ws = seq![d, "kB"@];
    assert forall|i: int| 0 <= i < d.len() implies !is_space(#[trigger] d[i]) by {
        assert(is_digit(d[i]));
    }
    assert(is_word(d) && is_word("kB"@));
    lemma_join_words(ws);
    reveal_with_fuel(joined, 3);
    assert(ws.drop_last() =~= seq![d]);
    assert(" "@ =~= seq![' ']);
    assert(joined(ws, " "@) =~= d + seq![' '] + "kB"@);
}

/// What a process read and wrote between two readings of it; a reading of another process says
/// nothing.
pub proof fn lemma_moved(b: IoReading, now: IoReading)
    ensures
        b.pid == now.pid && b.at < now.at && b.read <= now.read ==> b.read + moved(
            Some(b),
            now,
        ).rx == now.read,
        b.pid == now.pid && b.at < now.at && b.written <= now.written ==> b.written + moved(
            Some(b),
            now,
        ).tx == now.written,
        b.pid == now.pid && b.at < now.at ==> b.at + moved(Some(b), now).ms == now.at,
        b.pid != now.pid ==> moved(Some(b), now) == moved(None, now),
        moved(None, now).rx == 0 && moved(None, now).tx == 0,
{
}

proof fn lemma_offspring(ps: Seq<Proc>, pid: u32, n: int)
    requires
        0 <= n <= ps.len(),
    ensures
        offspring(ps, pid, n).len() <= n,
        forall|x: int| #[trigger]
            offspring(ps, pid, n).contains(x) <==> 0 <= x < n && !ps[x].thread && ps[x].parent
                == Some(pid),
    decreases n,
{
    let r = offspring(ps, pid, n);
    if n > 0 {
        lemma_offspring(ps, pid, n - 1);
        let w = offspring(ps, pid, n - 1);
        assert forall|x: int| #[trigger] r.contains(x) <==> 0 <= x < n && !ps[x].thread
            && ps[x].parent == Some(pid) by {
            if r.contains(x) && !w.contains(x) {
                let i = choose|i: int| 0 <= i < r.len() && r[i] == x;
                if i < w.len() {
                    assert(w[i] == x);
                }
            }
            if w.contains(x) {
                let i = choose|i: int| 0 <= i < w.len() && w[i] == x;
                assert(r[i] == x);
            }
            if x == n - 1 && !ps[x].thread && ps[x].parent == Some(pid) {
                assert(r[r.len() - 1] == x);
            }
        }
    } else {
        assert forall|x: int| #[trigger] r.contains(x) <==> 0 <= x < n && !ps[x].thread
            && ps[x].parent == Some(pid) by {}
    }
}

/// The children of a process: all that have it as their parent and are no threads, the one that
/// uses the most first, and those that use the same by pid.
pub proof fn lemma_ordered_children(ps: Seq<Proc>, pid: u32)
    requires
        ps.len() <= usize::MAX,
    ensures
        forall|x: int| #[trigger]
            ordered_children(ps, pid).contains(x) <==> 0 <= x < ps.len() && !ps[x].thread
                && ps[x].parent == Some(pid),
        forall|i: int, j: int|
            0 <= i < j < ordered_children(ps, pid).len() ==> {
                let a = ps[#[trigger] ordered_children(ps, pid)[i]];
                let b = ps[#[trigger] ordered_children(ps, pid)[j]];
                a.cpu > b.cpu || (a.cpu == b.cpu && a.pid <= b.pid)
            },
{
    let v = offspring(ps, pid, ps.len() as int);
    lemma_offspring(ps, pid, ps.len() as int);
    let keys = Seq::new(v.len(), |i: int| child_key(ps[v[i]]));
    let o = lemma_sorted_from(v, keys);
    lemma_sorted_members(v, keys);
    let r = ordered_children(ps, pid);
    assert forall|x: int| #[trigger] r.contains(x) <==> 0 <= x < ps.len() && !ps[x].thread
        && ps[x].parent == Some(pid) by {
        assert(v.contains(x) <==> r.contains(x));
    }
    assert forall|i: int, j: int| 0 <= i < j < r.len() implies {
        let a = ps[#[trigger] r[i]];
        let b = ps[#[trigger] r[j]];
        a.cpu > b.cpu || (a.cpu == b.cpu && a.pid <= b.pid)
    } by {
        assert(keys[o[i]] <= keys[o[j]]);
        assert(r[i] == v[o[i]] && r[j] == v[o[j]]);
    }
}

/// What was read and what was written are each under their own name.
pub proof fn lemma_disk_counters(content: Seq<char>)
    ensures
        (match disk_counters(content) {
            Some((read, written)) => counter(content, "read_bytes:"@) == Some(read) && counter(
                content,
                "write_bytes:"@,
            ) == Some(written),
            None => counter(content, "read_bytes:"@) is None || counter(content, "write_bytes:"@) is None,
        }),
{
}

/// The letter of a state says what it is.
pub proof fn lemma_state_words(rest: Seq<char>)
    ensures
        state_words(seq!['R'] + rest) == "executando"@,
        state_words(seq!['S'] + rest) == "dormindo"@,
        state_words(seq!['D'] + rest) == "espera ininterrompível (D) — travado em I/O"@,
        state_words(seq!['Z'] + rest) == "zumbi — já morreu, ninguém coletou"@,
        state_words(seq!['T'] + rest) == "parado (SIGSTOP)"@,
        state_words(seq!['t'] + rest) == "parado por um depurador"@,
        state_words(seq!['I'] + rest) == "ocioso"@,
        state_words(seq!['X'] + rest) == "morto"@,
{
}

} // verus!
