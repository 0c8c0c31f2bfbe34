//! Who is logged in over SSH: from where, since when, and what they are doing.

use vstd::prelude::*;
use crate::bytes::{bytes16, bytes32, lemma_reads_back, number_at, u16_at, u32_at, Endian};
use crate::dict::{find_word, lemma_place, put_all, put_word, under, words_of};
use crate::number::{
    dec, decimal, human, human_bytes, lemma_decimal_reads_back, natural, parse_upto, within,
};
use crate::order::{
    is_order, lemma_sorted, lemma_sorted_from, lemma_sorted_members, sorted_by, stable_order,
};
use crate::pick::{lemma_pick, lemma_pick_ends, picked};
use crate::text::{
    after_last, begins, behind_last, cat2, cat3, cat4, cat5, contains_char, cut_once, first_some,
    lines, maybe, same, split_lines, split_once, split_words, starts_with, views, words, Cut,
};
use crate::monitor::{
    sections_of, with_field, with_some, Danger, Detail, DetailSection, SectionV, TableRow,
};
use crate::monitor::iface::{holder, interface_of, is_wildcard, Held};
use crate::monitor::owner::{at, danger_lines, find_proc, kill_danger, place_of, victims, Proc};
use crate::monitor::ports::{capped, endpoint_text, sockets_of, Proto, SocketRow, TCP_ESTABLISHED};
use crate::monitor::process::{as_place, ints};
use crate::monitor::process_detail::{at_most, has_inode, or_empty, seen};
use crate::monitor::resolve::{owner_label, owner_text, user_line, user_name};

verus! {

/// The headers of the table.
pub const HEADERS: [&'static str; 6] = ["User", "Host", "TTY", "Time", "Folder", "Command"];

// --- the record of logins ------------------------------------------------------------------------------------

/// How many bytes a record of a login has.
pub const RECORD_SIZE: usize = 384;

/// The type of a record that holds a living login.
pub const USER_PROCESS: u16 = 7;

/// Where the parts of a record stand.
pub const UT_TYPE: usize = 0;

pub const UT_PID: usize = 4;

pub const UT_LINE: usize = 8;

pub const UT_LINE_LEN: usize = 32;

pub const UT_USER: usize = 44;

pub const UT_USER_LEN: usize = 32;

pub const UT_HOST: usize = 76;

pub const UT_HOST_LEN: usize = 256;

pub const UT_TV_SEC: usize = 340;

/// A login, whichever source tells of it.
#[derive(Debug)]
pub struct Session<T> {
    pub pid: u32,
    /// Its terminal; empty where the source does not name it.
    pub line: T,
    pub user: T,
    /// Where it came from; empty where the source does not say.
    pub host: T,
    /// When it began, in seconds.
    pub login_time: u64,
    /// Whether the source itself says that it came over SSH. A host alone does not: a terminal
    /// multiplexer or a display leave one too.
    pub vouched_ssh: bool,
}

impl View for Session<String> {
    type V = Session<Seq<char>>;

    open spec fn view(&self) -> Session<Seq<char>> {
        Session {
            pid: self.pid,
            line: self.line@,
            user: self.user@,
            host: self.host@,
            login_time: self.login_time,
            vouched_ssh: self.vouched_ssh,
        }
    }
}

/// Logins, in contracts.
pub open spec fn sessions_of(v: Seq<Session<String>>) -> Seq<Session<Seq<char>>> {
    Seq::new(v.len(), |i: int| v[i]@)
}

/// The text that bytes write in UTF-8, with a mark for each run of bytes that does not.
pub uninterp spec fn lossy_text(b: Seq<u8>) -> Seq<char>;

/// `String::from_utf8_lossy`: the text of some bytes, which depends on the bytes alone. Bytes
/// below 128 are each the character of their number.
#[verifier::external_body]
fn decode(b: &[u8]) -> (r: String)
    ensures
        r@ == lossy_text(b@),
        (forall|i: int| 0 <= i < b@.len() ==> #[trigger] b@[i] < 128) ==> r@ == Seq::new(
            b@.len(),
            |i: int| b@[i] as char,
        ),
{
    String::from_utf8_lossy(b).into_owned()
}

/// Bytes up to the first that is 0.
pub open spec fn until_nul(b: Seq<u8>) -> Seq<u8>
    decreases b.len(),
{
    if b.len() == 0 || b[0] == 0 {
        Seq::empty()
    } else {
        seq![b[0]] + until_nul(b.skip(1))
    }
}

proof fn lemma_until_nul(b: Seq<u8>, n: int)
    requires
        0 <= n <= b.len(),
        forall|i: int| 0 <= i < n ==> #[trigger] b[i] != 0,
        n == b.len() || b[n] == 0,
    ensures
        until_nul(b) == b.take(n),
    decreases n,
{
    if n > 0 {
        let c = b.skip(1);
        assert forall|i: int| 0 <= i < n - 1 implies #[trigger] c[i] != 0 by {
            assert(c[i] == b[i + 1]);
        }
        lemma_until_nul(c, n - 1);
        assert(b.take(n) =~= seq![b[0]] + c.take(n - 1));
    } else {
        assert(b.take(0) =~= Seq::empty());
    }
}

/// The text in a part of a record, which ends at the first byte that is 0.
pub fn cstr(rec: &[u8], at: usize, len: usize) -> (r: String)
    requires
        at + len <= rec@.len(),
    ensures
        r@ == lossy_text(until_nul(rec@.subrange(at as int, at + len))),
{
    let ghost part = rec@.subrange(at as int, at + len);
    let total: usize = rec.len();
    let mut n: usize = 0;
    while n < len && rec[at + n] != 0
        invariant
            n <= len,
            at + len <= total,
            total == rec@.len(),
            part == rec@.subrange(at as int, at + len),
            forall|i: int| 0 <= i < n ==> #[trigger] part[i] != 0,
        decreases len - n,
    {
        n = n + 1;
    }
    proof {
        lemma_until_nul(part, n as int);
        assert(rec@.subrange(at as int, at + n) =~= part.take(n as int));
    }
    decode(vstd::slice::slice_subrange(rec, at, at + n))
}

/// The login in a record, where it holds a living one.
pub open spec fn record_in(rec: Seq<u8>, e: Endian) -> Option<Session<Seq<char>>> {
    let pid = number_at(rec, UT_PID as int, 4, e);
    let time = number_at(rec, UT_TV_SEC as int, 4, e);
    if number_at(rec, UT_TYPE as int, 2, e) != USER_PROCESS {
        None
    } else if pid == 0 || pid > i32::MAX {
        None
    } else {
        Some(
            Session {
                pid: pid as u32,
                line: lossy_text(until_nul(rec.subrange(UT_LINE as int, UT_LINE + UT_LINE_LEN))),
                user: lossy_text(until_nul(rec.subrange(UT_USER as int, UT_USER + UT_USER_LEN))),
                host: lossy_text(until_nul(rec.subrange(UT_HOST as int, UT_HOST + UT_HOST_LEN))),
                login_time: if time > i32::MAX {
                    0
                } else {
                    time as u64
                },
                vouched_ssh: false,
            },
        )
    }
}

/// The whole records of some bytes; what is left behind the last is none.
pub open spec fn records(data: Seq<u8>) -> Seq<Seq<u8>> {
    Seq::new(
        data.len() / RECORD_SIZE as nat,
        |i: int| data.subrange(i * RECORD_SIZE, i * RECORD_SIZE + RECORD_SIZE),
    )
}

/// An optional login, in contracts.
pub open spec fn session_of(s: Option<Session<String>>) -> Option<Session<Seq<char>>> {
    match s {
        Some(x) => Some(x@),
        None => None,
    }
}

fn read_record(rec: &[u8], e: Endian) -> (r: Option<Session<String>>)
    requires
        rec@.len() == RECORD_SIZE,
    ensures
        session_of(r) == record_in(rec@, e),
{
    if u16_at(rec, UT_TYPE, e) != USER_PROCESS {
        return None;
    }
    let pid = u32_at(rec, UT_PID, e);
    if pid == 0 || pid > i32::MAX as u32 {
        return None;
    }
    let time = u32_at(rec, UT_TV_SEC, e);
    Some(
        Session {
            pid,
            line: cstr(rec, UT_LINE, UT_LINE_LEN),
            user: cstr(rec, UT_USER, UT_USER_LEN),
            host: cstr(rec, UT_HOST, UT_HOST_LEN),
            login_time: if time > i32::MAX as u32 {
                0
            } else {
                time as u64
            },
            vouched_ssh: false,
        },
    )
}

/// The living logins of a record of logins.
pub fn read_utmp(data: &[u8], e: Endian) -> (r: Vec<Session<String>>)
    ensures
        sessions_of(r@) == picked(records(data@), |rec: Seq<u8>| record_in(rec, e)),
{
    let total: usize = data.len();
    let n: usize = total / RECORD_SIZE;
    let ghost vs = records(data@);
    let ghost f = |rec: Seq<u8>| record_in(rec, e);
    let mut r: Vec<Session<String>> = Vec::new();
    proof {
        lemma_pick_ends(vs, f);
        assert(sessions_of(r@) =~= Seq::empty());
    }
    for i in 0..n
        invariant
            total == data@.len(),
            n == total / RECORD_SIZE,
            vs == records(data@),
            f == (|rec: Seq<u8>| record_in(rec, e)),
            sessions_of(r@) == picked(vs.take(i as int), f),
    {
        proof {
            lemma_pick(vs, f, i as int);
            assert(i * 384 + 384 <= total);
        }
        let from: usize = i * RECORD_SIZE;
        let rec = vstd::slice::slice_subrange(data, from, from + RECORD_SIZE);
        assert(rec@ == vs[i as int]);
        match read_record(rec, e) {
            Some(s) => {
                let ghost before = sessions_of(r@);
                let ghost y = s@;
                r.push(s);
                assert(sessions_of(r@) =~= before.push(y));
            },
            None => {},
        }
    }
    r
}

// --- the files of sessions -----------------------------------------------------------------------------------

/// The pairs of a file of `KEY=value` lines, the last word on each key.
pub open spec fn assignments(content: Seq<char>) -> Seq<(Seq<char>, Seq<char>)> {
    put_all(Seq::empty(), picked(lines(content), |l: Seq<char>| cut_once(l, Cut::At('='))))
}

/// A name of a service that means a login over SSH.
pub open spec fn is_ssh_service(s: Seq<char>) -> bool {
    s == "sshd"@ || s == "ssh"@
}

/// The SSH login in a file, where it has all that a row needs.
pub open spec fn login_in(content: Seq<char>) -> Option<Session<Seq<char>>> {
    let f = assignments(content);
    match (under(f, "CLASS"@), under(f, "SERVICE"@)) {
        (Some(class), Some(service)) => if class == "user"@ && is_ssh_service(service) {
            match (under(f, "LEADER"@), under(f, "USER"@), under(f, "REALTIME"@)) {
                (Some(leader), Some(user), Some(time)) => match (
                    within(natural(leader), u32::MAX as nat),
                    within(natural(time), u64::MAX as nat),
                ) {
                    (Some(pid), Some(us)) => Some(
                        Session {
                            pid: pid as u32,
                            line: or_empty(under(f, "TTY"@)),
                            user,
                            host: or_empty(under(f, "REMOTE_HOST"@)),
                            login_time: (us / 1_000_000) as u64,
                            vouched_ssh: true,
                        },
                    ),
                    _ => None,
                },
                _ => None,
            }
        } else {
            None
        },
        _ => None,
    }
}

fn read_assignments(content: &str) -> (r: Vec<(String, String)>)
    ensures
        words_of(r@) == assignments(content@),
{
    let ls = split_lines(content);
    let ghost vs = views(ls@);
    let ghost f = |l: Seq<char>| cut_once(l, Cut::At('='));
    let mut fields: Vec<(String, String)> = Vec::new();
    proof {
        lemma_pick_ends(vs, f);
        assert(words_of(fields@) =~= put_all(Seq::empty(), Seq::empty()));
    }
    for i in 0..ls.len()
        invariant
            vs == views(ls@),
            vs == lines(content@),
            f == (|l: Seq<char>| cut_once(l, Cut::At('='))),
            words_of(fields@) == put_all(Seq::empty(), picked(vs.take(i as int), f)),
    {
        proof {
            lemma_pick(vs, f, i as int);
            assert(vs[i as int] == ls@[i as int]@);
        }
        match split_once(ls[i].as_str(), '=') {
            Some((k, v)) => {
                proof {
                    let a = picked(vs.take(i as int), f);
                    assert(a.push((k@, v@)).drop_last() =~= a);
                }
                put_word(&mut fields, k.as_str(), v.as_str());
            },
            None => {},
        }
    }
    fields
}

fn get(fields: &Vec<(String, String)>, key: &str) -> (r: Option<String>)
    ensures
        maybe(r) == under(words_of(fields@), key@),
{
    match find_word(fields, key) {
        Some(i) => {
            proof {
                lemma_place(words_of(fields@), key@);
            }
            Some(fields[i].1.clone())
        },
        None => None,
    }
}

fn or_blank(o: Option<String>) -> (r: String)
    ensures
        r@ == or_empty(maybe(o)),
{
    match o {
        Some(s) => s,
        None => {
            let r = String::new();
            assert(r@ =~= Seq::empty());
            r
        },
    }
}

/// Reads a file of a session: an SSH login, or nothing where it is none or lacks what a row
/// needs. The time in it is in microseconds.
pub fn parse_logind_session(content: &str) -> (r: Option<Session<String>>)
    ensures
        session_of(r) == login_in(content@),
{
    let f = read_assignments(content);
    match (get(&f, "CLASS"), get(&f, "SERVICE")) {
        (Some(class), Some(service)) => {
            if !same(class.as_str(), "user") {
                return None;
            }
            if !(same(service.as_str(), "sshd") || same(service.as_str(), "ssh")) {
                return None;
            }
            match (get(&f, "LEADER"), get(&f, "USER"), get(&f, "REALTIME")) {
                (Some(leader), Some(user), Some(time)) => {
                    match (
                        parse_upto(leader.as_str(), u32::MAX as u64),
                        parse_upto(time.as_str(), u64::MAX),
                    ) {
                        (Some(pid), Some(us)) => Some(
                            Session {
                                pid: pid as u32,
                                line: or_blank(get(&f, "TTY")),
                                user,
                                host: or_blank(get(&f, "REMOTE_HOST")),
                                login_time: us / 1_000_000,
                                vouched_ssh: true,
                            },
                        ),
                        _ => None,
                    }
                },
                _ => None,
            }
        },
        _ => None,
    }
}

/// All logins: those of the record where the machine keeps one, and those of the files of
/// sessions where it does not.
pub open spec fn all_sessions(utmp: Option<Seq<u8>>, files: Seq<Seq<char>>, e: Endian) -> Seq<
    Session<Seq<char>>,
> {
    match utmp {
        Some(data) => picked(records(data), |rec: Seq<u8>| record_in(rec, e)),
        None => picked(files, |c: Seq<char>| login_in(c)),
    }
}

/// All logins that the machine tells of. A machine that keeps no record of logins is not one on
/// which nobody is logged in.
pub fn sessions(utmp: &Option<Vec<u8>>, files: &Vec<String>, e: Endian) -> (r: Vec<Session<String>>)
    ensures
        sessions_of(r@) == all_sessions(
            match *utmp {
                Some(d) => Some(d@),
                None => None,
            },
            views(files@),
            e,
        ),
{
    match utmp {
        Some(d) => read_utmp(d.as_slice(), e),
        None => {
            let ghost vs = views(files@);
            let ghost f = |c: Seq<char>| login_in(c);
            let mut r: Vec<Session<String>> = Vec::new();
            proof {
                lemma_pick_ends(vs, f);
                assert(sessions_of(r@) =~= Seq::empty());
            }
            for i in 0..files.len()
                invariant
                    vs == views(files@),
                    f == (|c: Seq<char>| login_in(c)),
                    sessions_of(r@) == picked(vs.take(i as int), f),
            {
                proof {
                    lemma_pick(vs, f, i as int);
                    assert(vs[i as int] == files@[i as int]@);
                }
                match parse_logind_session(files[i].as_str()) {
                    Some(s) => {
                        let ghost before = sessions_of(r@);
                        let ghost y = s@;
                        r.push(s);
                        assert(sessions_of(r@) =~= before.push(y));
                    },
                    None => {},
                }
            }
            r
        },
    }
}

// --- terminals -----------------------------------------------------------------------------------------------

/// Which field behind the command of a process is its terminal.
pub const TTY_NR_FIELD: usize = 4;

/// The name of the terminal with a device number: the number of the driver stands above the low
/// byte of that of the line, and the rest of the line above that. 0 is none.
pub open spec fn tty_text(n: u32) -> Option<Seq<char>> {
    let major = (n as nat / 256) % 4096;
    let minor = n as nat % 256 + 256 * (n as nat / 0x10_0000);
    if n == 0 {
        None
    } else if 136 <= major <= 143 {
        Some("pts/"@ + decimal(((major - 136) * 256 + minor) as nat))
    } else if major == 4 && minor < 64 {
        Some("tty"@ + decimal(minor))
    } else if major == 4 {
        Some("ttyS"@ + decimal((minor - 64) as nat))
    } else {
        Some(decimal(major) + ":"@ + decimal(minor))
    }
}

/// The name of the terminal with a device number.
pub fn tty_from_dev(tty_nr: u32) -> (r: Option<String>)
    ensures
        maybe(r) == tty_text(tty_nr),
{
    if tty_nr == 0 {
        return None;
    }
    let major: u32 = (tty_nr / 256) % 4096;
    let minor: u32 = tty_nr % 256 + 256 * (tty_nr / 0x10_0000);
    if 136 <= major && major <= 143 {
        Some(cat2("pts/", dec(((major - 136) * 256 + minor) as u64).as_str()))
    } else if major == 4 && minor < 64 {
        Some(cat2("tty", dec(minor as u64).as_str()))
    } else if major == 4 {
        Some(cat2("ttyS", dec((minor - 64) as u64).as_str()))
    } else {
        Some(cat3(dec(major as u64).as_str(), ":", dec(minor as u64).as_str()))
    }
}

/// The terminal that the status line of a process names. The fields are counted from the last
/// bracket that closes: a command may have spaces and brackets of its own.
pub open spec fn tty_in(stat: Seq<char>) -> Option<Seq<char>> {
    let w = words(behind_last(stat, ')'));
    if !stat.contains(')') || w.len() <= TTY_NR_FIELD {
        None
    } else {
        match within(natural(w[TTY_NR_FIELD as int]), u32::MAX as nat) {
            Some(n) => tty_text(n as u32),
            None => None,
        }
    }
}

/// The terminal that the status line of a process names.
pub fn tty_name(stat: &str) -> (r: Option<String>)
    ensures
        maybe(r) == tty_in(stat@),
{
    if !contains_char(stat, ')') {
        return None;
    }
    let w = split_words(after_last(stat, ')').as_str());
    assert(views(w@).len() == w@.len());
    if w.len() <= TTY_NR_FIELD {
        return None;
    }
    assert(views(w@)[TTY_NR_FIELD as int] == w@[TTY_NR_FIELD as int]@);
    match parse_upto(w[TTY_NR_FIELD].as_str(), u32::MAX as u64) {
        Some(n) => tty_from_dev(n as u32),
        None => None,
    }
}

// --- processes of a session ----------------------------------------------------------------------------------

/// How many steps up an SSH server is looked for.
pub const MAX_ANCESTOR_DEPTH: usize = 8;

/// A name that an SSH server runs a login under: that of its listener, or that of the part which
/// holds one connection.
pub open spec fn is_sshd(name: Seq<char>) -> bool {
    name == "sshd"@ || name == "sshd-session"@
}

/// The nearest process, within so many steps up, that is an SSH server.
pub open spec fn server_above(ps: Seq<Proc>, pid: Option<u32>, steps: nat) -> Option<u32>
    decreases steps,
{
    match pid {
        None => None,
        Some(x) => if steps == 0 {
            None
        } else {
            match place_of(ps, x) {
                None => None,
                Some(i) => if is_sshd(ps[i].name@) {
                    Some(ps[i].pid)
                } else {
                    server_above(ps, ps[i].parent, (steps - 1) as nat)
                },
            }
        },
    }
}

/// The SSH server that a session hangs below.
pub open spec fn sshd_of(ps: Seq<Proc>, pid: u32) -> Option<u32> {
    server_above(ps, Some(pid), MAX_ANCESTOR_DEPTH as nat)
}

/// The SSH server that a session hangs below: the process that holds its connection.
pub fn sshd_ancestor(ps: &Vec<Proc>, pid: u32) -> (r: Option<u32>)
    ensures
        r == sshd_of(ps@, pid),
{
    let mut current: Option<u32> = Some(pid);
    for k in 0..MAX_ANCESTOR_DEPTH
        invariant
            server_above(ps@, current, (MAX_ANCESTOR_DEPTH - k) as nat) == sshd_of(ps@, pid),
    {
        match current {
            None => {
                return None;
            },
            Some(x) => {
                match find_proc(ps, x) {
                    None => {
                        return None;
                    },
                    Some(i) => {
                        let name = ps[i].name.as_str();
                        if same(name, "sshd") || same(name, "sshd-session") {
                            return Some(ps[i].pid);
                        }
                        current = ps[i].parent;
                    },
                }
            },
        }
    }
    None
}

/// Whether a session came over SSH: it hangs below an SSH server.
pub fn is_ssh_session(ps: &Vec<Proc>, pid: u32) -> (r: bool)
    ensures
        r == (sshd_of(ps@, pid) is Some),
{
    sshd_ancestor(ps, pid).is_some()
}

/// The children of a process among the first `n`.
pub open spec fn kids_of(ps: Seq<Proc>, pid: u32, n: int) -> Seq<u32>
    decreases n,
{
    if n <= 0 {
        Seq::empty()
    } else {
        let v = kids_of(ps, pid, n - 1);
        if ps[n - 1].parent == Some(pid) {
            v.push(ps[n - 1].pid)
        } else {
            v
        }
    }
}

/// All that is found below some processes: the children of the last, and then what is found
/// below the others and these.
pub open spec fn explored(ps: Seq<Proc>, frontier: Seq<u32>, steps: nat) -> Seq<u32>
    decreases steps,
{
    if steps == 0 || frontier.len() == 0 {
        Seq::empty()
    } else {
        let c = kids_of(ps, frontier.last(), ps.len() as int);
        c + explored(ps, frontier.drop_last() + c, (steps - 1) as nat)
    }
}

/// Every process below another, at any depth, each behind its parent.
pub open spec fn below(ps: Seq<Proc>, root: u32) -> Seq<u32> {
    explored(ps, seq![root], ps.len() + 1)
}

fn list_kids_of(ps: &Vec<Proc>, pid: u32) -> (r: Vec<u32>)
    ensures
        r@ == kids_of(ps@, pid, ps@.len() as int),
{
    let mut r: Vec<u32> = Vec::new();
    for i in 0..ps.len()
        invariant
            r@ == kids_of(ps@, pid, i as int),
    {
        let mine = match ps[i].parent {
            Some(x) => x == pid,
            None => false,
        };
        if mine {
            r.push(ps[i].pid);
        }
    }
    r
}

fn add_all(v: &mut Vec<u32>, more: &Vec<u32>)
    ensures
        final(v)@ == old(v)@ + more@,
{
    for i in 0..more.len()
        invariant
            v@ =~= old(v)@ + more@.take(i as int),
    {
        v.push(more[i]);
    }
    assert(more@.take(more@.len() as int) =~= more@);
}

/// Every process below another, however deep: what a login runs may be far down from the
/// process that is registered for it.
pub fn subtree_pids(ps: &Vec<Proc>, root: u32) -> (r: Vec<u32>)
    requires
        ps@.len() < usize::MAX,
    ensures
        r@ == below(ps@, root),
{
    let mut result: Vec<u32> = Vec::new();
    let mut frontier: Vec<u32> = Vec::new();
    frontier.push(root);
    let mut left: usize = ps.len() + 1;
    proof {
        assert(frontier@ =~= seq![root]);
        assert(result@ + explored(ps@, frontier@, left as nat) =~= below(ps@, root));
    }
    while left > 0 && frontier.len() > 0
        invariant
            result@ + explored(ps@, frontier@, left as nat) == below(ps@, root),
        decreases left,
    {
        let ghost f = frontier@;
        let ghost so_far = result@;
        match frontier.pop() {
            Some(pid) => {
                let c = list_kids_of(ps, pid);
                add_all(&mut result, &c);
                add_all(&mut frontier, &c);
                left = left - 1;
                proof {
                    let rest = explored(ps@, f.drop_last() + c@, left as nat);
                    assert(so_far + (c@ + rest) =~= so_far + c@ + rest);
                }
            },
            None => {},
        }
    }
    proof {
        assert(explored(ps@, frontier@, left as nat) =~= Seq::empty());
        assert(result@ =~= below(ps@, root));
    }
    result
}

/// A pid is that of a process whose parent is among some others.
pub open spec fn born_of(ps: Seq<Proc>, pid: u32, above: Seq<u32>) -> bool {
    exists|k: int|
        0 <= k < ps.len() && (#[trigger] ps[k]).pid == pid && ps[k].parent is Some
            && above.contains(ps[k].parent->0)
}

proof fn lemma_kids_of(ps: Seq<Proc>, pid: u32, n: int)
    requires
        0 <= n <= ps.len(),
    ensures
        forall|i: int|
            0 <= i < kids_of(ps, pid, n).len() ==> born_of(
                ps,
                #[trigger] kids_of(ps, pid, n)[i],
                seq![pid],
            ),
    decreases n,
{
    if n > 0 {
        lemma_kids_of(ps, pid, n - 1);
        let v = kids_of(ps, pid, n - 1);
        let w = kids_of(ps, pid, n);
        assert(seq![pid][0] == pid);
        assert forall|i: int| 0 <= i < w.len() implies born_of(ps, #[trigger] w[i], seq![pid]) by {
            if i < v.len() {
                assert(w[i] == v[i]);
                assert(born_of(ps, v[i], seq![pid]));
            } else {
                assert(ps[n - 1].pid == w[i]);
            }
        }
    }
}

proof fn lemma_explored(ps: Seq<Proc>, frontier: Seq<u32>, steps: nat)
    ensures
        forall|i: int|
            0 <= i < explored(ps, frontier, steps).len() ==> born_of(
                ps,
                #[trigger] explored(ps, frontier, steps)[i],
                frontier + explored(ps, frontier, steps).take(i),
            ),
    decreases steps,
{
    if steps > 0 && frontier.len() > 0 {
        let c = kids_of(ps, frontier.last(), ps.len() as int);
        let next = frontier.drop_last() + c;
        let rest = explored(ps, next, (steps - 1) as nat);
        let e = explored(ps, frontier, steps);
        lemma_kids_of(ps, frontier.last(), ps.len() as int);
        lemma_explored(ps, next, (steps - 1) as nat);
        assert forall|i: int| 0 <= i < e.len() implies born_of(
            ps,
            #[trigger] e[i],
            frontier + e.take(i),
        ) by {
            let seen = frontier + e.take(i);
            if i < c.len() {
                assert(e[i] == c[i]);
                assert(born_of(ps, c[i], seq![frontier.last()]));
                let k = choose|k: int|
                    0 <= k < ps.len() && (#[trigger] ps[k]).pid == c[i] && ps[k].parent is Some
                        && seq![frontier.last()].contains(ps[k].parent->0);
                assert(seen[frontier.len() - 1] == frontier.last());
                assert(seen.contains(ps[k].parent->0));
            } else {
                let j = i - c.len();
                assert(e[i] == rest[j]);
                assert(born_of(ps, rest[j], next + rest.take(j)));
                let all = next + rest.take(j);
                let k = choose|k: int|
                    0 <= k < ps.len() && (#[trigger] ps[k]).pid == rest[j] && ps[k].parent is Some
                        && all.contains(ps[k].parent->0);
                let x = ps[k].parent->0;
                let m = choose|m: int| 0 <= m < all.len() && all[m] == x;
                let d = frontier.len() - 1;
                if m < d {
                    assert(seen[m] == x);
                } else {
                    assert(e.take(i)[m - d] == e[m - d]);
                    assert(e[m - d] == (if m - d < c.len() {
                        c[m - d]
                    } else {
                        rest[m - d - c.len()]
                    }));
                    assert(seen[m + 1] == x);
                }
                assert(seen.contains(x));
            }
        }
    }
}

/// Nothing is listed below a process but what its parents lead back to it: each has a parent
/// that is the process, or is listed before it.
pub proof fn lemma_below(ps: Seq<Proc>, root: u32)
    ensures
        forall|i: int|
            0 <= i < below(ps, root).len() ==> born_of(
                ps,
                #[trigger] below(ps, root)[i],
                seq![root] + below(ps, root).take(i),
            ),
{
    lemma_explored(ps, seq![root], ps.len() + 1);
}

/// A number that orders processes by how active they are: by what they use, and those that use
/// the same by when they started.
pub open spec fn activity(p: Proc) -> int {
    p.cpu * 0x1_0000_0000_0000_0000 + p.start
}

/// The most active of the first `n` of some processes, the last of equal ones.
pub open spec fn busiest(ps: Seq<Proc>, pids: Seq<u32>, n: int) -> Option<int>
    decreases n,
{
    if n <= 0 {
        None
    } else {
        let best = busiest(ps, pids, n - 1);
        match (place_of(ps, pids[n - 1]), best) {
            (None, _) => best,
            (Some(i), None) => Some(i),
            (Some(i), Some(b)) => if activity(ps[i]) >= activity(ps[b]) {
                Some(i)
            } else {
                Some(b)
            },
        }
    }
}

fn measure(p: &Proc) -> (r: i128)
    ensures
        r == activity(*p),
{
    p.cpu as i128 * 0x1_0000_0000_0000_0000 + p.start as i128
}

/// What a session is most likely doing: the process that uses the most, and among those that
/// use the same the one that started last.
pub fn most_active(ps: &Vec<Proc>, subtree: &Vec<u32>) -> (r: Option<usize>)
    ensures
        as_place(r) == busiest(ps@, subtree@, subtree@.len() as int),
        r is Some ==> r->0 < ps@.len(),
{
    let mut best: Option<usize> = None;
    for k in 0..subtree.len()
        invariant
            as_place(best) == busiest(ps@, subtree@, k as int),
            best is Some ==> best->0 < ps@.len(),
    {
        match find_proc(ps, subtree[k]) {
            None => {},
            Some(i) => {
                match best {
                    None => {
                        best = Some(i);
                    },
                    Some(b) => {
                        if measure(&ps[i]) >= measure(&ps[b]) {
                            best = Some(i);
                        }
                    },
                }
            },
        }
    }
    best
}

/// How many processes have a parent.
pub open spec fn siblings(ps: Seq<Proc>, parent: u32) -> nat {
    kids_of(ps, parent, ps.len() as int).len()
}

/// What goes down with a session: all below it, and the process above it where the session is
/// all that it has. That one holds the connection; one that has more is shared.
pub open spec fn doomed(ps: Seq<Proc>, pid: u32, subtree: Seq<u32>) -> Seq<u32> {
    match place_of(ps, pid) {
        None => subtree,
        Some(i) => match ps[i].parent {
            None => subtree,
            Some(up) => if siblings(ps, up) <= 1 {
                subtree.push(up)
            } else {
                subtree
            },
        },
    }
}

/// What goes down with a session.
pub fn kill_targets(ps: &Vec<Proc>, session_pid: u32, subtree: &Vec<u32>) -> (r: Vec<u32>)
    ensures
        r@ == doomed(ps@, session_pid, subtree@),
{
    let mut r: Vec<u32> = Vec::new();
    add_all(&mut r, subtree);
    assert(r@ =~= subtree@);
    match find_proc(ps, session_pid) {
        None => {},
        Some(i) => {
            match ps[i].parent {
                None => {},
                Some(up) => {
                    if list_kids_of(ps, up).len() <= 1 {
                        r.push(up);
                    }
                },
            }
        },
    }
    r
}

/// A process that has other children is never taken down with a session.
pub proof fn lemma_shared_parent_stays(ps: Seq<Proc>, pid: u32, subtree: Seq<u32>, other: u32)
    requires
        siblings(ps, other) > 1,
        doomed(ps, pid, subtree).contains(other),
    ensures
        subtree.contains(other),
{
    let d = doomed(ps, pid, subtree);
    let k = choose|k: int| 0 <= k < d.len() && d[k] == other;
    if k < subtree.len() {
        assert(subtree[k] == other);
    }
}

/// The login shell among the first `n` of some processes: its command starts with a dash.
pub open spec fn shell_of(ps: Seq<Proc>, pids: Seq<u32>, n: int) -> Option<int>
    decreases n,
{
    if n <= 0 {
        None
    } else {
        match shell_of(ps, pids, n - 1) {
            Some(i) => Some(i),
            None => match place_of(ps, pids[n - 1]) {
                Some(i) => if begins(ps[i].command@, "-"@) {
                    Some(i)
                } else {
                    None
                },
                None => None,
            },
        }
    }
}

/// The login shell of a session, which is started with a dash before its name.
pub fn login_shell(ps: &Vec<Proc>, subtree: &Vec<u32>) -> (r: Option<usize>)
    ensures
        as_place(r) == shell_of(ps@, subtree@, subtree@.len() as int),
        r is Some ==> r->0 < ps@.len(),
{
    let mut shell: Option<usize> = None;
    for k in 0..subtree.len()
        invariant
            as_place(shell) == shell_of(ps@, subtree@, k as int),
            shell is Some ==> shell->0 < ps@.len(),
    {
        match shell {
            Some(_) => {},
            None => {
                match find_proc(ps, subtree[k]) {
                    Some(i) => {
                        if starts_with(ps[i].command.as_str(), "-") {
                            shell = Some(i);
                        }
                    },
                    None => {},
                }
            },
        }
    }
    shell
}

/// The terminal of a process, by the status lines that could be read.
pub open spec fn tty_by(stats: Seq<(u32, String)>, pid: u32) -> Option<Seq<char>>
    decreases stats.len(),
{
    if stats.len() == 0 {
        None
    } else if stats[0].0 == pid {
        tty_in(stats[0].1@)
    } else {
        tty_by(stats.skip(1), pid)
    }
}

fn find_tty(stats: &Vec<(u32, String)>, pid: u32) -> (r: Option<String>)
    ensures
        maybe(r) == tty_by(stats@, pid),
{
    assert(stats@.skip(0) =~= stats@);
    for i in 0..stats.len()
        invariant
            tty_by(stats@.skip(i as int), pid) == tty_by(stats@, pid),
    {
        assert(stats@.skip(i as int)[0] == stats@[i as int]);
        assert(stats@.skip(i as int).skip(1) =~= stats@.skip(i + 1));
        if stats[i].0 == pid {
            return tty_name(stats[i].1.as_str());
        }
    }
    None
}

/// The first terminal that some processes have.
pub open spec fn first_tty(stats: Seq<(u32, String)>, pids: Seq<u32>) -> Option<Seq<char>>
    decreases pids.len(),
{
    if pids.len() == 0 {
        None
    } else {
        match first_tty(stats, pids.drop_last()) {
            Some(t) => Some(t),
            None => tty_by(stats, pids.last()),
        }
    }
}

fn find_first_tty(stats: &Vec<(u32, String)>, pids: &Vec<u32>) -> (r: Option<String>)
    ensures
        maybe(r) == first_tty(stats@, pids@),
{
    let mut t: Option<String> = None;
    assert(pids@.take(0) =~= Seq::empty());
    for i in 0..pids.len()
        invariant
            maybe(t) == first_tty(stats@, pids@.take(i as int)),
    {
        assert(pids@.take(i + 1).drop_last() =~= pids@.take(i as int));
        if t.is_none() {
            t = find_tty(stats, pids[i]);
        }
    }
    assert(pids@.take(pids@.len() as int) =~= pids@);
    t
}

/// The terminal of a session: the one that its source names, that of its login shell, the first
/// of its processes, or that of the process it is registered for.
pub open spec fn tty_text_of(
    ps: Seq<Proc>,
    s: Session<Seq<char>>,
    subtree: Seq<u32>,
    stats: Seq<(u32, String)>,
) -> Seq<char> {
    let of_shell = match shell_of(ps, subtree, subtree.len() as int) {
        Some(i) => tty_by(stats, ps[i].pid),
        None => None,
    };
    if s.line.len() > 0 {
        s.line
    } else {
        match (of_shell, first_tty(stats, subtree), tty_by(stats, s.pid)) {
            (Some(t), _, _) => t,
            (None, Some(t), _) => t,
            (None, None, Some(t)) => t,
            (None, None, None) => "-"@,
        }
    }
}

/// The terminal of a session. A source that does not name it leaves it to the processes; the
/// login shell is asked first, as another may have opened a terminal of its own.
pub fn tty_of(
    ps: &Vec<Proc>,
    s: &Session<String>,
    subtree: &Vec<u32>,
    stats: &Vec<(u32, String)>,
) -> (r: String)
    ensures
        r@ == tty_text_of(ps@, s@, subtree@, stats@),
{
    if !s.line.as_str().is_empty() {
        return s.line.clone();
    }
    let of_shell = match login_shell(ps, subtree) {
        Some(i) => find_tty(stats, ps[i].pid),
        None => None,
    };
    match of_shell {
        Some(t) => t,
        None => match find_first_tty(stats, subtree) {
            Some(t) => t,
            None => match find_tty(stats, s.pid) {
                Some(t) => t,
                None => "-".to_owned(),
            },
        },
    }
}

// --- rows ----------------------------------------------------------------------------------------------------

/// The process that shows what a session is doing: the most active below it, or the one that it
/// is registered for.
pub open spec fn shown_process(ps: Seq<Proc>, pid: u32, subtree: Seq<u32>) -> Option<int> {
    match busiest(ps, subtree, subtree.len() as int) {
        Some(i) => Some(i),
        None => place_of(ps, pid),
    }
}

/// A directory, as it reads.
pub open spec fn folder_text(p: Option<Proc>) -> Seq<char> {
    match p {
        Some(x) => match maybe(x.cwd) {
            Some(d) => d,
            None => "?"@,
        },
        None => "?"@,
    }
}

/// The cells of a session.
pub open spec fn session_cells(
    ps: Seq<Proc>,
    s: Session<Seq<char>>,
    stats: Seq<(u32, String)>,
    age: Seq<char>,
) -> Seq<Seq<char>> {
    let subtree = below(ps, s.pid);
    let p = at(ps, shown_process(ps, s.pid, subtree));
    seq![
        s.user,
        if s.host.len() == 0 {
            "-"@
        } else {
            s.host
        },
        tty_text_of(ps, s, subtree, stats),
        age,
        folder_text(p),
        match p {
            Some(x) => x.command@,
            None => "-"@,
        },
    ]
}

/// The row of a session.
pub open spec fn session_row(
    r: TableRow,
    ps: Seq<Proc>,
    s: Session<Seq<char>>,
    stats: Seq<(u32, String)>,
    age: Seq<char>,
) -> bool {
    &&& views(r.cells@) == session_cells(ps, s, stats, age)
    &&& r.pid == s.pid
    &&& r.depth == 0
    &&& r.is_last_sibling
    &&& r.guides@.len() == 0
    &&& r.child_count == 0
    &&& r.descendant_pids@ == doomed(ps, s.pid, below(ps, s.pid))
    &&& r.key@.len() == 0
    &&& r.mark is None
}

/// For how many seconds a session has been open.
pub fn connected_for(now: u64, login_time: u64) -> (r: u64)
    ensures
        r == (if now >= login_time {
            (now - login_time) as u64
        } else {
            0
        }),
{
    if now >= login_time {
        now - login_time
    } else {
        0
    }
}

fn write_folder(ps: &Vec<Proc>, i: Option<usize>) -> (r: String)
    requires
        i is Some ==> i->0 < ps@.len(),
    ensures
        r@ == folder_text(at(ps@, as_place(i))),
{
    match i {
        Some(k) => match &ps[k].cwd {
            Some(d) => d.clone(),
            None => "?".to_owned(),
        },
        None => "?".to_owned(),
    }
}

fn find_shown(ps: &Vec<Proc>, pid: u32, subtree: &Vec<u32>) -> (r: Option<usize>)
    ensures
        as_place(r) == shown_process(ps@, pid, subtree@),
        r is Some ==> r->0 < ps@.len(),
{
    match most_active(ps, subtree) {
        Some(i) => Some(i),
        None => find_proc(ps, pid),
    }
}

/// The row of a session, whose age is given as it reads.
pub fn build_row(
    ps: &Vec<Proc>,
    s: &Session<String>,
    stats: &Vec<(u32, String)>,
    age: &str,
) -> (r: TableRow)
    requires
        ps@.len() < usize::MAX,
    ensures
        session_row(r, ps@, s@, stats@, age@),
{
    let subtree = subtree_pids(ps, s.pid);
    let p = find_shown(ps, s.pid, &subtree);
    let command = match p {
        Some(i) => ps[i].command.clone(),
        None => "-".to_owned(),
    };
    let host = if s.host.as_str().is_empty() {
        "-".to_owned()
    } else {
        s.host.clone()
    };
    let mut cells: Vec<String> = Vec::new();
    cells.push(s.user.clone());
    cells.push(host);
    cells.push(tty_of(ps, s, &subtree, stats));
    cells.push(age.to_owned());
    cells.push(write_folder(ps, p));
    cells.push(command);
    assert(views(cells@) =~= session_cells(ps@, s@, stats@, age@));
    TableRow {
        cells,
        pid: s.pid,
        depth: 0,
        is_last_sibling: true,
        guides: Vec::new(),
        child_count: 0,
        descendant_pids: kill_targets(ps, s.pid, &subtree),
        key: String::new(),
        mark: None,
    }
}

/// A session that is shown: its process is alive, and it came over SSH.
pub open spec fn is_shown(ps: Seq<Proc>, s: Session<Seq<char>>) -> bool {
    place_of(ps, s.pid) is Some && (s.vouched_ssh || sshd_of(ps, s.pid) is Some)
}

/// The places of the sessions that are shown, among the first `n`.
pub open spec fn shown_places(ps: Seq<Proc>, v: Seq<Session<Seq<char>>>, n: int) -> Seq<int>
    decreases n,
{
    if n <= 0 {
        Seq::empty()
    } else {
        let w = shown_places(ps, v, n - 1);
        if is_shown(ps, v[n - 1]) {
            w.push(n - 1)
        } else {
            w
        }
    }
}

/// The places of the sessions in the order they are shown: the last to connect first.
pub open spec fn latest_first(ps: Seq<Proc>, v: Seq<Session<Seq<char>>>) -> Seq<int> {
    let w = shown_places(ps, v, v.len() as int);
    sorted_by(w, Seq::new(w.len(), |i: int| (-v[w[i]].login_time) as i128))
}

/// The rows of the sessions, the last to connect first. A session whose process is gone has
/// ended, whatever its source says.
pub fn sample_sessions(
    ps: &Vec<Proc>,
    v: &Vec<Session<String>>,
    ages: &Vec<String>,
    stats: &Vec<(u32, String)>,
    limit: Option<usize>,
) -> (r: Vec<TableRow>)
    requires
        ps@.len() < usize::MAX,
        ages@.len() == v@.len(),
    ensures
        ({
            let o = latest_first(ps@, sessions_of(v@));
            r@.len() == capped(o.len(), limit) && forall|i: int|
                0 <= i < r@.len() ==> session_row(
                    #[trigger] r@[i],
                    ps@,
                    v@[o[i]]@,
                    stats@,
                    ages@[o[i]]@,
                )
        }),
{
    let ghost vs = sessions_of(v@);
    let ghost w = shown_places(ps@, vs, vs.len() as int);
    let mut places: Vec<usize> = Vec::new();
    let mut keys: Vec<i128> = Vec::new();
    for i in 0..v.len()
        invariant
            vs == sessions_of(v@),
            ints(places@) =~= shown_places(ps@, vs, i as int),
            keys@.len() == places@.len(),
            forall|k: int| 0 <= k < places@.len() ==> #[trigger] places@[k] < i,
            forall|k: int|
                0 <= k < places@.len() ==> #[trigger] keys@[k]
                    == -vs[places@[k] as int].login_time,
    {
        assert(vs[i as int] == v@[i as int]@);
        let alive = find_proc(ps, v[i].pid).is_some();
        if alive && (v[i].vouched_ssh || is_ssh_session(ps, v[i].pid)) {
            places.push(i);
            keys.push(-(v[i].login_time as i128));
        }
    }
    let o = stable_order(keys.as_slice());
    proof {
        assert(ints(places@) == w);
        assert(keys@ =~= Seq::new(w.len(), |i: int| (-vs[w[i]].login_time) as i128));
        lemma_sorted(w, keys@, o@);
    }
    let ghost sorted = latest_first(ps@, vs);
    let n: usize = match limit {
        Some(l) => if l < o.len() {
            l
        } else {
            o.len()
        },
        None => o.len(),
    };
    let mut r: Vec<TableRow> = Vec::new();
    for i in 0..n
        invariant
            ps@.len() < usize::MAX,
            ages@.len() == v@.len(),
            n <= o@.len(),
            is_order(keys@, o@),
            keys@.len() == places@.len(),
            forall|k: int| 0 <= k < places@.len() ==> #[trigger] places@[k] < v@.len(),
            w == ints(places@),
            sorted == Seq::new(w.len(), |i: int| w[o@[i] as int]),
            r@.len() == i,
            forall|k: int|
                0 <= k < i ==> session_row(
                    #[trigger] r@[k],
                    ps@,
                    v@[sorted[k]]@,
                    stats@,
                    ages@[sorted[k]]@,
                ),
    {
        let k: usize = places[o[i]];
        assert(sorted[i as int] == k);
        r.push(build_row(ps, &v[k], stats, ages[k].as_str()));
    }
    r
}

/// The last login that is registered for a process.
pub open spec fn last_for(v: Seq<Session<Seq<char>>>, pid: u32, n: int) -> Option<int>
    decreases n,
{
    if n <= 0 {
        None
    } else if v[n - 1].pid == pid {
        Some(n - 1)
    } else {
        last_for(v, pid, n - 1)
    }
}

fn find_last(v: &Vec<Session<String>>, pid: u32) -> (r: Option<usize>)
    ensures
        as_place(r) == last_for(sessions_of(v@), pid, v@.len() as int),
        r is Some ==> r->0 < v@.len(),
{
    let mut n: usize = v.len();
    while n > 0
        invariant
            n <= v@.len(),
            last_for(sessions_of(v@), pid, n as int) == last_for(
                sessions_of(v@),
                pid,
                v@.len() as int,
            ),
        decreases n,
    {
        assert(sessions_of(v@)[n - 1] == v@[n - 1]@);
        if v[n - 1].pid == pid {
            return Some(n - 1);
        }
        n = n - 1;
    }
    None
}

/// Renews rows in place. A session that has ended keeps what it last showed.
pub fn refresh_values(
    ps: &Vec<Proc>,
    v: &Vec<Session<String>>,
    ages: &Vec<String>,
    stats: &Vec<(u32, String)>,
    rows: &mut Vec<TableRow>,
)
    requires
        ps@.len() < usize::MAX,
        ages@.len() == v@.len(),
    ensures
        final(rows)@.len() == old(rows)@.len(),
        forall|i: int|
            0 <= i < old(rows)@.len() ==> (match last_for(
                sessions_of(v@),
                old(rows)@[i].pid,
                v@.len() as int,
            ) {
                Some(k) => session_row(#[trigger] final(rows)@[i], ps@, v@[k]@, stats@, ages@[k]@),
                None => final(rows)@[i] == old(rows)@[i],
            }),
{
    let n: usize = rows.len();
    for i in 0..n
        invariant
            ps@.len() < usize::MAX,
            ages@.len() == v@.len(),
            n == rows@.len(),
            rows@.len() == old(rows)@.len(),
            forall|j: int|
                0 <= j < i ==> (match last_for(
                    sessions_of(v@),
                    old(rows)@[j].pid,
                    v@.len() as int,
                ) {
                    Some(k) => session_row(#[trigger] rows@[j], ps@, v@[k]@, stats@, ages@[k]@),
                    None => rows@[j] == old(rows)@[j],
                }),
            forall|j: int| i <= j < rows@.len() ==> #[trigger] rows@[j] == old(rows)@[j],
    {
        match find_last(v, rows[i].pid) {
            Some(k) => {
                let row = build_row(ps, &v[k], stats, ages[k].as_str());
                rows.set(i, row);
            },
            None => {},
        }
    }
}

// --- the detail ----------------------------------------------------------------------------------------------

/// How many connections are shown where the address alone does not tell which it is.
pub const MAX_CANDIDATES: usize = 4;

/// How many processes of a session are listed.
pub const MAX_SESSION_PROCESSES: usize = 15;

/// Lines with the ends of a socket and what waits on it.
pub open spec fn with_socket(
    f: Seq<(Seq<char>, Seq<char>)>,
    prefix: Seq<char>,
    s: SocketRow<Seq<char>>,
    held: Seq<Held>,
    users: Seq<char>,
) -> Seq<(Seq<char>, Seq<char>)> {
    let f = with_field(f, prefix + "De"@, endpoint_text(s.remote_ip, s.remote_port));
    let f = with_field(
        f,
        prefix + "Para"@,
        endpoint_text(s.local_ip, s.local_port) + " ["@ + s.family.text() + "]"@,
    );
    let f = with_some(
        f,
        prefix + "Interface"@,
        if s.local_ip.len() == 0 || is_wildcard(s.local_ip) {
            None
        } else {
            holder(held, s.local_ip)
        },
    );
    let f = with_field(
        f,
        prefix + "Filas"@,
        human(s.rx_queue as nat) + " a receber · "@ + human(s.tx_queue as nat) + " a enviar"@,
    );
    with_field(
        f,
        prefix + "Dono do socket"@,
        owner_text(s.uid, first_some(lines(users), |l: Seq<char>| user_line(l, s.uid))),
    )
}

fn push_socket(
    section: &mut DetailSection,
    prefix: &str,
    s: &SocketRow<String>,
    held: &Vec<Held>,
    users: &str,
)
    ensures
        final(section)@.title == old(section)@.title,
        final(section)@.fields == with_socket(old(section)@.fields, prefix@, s@, held@, users@),
{
    section.push(cat2(prefix, "De").as_str(), s.remote());
    let near = cat4(s.local().as_str(), " [", s.family.label(), "]");
    section.push(cat2(prefix, "Para").as_str(), near);
    section.push_some(
        cat2(prefix, "Interface").as_str(),
        interface_of(held, s.local_ip.as_str()),
    );
    let queues = cat4(
        human_bytes(s.rx_queue).as_str(),
        " a receber · ",
        human_bytes(s.tx_queue).as_str(),
        " a enviar",
    );
    section.push(cat2(prefix, "Filas").as_str(), queues);
    let owner = owner_label(s.uid, &user_name(users, s.uid));
    section.push(cat2(prefix, "Dono do socket").as_str(), owner);
}

/// A socket that is held by a process and has a far end.
pub open spec fn is_held(s: SocketRow<Seq<char>>, inodes: Seq<u64>) -> bool {
    inodes.contains(s.inode) && s.remote_port != 0
}

/// The first socket of a table that is held and has a far end.
pub open spec fn held_socket(ss: Seq<SocketRow<Seq<char>>>, inodes: Seq<u64>) -> Option<int>
    decreases ss.len(),
{
    if ss.len() == 0 {
        None
    } else {
        match held_socket(ss.drop_last(), inodes) {
            Some(i) => Some(i),
            None => if is_held(ss.last(), inodes) {
                Some(ss.len() - 1)
            } else {
                None
            },
        }
    }
}

/// A connection from an address.
pub open spec fn comes_from(s: SocketRow<Seq<char>>, host: Seq<char>) -> Option<
    SocketRow<Seq<char>>,
> {
    if s.proto == Proto::Tcp && s.state == TCP_ESTABLISHED && s.remote_ip == host {
        Some(s)
    } else {
        None
    }
}

/// Lines with each of the first `n` connections.
pub open spec fn with_candidates(
    f: Seq<(Seq<char>, Seq<char>)>,
    c: Seq<SocketRow<Seq<char>>>,
    n: int,
    held: Seq<Held>,
    users: Seq<char>,
) -> Seq<(Seq<char>, Seq<char>)>
    decreases n,
{
    if n <= 0 {
        f
    } else {
        with_socket(
            with_candidates(f, c, n - 1, held, users),
            "candidata: "@,
            c[n - 1],
            held,
            users,
        )
    }
}

/// The lines about where a login came from: the socket of its server, or the connections from
/// its address. Several are told as what they are, and none of them is passed off as the one.
pub open spec fn connection_lines(
    sshd: Option<u32>,
    host: Seq<char>,
    ss: Seq<SocketRow<Seq<char>>>,
    inodes: Seq<u64>,
    held: Seq<Held>,
    users: Seq<char>,
) -> Seq<(Seq<char>, Seq<char>)> {
    let f = Seq::empty();
    match sshd {
        None => with_field(f, "sshd"@, "não encontrado na ancestralidade desta sessão"@),
        Some(pid) => {
            let f = with_field(f, "Processo sshd"@, decimal(pid as nat));
            let c = picked(ss, |s: SocketRow<Seq<char>>| comes_from(s, host));
            match held_socket(ss, inodes) {
                Some(i) => with_socket(f, Seq::empty(), ss[i], held, users),
                None => if c.len() == 1 {
                    with_socket(f, Seq::empty(), c[0], held, users)
                } else if c.len() > 1 {
                    with_candidates(
                        with_field(
                            f,
                            "Conexões de "@,
                            host + " — "@ + decimal(c.len()) + " abertas, indistinguíveis daqui"@,
                        ),
                        c,
                        at_most(c.len(), MAX_CANDIDATES),
                        held,
                        users,
                    )
                } else {
                    with_field(
                        f,
                        "Socket"@,
                        "não localizado — os descritores do sshd são do root e a sessão não registrou um endereço"@,
                    )
                },
            }
        },
    }
}

fn find_held(table: &Vec<SocketRow<String>>, inodes: &Vec<u64>) -> (r: Option<usize>)
    ensures
        as_place(r) == held_socket(sockets_of(table@), inodes@),
        r is Some ==> r->0 < table@.len(),
{
    let ghost vs = sockets_of(table@);
    let mut r: Option<usize> = None;
    assert(vs.take(0) =~= Seq::empty());
    for i in 0..table.len()
        invariant
            vs == sockets_of(table@),
            as_place(r) == held_socket(vs.take(i as int), inodes@),
            r is Some ==> r->0 < table@.len(),
    {
        assert(vs.take(i + 1).drop_last() =~= vs.take(i as int));
        assert(vs.take(i + 1).last() == table@[i as int]@);
        if r.is_none() && has_inode(inodes, table[i].inode) && table[i].remote_port != 0 {
            r = Some(i);
        }
    }
    assert(vs.take(vs.len() as int) =~= vs);
    r
}

fn list_from<'a>(table: &'a Vec<SocketRow<String>>, host: &str) -> (r: Vec<&'a SocketRow<String>>)
    ensures
        seen(r@) == picked(sockets_of(table@), |s: SocketRow<Seq<char>>| comes_from(s, host@)),
{
    let ghost vs = sockets_of(table@);
    let ghost f = |s: SocketRow<Seq<char>>| comes_from(s, host@);
    let mut r: Vec<&'a SocketRow<String>> = Vec::new();
    proof {
        lemma_pick_ends(vs, f);
        assert(seen(r@) =~= Seq::empty());
    }
    for i in 0..table.len()
        invariant
            vs == sockets_of(table@),
            f == (|s: SocketRow<Seq<char>>| comes_from(s, host@)),
            seen(r@) == picked(vs.take(i as int), f),
    {
        proof {
            lemma_pick(vs, f, i as int);
            assert(vs[i as int] == table@[i as int]@);
        }
        let s = &table[i];
        if s.proto == Proto::Tcp && s.state == TCP_ESTABLISHED && same(s.remote_ip.as_str(), host) {
            let ghost before = seen(r@);
            r.push(s);
            assert(seen(r@) =~= before.push(vs[i as int]));
        }
    }
    r
}

/// Where a login came from, by the inodes of its server's sockets where they can be read.
pub fn connection_section(
    sshd: Option<u32>,
    host: &str,
    table: &Vec<SocketRow<String>>,
    inodes: &Vec<u64>,
    held: &Vec<Held>,
    users: &str,
) -> (r: DetailSection)
    ensures
        r@ == (SectionV {
            title: "Conexão"@,
            fields: connection_lines(
                sshd,
                host@,
                sockets_of(table@),
                inodes@,
                held@,
                users@,
            ),
        }),
{
    let mut s = DetailSection::new("Conexão");
    match sshd {
        None => {
            s.push("sshd", "não encontrado na ancestralidade desta sessão".to_owned());
        },
        Some(pid) => {
            s.push("Processo sshd", dec(pid as u64));
            let ghost f = s@.fields;
            assert(""@ =~= Seq::empty()) by {
                reveal_strlit("");
            }
            match find_held(table, inodes) {
                Some(i) => {
                    push_socket(&mut s, "", &table[i], held, users);
                },
                None => {
                    let c = list_from(table, host);
                    let ghost cs = seen(c@);
                    let n: usize = c.len();
                    assert(cs.len() == n);
                    if n == 1 {
                        assert(cs[0] == c@[0]@);
                        push_socket(&mut s, "", c[0], held, users);
                    } else if n > 1 {
                        let t = cat4(
                            host,
                            " — ",
                            dec(n as u64).as_str(),
                            " abertas, indistinguíveis daqui",
                        );
                        s.push("Conexões de ", t);
                        let ghost g = s@.fields;
                        let top: usize = if n > MAX_CANDIDATES {
                            MAX_CANDIDATES
                        } else {
                            n
                        };
                        for i in 0..top
                            invariant
                                cs == seen(c@),
                                top <= c@.len(),
                                s@.title == "Conexão"@,
                                s@.fields == with_candidates(g, cs, i as int, held@, users@),
                        {
                            assert(cs[i as int] == c@[i as int]@);
                            push_socket(&mut s, "candidata: ", c[i], held, users);
                        }
                    } else {
                        s.push(
                            "Socket",
                            "não localizado — os descritores do sshd são do root e a sessão não registrou um endereço".to_owned(),
                        );
                    }
                },
            }
        },
    }
    s
}

/// The processes of a session that are not threads, among the first `n`.
pub open spec fn listed(ps: Seq<Proc>, pids: Seq<u32>, n: int) -> Seq<int>
    decreases n,
{
    if n <= 0 {
        Seq::empty()
    } else {
        let v = listed(ps, pids, n - 1);
        match place_of(ps, pids[n - 1]) {
            Some(i) => if ps[i].thread {
                v
            } else {
                v.push(i)
            },
            None => v,
        }
    }
}

/// The processes of a session, the most active first.
pub open spec fn ordered_list(ps: Seq<Proc>, pids: Seq<u32>) -> Seq<int> {
    let v = listed(ps, pids, pids.len() as int);
    sorted_by(v, Seq::new(v.len(), |i: int| (-activity(ps[v[i]])) as i128))
}

/// Lines with each of the first `n` processes.
pub open spec fn with_processes(
    f: Seq<(Seq<char>, Seq<char>)>,
    ps: Seq<Proc>,
    v: Seq<int>,
    n: int,
) -> Seq<(Seq<char>, Seq<char>)>
    decreases n,
{
    if n <= 0 {
        f
    } else {
        with_field(
            with_processes(f, ps, v, n - 1),
            decimal(ps[v[n - 1]].pid as nat),
            ps[v[n - 1]].load@ + "  "@ + ps[v[n - 1]].command@,
        )
    }
}

/// The lines about what a session runs.
pub open spec fn process_lines(ps: Seq<Proc>, pids: Seq<u32>) -> Seq<(Seq<char>, Seq<char>)> {
    let v = ordered_list(ps, pids);
    let f = with_field(Seq::empty(), "Total"@, decimal(v.len()));
    let f = with_processes(f, ps, v, at_most(v.len(), MAX_SESSION_PROCESSES));
    if v.len() > MAX_SESSION_PROCESSES {
        with_field(f, "E mais"@, decimal((v.len() - MAX_SESSION_PROCESSES) as nat) + " processo(s)"@)
    } else {
        f
    }
}

/// What a session runs, the most active first.
pub fn processes_section(ps: &Vec<Proc>, subtree: &Vec<u32>) -> (r: DetailSection)
    ensures
        r@ == (SectionV { title: "Processos da sessão"@, fields: process_lines(ps@, subtree@) }),
{
    let ghost all = listed(ps@, subtree@, subtree@.len() as int);
    let mut v: Vec<usize> = Vec::new();
    let mut keys: Vec<i128> = Vec::new();
    for i in 0..subtree.len()
        invariant
            ints(v@) =~= listed(ps@, subtree@, i as int),
            keys@.len() == v@.len(),
            forall|k: int| 0 <= k < v@.len() ==> #[trigger] v@[k] < ps@.len(),
            forall|k: int|
                0 <= k < v@.len() ==> #[trigger] keys@[k] == -activity(ps@[v@[k] as int]),
    {
        match find_proc(ps, subtree[i]) {
            Some(k) => {
                if !ps[k].thread {
                    let m: i128 = measure(&ps[k]);
                    v.push(k);
                    keys.push(-m);
                }
            },
            None => {},
        }
    }
    let o = stable_order(keys.as_slice());
    let ghost sorted = ordered_list(ps@, subtree@);
    proof {
        assert(ints(v@) == all);
        assert(keys@ =~= Seq::new(all.len(), |i: int| (-activity(ps@[all[i]])) as i128));
        lemma_sorted(all, keys@, o@);
    }
    let mut s = DetailSection::new("Processos da sessão");
    let n: usize = o.len();
    s.push("Total", dec(n as u64));
    let ghost f = s@.fields;
    let top: usize = if n > MAX_SESSION_PROCESSES {
        MAX_SESSION_PROCESSES
    } else {
        n
    };
    for i in 0..top
        invariant
            top <= o@.len(),
            is_order(keys@, o@),
            keys@.len() == v@.len(),
            all == ints(v@),
            forall|k: int| 0 <= k < v@.len() ==> #[trigger] v@[k] < ps@.len(),
            sorted == Seq::new(all.len(), |i: int| all[o@[i] as int]),
            s@.title == "Processos da sessão"@,
            s@.fields == with_processes(f, ps@, sorted, i as int),
    {
        let p = &ps[v[o[i]]];
        assert(ps@[sorted[i as int]] == *p);
        let t = cat3(p.load.as_str(), "  ", p.command.as_str());
        s.push(dec(p.pid as u64).as_str(), t);
    }
    if n > MAX_SESSION_PROCESSES {
        s.push("E mais", cat2(dec((n - MAX_SESSION_PROCESSES) as u64).as_str(), " processo(s)"));
    }
    s
}

/// The lines about a session.
pub open spec fn session_lines(
    ps: Seq<Proc>,
    s: Session<Seq<char>>,
    stats: Seq<(u32, String)>,
    age: Seq<char>,
) -> Seq<(Seq<char>, Seq<char>)> {
    let subtree = below(ps, s.pid);
    let n = subtree.len() as int;
    let f = Seq::empty();
    let f = with_field(f, "Usuário"@, s.user);
    let f = with_field(
        f,
        "Origem registrada"@,
        if s.host.len() == 0 {
            "não registrada"@
        } else {
            s.host
        },
    );
    let f = with_field(f, "Terminal"@, tty_text_of(ps, s, subtree, stats));
    let f = with_field(f, "Conectado há"@, age);
    let f = with_field(f, "PID da sessão"@, decimal(s.pid as nat));
    let f = with_field(
        f,
        "Processo registrado"@,
        match place_of(ps, s.pid) {
            Some(i) => ps[i].command@,
            None => "?"@,
        },
    );
    let f = with_some(
        f,
        "Shell"@,
        match shell_of(ps, subtree, n) {
            Some(i) => Some(decimal(ps[i].pid as nat) + " · "@ + ps[i].command@),
            None => None,
        },
    );
    let f = with_field(
        f,
        "Diretório"@,
        folder_text(at(ps, shown_process(ps, s.pid, subtree))),
    );
    with_field(
        f,
        "Comando ativo"@,
        match busiest(ps, subtree, n) {
            Some(i) => ps[i].command@,
            None => "nada além do shell — sessão parada no prompt"@,
        },
    )
}

fn session_section(
    ps: &Vec<Proc>,
    e: &Session<String>,
    subtree: &Vec<u32>,
    tty: &str,
    age: &str,
    Ghost(stats): Ghost<Seq<(u32, String)>>,
) -> (r: DetailSection)
    requires
        subtree@ == below(ps@, e.pid),
        tty@ == tty_text_of(ps@, e@, subtree@, stats),
    ensures
        r@ == (SectionV { title: "Sessão"@, fields: session_lines(ps@, e@, stats, age@) }),
{
    let mut s = DetailSection::new("Sessão");
    s.push("Usuário", e.user.clone());
    let host = if e.host.as_str().is_empty() {
        "não registrada".to_owned()
    } else {
        e.host.clone()
    };
    s.push("Origem registrada", host);
    s.push("Terminal", tty.to_owned());
    s.push("Conectado há", age.to_owned());
    s.push("PID da sessão", dec(e.pid as u64));
    let registered = match find_proc(ps, e.pid) {
        Some(i) => ps[i].command.clone(),
        None => "?".to_owned(),
    };
    s.push("Processo registrado", registered);
    match login_shell(ps, subtree) {
        Some(i) => {
            let t = cat3(dec(ps[i].pid as u64).as_str(), " · ", ps[i].command.as_str());
            s.push("Shell", t);
        },
        None => {},
    }
    s.push("Diretório", write_folder(ps, find_shown(ps, e.pid, subtree)));
    let doing = match most_active(ps, subtree) {
        Some(i) => ps[i].command.clone(),
        None => "nada além do shell — sessão parada no prompt".to_owned(),
    };
    s.push("Comando ativo", doing);
    s
}

/// What is read about a session only while its detail is open.
#[derive(Debug)]
pub struct Around {
    /// The status lines of its processes.
    pub stats: Vec<(u32, String)>,
    pub table: Vec<SocketRow<String>>,
    /// The inodes of the sockets of its server.
    pub inodes: Vec<u64>,
    pub held: Vec<Held>,
    /// The list of users.
    pub users: String,
}

/// All that is known about a session.
pub fn build_detail(ps: &Vec<Proc>, e: &Session<String>, x: &Around, age: &str) -> (r: Detail)
    requires
        ps@.len() < usize::MAX,
    ensures
        r.title@ == e.user@ + "@"@ + tty_text_of(ps@, e@, below(ps@, e.pid), x.stats@) + " · "@
            + e.host@,
        r.gone_note@ == "desconectada"@,
        sections_of(r.sections@) == seq![
            SectionV { title: "Sessão"@, fields: session_lines(ps@, e@, x.stats@, age@) },
            SectionV {
                title: "Conexão"@,
                fields: connection_lines(
                    sshd_of(ps@, e.pid),
                    e.host@,
                    sockets_of(x.table@),
                    x.inodes@,
                    x.held@,
                    x.users@,
                ),
            },
            SectionV {
                title: "Processos da sessão"@,
                fields: process_lines(ps@, below(ps@, e.pid)),
            },
        ],
        r.rates is None,
        r.handoffs@.len() == 0,
        r.handoff_title@ == ""@,
{
    let subtree = subtree_pids(ps, e.pid);
    let tty = tty_of(ps, e, &subtree, &x.stats);
    let sshd = sshd_ancestor(ps, e.pid);
    let mut sections: Vec<DetailSection> = Vec::new();
    sections.push(session_section(ps, e, &subtree, tty.as_str(), age, Ghost(x.stats@)));
    sections.push(
        connection_section(
            sshd,
            e.host.as_str(),
            &x.table,
            &x.inodes,
            &x.held,
            x.users.as_str(),
        ),
    );
    sections.push(processes_section(ps, &subtree));
    assert(sections_of(sections@) =~= seq![
        SectionV { title: "Sessão"@, fields: session_lines(ps@, e@, x.stats@, age@) },
        SectionV {
            title: "Conexão"@,
            fields: connection_lines(
                sshd_of(ps@, e.pid),
                e.host@,
                sockets_of(x.table@),
                x.inodes@,
                x.held@,
                x.users@,
            ),
        },
        SectionV { title: "Processos da sessão"@, fields: process_lines(ps@, below(ps@, e.pid)) },
    ]);
    Detail {
        title: cat5(e.user.as_str(), "@", tty.as_str(), " · ", e.host.as_str()),
        gone_note: "desconectada",
        sections,
        rates: None,
        handoffs: Vec::new(),
        handoff_title: "",
    }
}

/// The place of the first login that is registered for a process.
pub open spec fn first_for(v: Seq<Session<Seq<char>>>, pid: u32) -> Option<int>
    decreases v.len(),
{
    if v.len() == 0 {
        None
    } else {
        match first_for(v.drop_last(), pid) {
            Some(i) => Some(i),
            None => if v.last().pid == pid {
                Some(v.len() - 1)
            } else {
                None
            },
        }
    }
}

/// The login that a row is of.
pub fn find_session(v: &Vec<Session<String>>, pid: u32) -> (r: Option<usize>)
    ensures
        as_place(r) == first_for(sessions_of(v@), pid),
        r is Some ==> r->0 < v@.len(),
{
    let ghost vs = sessions_of(v@);
    let mut r: Option<usize> = None;
    assert(vs.take(0) =~= Seq::empty());
    for i in 0..v.len()
        invariant
            vs == sessions_of(v@),
            as_place(r) == first_for(vs.take(i as int), pid),
            r is Some ==> r->0 < v@.len(),
    {
        assert(vs.take(i + 1).drop_last() =~= vs.take(i as int));
        assert(vs.take(i + 1).last() == v@[i as int]@);
        if r.is_none() && v[i].pid == pid {
            r = Some(i);
        }
    }
    assert(vs.take(vs.len() as int) =~= vs);
    r
}

/// What is said of any session that is ended.
pub const CAI_TUDO: &'static str =
    "Morre o shell, tudo que a sessão estiver rodando e o sshd que segura a conexão — trabalho não salvo se perde.";

/// A cell of a row, empty where there is none.
pub open spec fn cell_or_empty(cells: Seq<Seq<char>>, i: int) -> Seq<char> {
    if i < cells.len() {
        cells[i]
    } else {
        Seq::empty()
    }
}

fn cell_of(row: &TableRow, i: usize) -> (r: String)
    ensures
        r@ == cell_or_empty(views(row.cells@), i as int),
{
    assert(views(row.cells@).len() == row.cells@.len());
    if i < row.cells.len() {
        row.cells[i].clone()
    } else {
        let r = String::new();
        assert(r@ =~= Seq::empty());
        r
    }
}

/// What ending a session would do: whose it is, and what they lose.
pub fn danger(ps: &Vec<Proc>, row: &TableRow) -> (r: Option<Danger>)
    ensures
        ({
            let c = views(row.cells@);
            match r {
                None => place_of(ps@, row.pid) is None,
                Some(d) => place_of(ps@, row.pid) is Some && d.action@ == "desconectar sessão"@
                    && d.title@ == "Desconectar a sessão de "@ + cell_or_empty(c, 0) + " em "@
                    + cell_or_empty(c, 2) + ": "@ + ps@[place_of(ps@, row.pid)->0].name@
                    + " (pid "@ + decimal(row.pid as nat) + ")?"@ && views(d.lines@)
                    == danger_lines(
                    seq![
                        "A conexão vinda de "@ + cell_or_empty(c, 1)
                            + " cai na hora, sem aviso do outro lado."@,
                        CAI_TUDO@,
                    ],
                    ps@[place_of(ps@, row.pid)->0].command@,
                    victims(ps@, row.descendant_pids@),
                ),
            }
        }),
{
    let user = cell_of(row, 0);
    let tty = cell_of(row, 2);
    let from = cell_of(row, 1);
    let subject = cat4("Desconectar a sessão de ", user.as_str(), " em ", tty.as_str());
    let mut extra: Vec<String> = Vec::new();
    extra.push(
        cat3("A conexão vinda de ", from.as_str(), " cai na hora, sem aviso do outro lado."),
    );
    extra.push(CAI_TUDO.to_owned());
    assert(views(extra@) =~= seq![
        "A conexão vinda de "@ + from@ + " cai na hora, sem aviso do outro lado."@,
        CAI_TUDO@,
    ]);
    kill_danger(ps, row, "desconectar sessão", subject.as_str(), extra)
}

/// What stands before a nul byte is the text, whatever follows.
pub proof fn lemma_text_before_nul(t: Seq<u8>, rest: Seq<u8>)
    requires
        forall|i: int| 0 <= i < t.len() ==> #[trigger] t[i] != 0,
    ensures
        until_nul(t + seq![0u8] + rest) == t,
        until_nul(t) == t,
    decreases t.len(),
{
    let s = t + seq![0u8] + rest;
    if t.len() > 0 {
        let u = t.skip(1);
        assert forall|i: int| 0 <= i < u.len() implies #[trigger] u[i] != 0 by {
            assert(u[i] == t[i + 1]);
        }
        lemma_text_before_nul(u, rest);
        assert(s.skip(1) =~= u + seq![0u8] + rest);
        assert(seq![t[0]] + u =~= t);
    } else {
        assert(until_nul(s) =~= t);
        assert(until_nul(t) =~= t);
    }
}

/// A record as the system lays it out: what kind it is, the process, the terminal, a short name,
/// the user, the host, how it ended, its session, and when it began. One of a user's login says
/// these; another says nothing.
pub proof fn lemma_record(
    kind: u16,
    pad: Seq<u8>,
    pid: u32,
    line: Seq<u8>,
    id: Seq<u8>,
    user: Seq<u8>,
    host: Seq<u8>,
    exit: Seq<u8>,
    session: Seq<u8>,
    time: u32,
    rest: Seq<u8>,
    e: Endian,
)
    requires
        pad.len() == 2,
        line.len() == 32,
        id.len() == 4,
        user.len() == 32,
        host.len() == 256,
        exit.len() == 4,
        session.len() == 4,
        rest.len() == 40,
        0 < pid <= i32::MAX,
        time <= i32::MAX,
    ensures
        ({
            let r = record_in(
                bytes16(kind, e) + pad + bytes32(pid, e) + line + id + user + host + exit + session
                    + bytes32(time, e) + rest,
                e,
            );
            &&& kind != 7 ==> r is None
            &&& kind == 7 ==> r == Some(
                Session {
                    pid,
                    line: lossy_text(until_nul(line)),
                    user: lossy_text(until_nul(user)),
                    host: lossy_text(until_nul(host)),
                    login_time: time as u64,
                    vouched_ssh: false,
                },
            )
        }),
{
    let rec = bytes16(kind, e) + pad + bytes32(pid, e) + line + id + user + host + exit + session
        + bytes32(time, e) + rest;
    lemma_reads_back(pid, kind, e);
    lemma_reads_back(time, kind, e);
    assert(rec.len() == 384);
    assert(rec.subrange(0, 2) =~= bytes16(kind, e));
    assert(rec.subrange(4, 8) =~= bytes32(pid, e));
    assert(rec.subrange(8, 40) =~= line);
    assert(rec.subrange(44, 76) =~= user);
    assert(rec.subrange(76, 332) =~= host);
    assert(rec.subrange(340, 344) =~= bytes32(time, e));
}

/// The records of a file are its stretches of one size, one after the other.
pub proof fn lemma_records(first: Seq<u8>, rest: Seq<u8>)
    requires
        first.len() == 384,
    ensures
        records(first + rest) == seq![first] + records(rest),
{
    let data = first + rest;
    let a = records(data);
    let b = seq![first] + records(rest);
    assert((384 + rest.len()) / 384 == 1 + rest.len() / 384);
    assert(a.len() == b.len());
    assert forall|i: int| 0 <= i < a.len() implies a[i] == b[i] by {
        if i == 0 {
            assert(data.subrange(0, 384) =~= first);
        } else {
            assert(i * 384 == 384 + (i - 1) * 384);
            assert((i - 1) * 384 + 384 <= rest.len());
            assert(data.subrange(i * 384, i * 384 + 384) =~= rest.subrange(
                (i - 1) * 384,
                (i - 1) * 384 + 384,
            ));
        }
    }
    assert(a =~= b);
}

/// The number of a terminal, made of its two halves as the kernel makes it, gives its name: the
/// terminals of windows go on from one major number to the next.
pub proof fn lemma_tty_text(major: nat, minor: nat)
    requires
        major < 4096,
        minor < 0x10_0000,
        minor / 256 < 4096,
    ensures
        ({
            let n = (minor % 256 + 256 * major + 0x10_0000 * (minor / 256)) as u32;
            &&& 136 <= major <= 143 ==> tty_text(n) == Some(
                "pts/"@ + decimal((256 * (major - 136) + minor) as nat),
            )
            &&& major == 4 && 0 < minor < 64 ==> tty_text(n) == Some("tty"@ + decimal(minor))
            &&& major == 4 && minor >= 64 ==> tty_text(n) == Some(
                "ttyS"@ + decimal((minor - 64) as nat),
            )
        }),
{
    let n = minor % 256 + 256 * major + 0x10_0000 * (minor / 256);
    assert(n <= u32::MAX);
    assert(n / 256 == major + 4096 * (minor / 256));
    assert(n % 256 == minor % 256);
    assert(n / 0x10_0000 == minor / 256);
    assert((n / 256) % 4096 == major);
    assert(n % 256 + 256 * (n / 0x10_0000) == minor);
}

/// Of the living among some pids, none is more active than the one that is shown.
pub proof fn lemma_busiest(ps: Seq<Proc>, pids: Seq<u32>, n: int)
    requires
        0 <= n <= pids.len(),
    ensures
        (match busiest(ps, pids, n) {
            Some(b) => (exists|k: int|
                0 <= k < n && place_of(ps, #[trigger] pids[k]) == Some(b)) && forall|k: int|
                0 <= k < n && place_of(ps, #[trigger] pids[k]) is Some ==> activity(
                    ps[place_of(ps, pids[k])->0],
                ) <= activity(ps[b]),
            None => forall|k: int| 0 <= k < n ==> place_of(ps, #[trigger] pids[k]) is None,
        }),
    decreases n,
{
    if n > 0 {
        lemma_busiest(ps, pids, n - 1);
        match busiest(ps, pids, n) {
            Some(b) => {
                if place_of(ps, pids[n - 1]) != Some(b) {
                    let k = choose|k: int|
                        0 <= k < n - 1 && place_of(ps, #[trigger] pids[k]) == Some(b);
                    assert(place_of(ps, pids[k]) == Some(b));
                }
            },
            None => {},
        }
    }
}

/// What a process uses counts for more than when it started: of two with one load the later is
/// the more active.
pub proof fn lemma_activity(a: Proc, b: Proc)
    ensures
        a.cpu > b.cpu ==> activity(a) > activity(b),
        a.cpu == b.cpu ==> (activity(a) > activity(b) <==> a.start > b.start),
{
}

proof fn lemma_shown_places(ps: Seq<Proc>, v: Seq<Session<Seq<char>>>, n: int)
    requires
        0 <= n <= v.len(),
    ensures
        shown_places(ps, v, n).len() <= n,
        forall|x: int| #[trigger]
            shown_places(ps, v, n).contains(x) <==> 0 <= x < n && is_shown(ps, v[x]),
        shown_places(ps, v, n).no_duplicates(),
    decreases n,
{
    let r = shown_places(ps, v, n);
    if n > 0 {
        lemma_shown_places(ps, v, n - 1);
        let w = shown_places(ps, v, n - 1);
        assert(!w.contains(n - 1));
        assert forall|x: int| #[trigger] r.contains(x) <==> 0 <= x < n && is_shown(ps, v[x]) by {
            if r.contains(x) && x != n - 1 {
                let i = choose|i: int| 0 <= i < r.len() && r[i] == x;
                assert(w[i] == x);
                assert(w.contains(x));
            }
            if r.contains(n - 1) && !is_shown(ps, v[n - 1]) {
                assert(w.contains(n - 1));
            }
            if 0 <= x < n - 1 && is_shown(ps, v[x]) {
                assert(w.contains(x));
                let i = choose|i: int| 0 <= i < w.len() && w[i] == x;
                assert(r[i] == x);
            }
            if x == n - 1 && is_shown(ps, v[x]) {
                assert(r[r.len() - 1] == x);
            }
        }
        assert forall|i: int, j: int| 0 <= i < r.len() && 0 <= j < r.len() && i != j implies r[i]
            != r[j] by {
            if i < w.len() {
                assert(w.contains(w[i]));
            }
            if j < w.len() {
                assert(w.contains(w[j]));
            }
        }
    } else {
        assert forall|x: int| #[trigger] r.contains(x) <==> 0 <= x < n && is_shown(ps, v[x]) by {}
    }
}

/// The sessions that are shown: those whose process lives and that came over SSH, each once, the
/// latest first.
pub proof fn lemma_latest_first(ps: Seq<Proc>, v: Seq<Session<Seq<char>>>)
    requires
        v.len() <= usize::MAX,
    ensures
        forall|x: int| #[trigger]
            latest_first(ps, v).contains(x) <==> 0 <= x < v.len() && is_shown(ps, v[x]),
        forall|i: int, j: int|
            0 <= i < j < latest_first(ps, v).len() ==> v[#[trigger] latest_first(
                ps,
                v,
            )[i]].login_time >= v[#[trigger] latest_first(ps, v)[j]].login_time,
{
    let w = shown_places(ps, v, v.len() as int);
    lemma_shown_places(ps, v, v.len() as int);
    let keys = Seq::new(w.len(), |i: int| (-v[w[i]].login_time) as i128);
    let o = lemma_sorted_from(w, keys);
    lemma_sorted_members(w, keys);
    let r = latest_first(ps, v);
    assert forall|x: int| #[trigger] r.contains(x) <==> 0 <= x < v.len() && is_shown(ps, v[x]) by {
        assert(w.contains(x) <==> r.contains(x));
    }
    assert forall|i: int, j: int| 0 <= i < j < r.len() implies v[#[trigger] r[i]].login_time
        >= v[#[trigger] r[j]].login_time by {
        assert(keys[o[i]] <= keys[o[j]]);
        assert(r[i] == w[o[i]] && r[j] == w[o[j]]);
    }
}

/// The socket of a session's server is the first that it holds and that has a far end.
pub proof fn lemma_held_socket(ss: Seq<SocketRow<Seq<char>>>, inodes: Seq<u64>)
    ensures
        (match held_socket(ss, inodes) {
            Some(k) => 0 <= k < ss.len() && inodes.contains(ss[k].inode) && ss[k].remote_port != 0
                && forall|j: int|
                0 <= j < k ==> !(inodes.contains((#[trigger] ss[j]).inode) && ss[j].remote_port
                    != 0),
            None => forall|j: int|
                0 <= j < ss.len() ==> !(inodes.contains((#[trigger] ss[j]).inode)
                    && ss[j].remote_port != 0),
        }),
    decreases ss.len(),
{
    if ss.len() > 0 {
        let t = ss.drop_last();
        lemma_held_socket(t, inodes);
        assert forall|j: int| 0 <= j < t.len() implies #[trigger] ss[j] == t[j] by {}
    }
}

/// A session comes from the far end of its connection, and goes to the near one.
pub proof fn lemma_with_socket(s: SocketRow<Seq<char>>, held: Seq<Held>, users: Seq<char>)
    ensures
        ({
            let none = Seq::<char>::empty();
            let f = with_socket(Seq::empty(), none, s, held, users);
            &&& f.len() >= 2
            &&& f[0] == ("De"@, endpoint_text(s.remote_ip, s.remote_port))
            &&& f[1] == (
                "Para"@,
                endpoint_text(s.local_ip, s.local_port) + " ["@ + s.family.text() + "]"@,
            )
        }),
{
    let none = Seq::<char>::empty();
    assert(none + "De"@ =~= "De"@);
    assert(none + "Para"@ =~= "Para"@);
    crate::monitor::ports::lemma_endpoint_text(s.remote_ip, s.remote_port);
    crate::monitor::ports::lemma_endpoint_text(s.local_ip, s.local_port);
    lemma_decimal_reads_back(s.remote_port as nat);
    lemma_decimal_reads_back(s.local_port as nat);
    assert(endpoint_text(s.remote_ip, s.remote_port).len() > 0);
    assert(endpoint_text(s.local_ip, s.local_port).len() > 0);
}

/// A login that the system's own files tell of: one of a user, over SSH, at the second that its
/// microseconds fall in.
pub proof fn lemma_login_in(content: Seq<char>)
    requires
        login_in(content) is Some,
    ensures
        ({
            let s = login_in(content)->0;
            let f = assignments(content);
            &&& s.vouched_ssh
            &&& under(f, "CLASS"@) == Some("user"@)
            &&& under(f, "SERVICE"@) == Some("sshd"@) || under(f, "SERVICE"@) == Some("ssh"@)
            &&& under(f, "USER"@) == Some(s.user)
            &&& under(f, "TTY"@) is Some ==> under(f, "TTY"@) == Some(s.line)
            &&& under(f, "REMOTE_HOST"@) is Some ==> under(f, "REMOTE_HOST"@) == Some(s.host)
            &&& under(f, "LEADER"@) is Some && natural(under(f, "LEADER"@)->0) == Some(s.pid as nat)
            &&& under(f, "REALTIME"@) is Some && natural(under(f, "REALTIME"@)->0) is Some
            &&& s.login_time * 1_000_000 <= natural(under(f, "REALTIME"@)->0)->0
            &&& natural(under(f, "REALTIME"@)->0)->0 < s.login_time * 1_000_000 + 1_000_000
        }),
{
}

} // verus!
