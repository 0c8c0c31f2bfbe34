//! The network namespaces of this machine besides its own: which there are, and what to call
//! them.

use vstd::prelude::*;
use crate::number::{all_hex, dec, decimal, lemma_decimal_reads_back, natural, parse_upto, within};
use crate::order::{
    is_order, lemma_ranks, lemma_sorted, lemma_sorted_from, lemma_sorted_members, ranks, sorted_by,
    stable_order, text_ranks,
};
use crate::text::{
    after_last, begins, behind_last, cat2, cat4, chars_of, lines, maybe, past, same, split_lines,
    strip_end, strip_prefix, strip_start, strip_suffix, stripped_end, stripped_start, text_before,
    text_of, trim, trim_start_of, trimmed, trimmed_start, upto, views, Cut,
};

verus! {

/// How many processes are looked at in one walk.
pub const MAX_PIDS: usize = 8192;

/// A namespace: its identity, what to call it, and a process inside it.
#[derive(Debug)]
pub struct Namespace<T> {
    pub id: u64,
    pub label: T,
    pub pid: u32,
}

impl View for Namespace<String> {
    type V = Namespace<Seq<char>>;

    open spec fn view(&self) -> Namespace<Seq<char>> {
        Namespace { id: self.id, label: self.label@, pid: self.pid }
    }
}

impl Clone for Namespace<String> {
    fn clone(&self) -> (r: Namespace<String>)
        ensures
            r@ == self@,
    {
        Namespace { id: self.id, label: self.label.clone(), pid: self.pid }
    }
}

/// The identity in the name of a namespace, `net:[4026532448]`.
pub open spec fn inode_in(target: Seq<char>) -> Option<nat> {
    match past(target, "net:["@) {
        None => None,
        Some(a) => match upto(a, "]"@) {
            None => None,
            Some(b) => within(natural(b), u64::MAX as nat),
        },
    }
}

/// Reads the identity in the name of a namespace.
pub fn inode_of(target: &str) -> (r: Option<u64>)
    ensures
        crate::number::as_nat(r) == inode_in(target@),
{
    match strip_prefix(target, "net:[") {
        None => None,
        Some(a) => match strip_suffix(a.as_str(), "]") {
            None => None,
            Some(b) => parse_upto(b.as_str(), u64::MAX),
        },
    }
}

/// The container id in the control group of a process: the last element of the path on the
/// first line, without what a runtime puts around it, when it is an id.
pub open spec fn container_in(cgroup: Seq<char>) -> Option<Seq<char>> {
    let ls = lines(cgroup);
    if ls.len() == 0 {
        None
    } else {
        let last = behind_last(behind_last(ls[0], ':'), '/');
        let id = stripped_start(
            stripped_start(
                stripped_start(stripped_end(last, ".scope"@), "docker-"@),
                "libpod-"@,
            ),
            "crio-"@,
        );
        if id.len() >= 12 && all_hex(id) {
            Some(id)
        } else {
            None
        }
    }
}

/// Whether every character is a hexadecimal digit.
fn is_all_hex(v: &[char]) -> (r: bool)
    ensures
        r == all_hex(v@),
{
    for i in 0..v.len()
        invariant
            forall|j: int| 0 <= j < i ==> crate::text::is_hex(#[trigger] v@[j]),
    {
        let c = v[i];
        if !(('0' <= c && c <= '9') || ('a' <= c && c <= 'f') || ('A' <= c && c <= 'F')) {
            return false;
        }
    }
    v.len() > 0
}

/// Reads the container id in the control group of a process.
pub fn container_id(cgroup: &str) -> (r: Option<String>)
    ensures
        maybe(r) == container_in(cgroup@),
{
    let ls = split_lines(cgroup);
    assert(views(ls@).len() == ls@.len());
    if ls.len() == 0 {
        return None;
    }
    assert(views(ls@)[0] == ls@[0]@);
    let path = after_last(ls[0].as_str(), ':');
    let last = after_last(path.as_str(), '/');
    let a = strip_end(last.as_str(), ".scope");
    let b = strip_start(a.as_str(), "docker-");
    let c = strip_start(b.as_str(), "libpod-");
    let id = strip_start(c.as_str(), "crio-");
    let v = chars_of(id.as_str());
    if v.len() >= 12 && is_all_hex(v.as_slice()) {
        Some(id)
    } else {
        None
    }
}

/// The text of a member of a JSON object, where it has one.
pub uninterp spec fn json_member(text: Seq<char>, name: Seq<char>) -> Option<Seq<char>>;

/// Reads a member of a JSON object.
///
/// `serde_json::from_str` into a `serde_json::Value`, `Value::get` and `Value::as_str`: nothing
/// for a text that is not JSON, an object without such a member, or a member that is no text.
/// Claimed is only that the result is one of the text and the name alone.
#[verifier::external_body]
fn read_member(text: &str, name: &str) -> (r: Option<String>)
    ensures
        maybe(r) == json_member(text@, name@),
{
    let value: serde_json::Value = serde_json::from_str(text).ok()?;
    value.get(name)?.as_str().map(String::from)
}

/// The name of a container as its state keeps it: with a slash in front, which nothing else
/// ever shows.
pub open spec fn shown_name(name: Option<Seq<char>>) -> Option<Seq<char>> {
    match name {
        None => None,
        Some(n) => {
            let t = trimmed(trimmed_start(n, Cut::At('/')));
            if t.len() > 0 {
                Some(t)
            } else {
                None
            }
        },
    }
}

/// The name of a container, out of what its state says.
pub fn show_name(name: &Option<String>) -> (r: Option<String>)
    ensures
        maybe(r) == shown_name(maybe(*name)),
{
    match name {
        None => None,
        Some(n) => {
            let t = trim_start_of(n.as_str(), Cut::At('/'));
            let t = trim(t.as_str());
            if t.as_str().is_empty() {
                None
            } else {
                Some(t)
            }
        },
    }
}

/// The name that the first of several state files gives.
pub open spec fn first_name(texts: Seq<Seq<char>>) -> Option<Seq<char>>
    decreases texts.len(),
{
    if texts.len() == 0 {
        None
    } else {
        match shown_name(json_member(texts[0], "Name"@)) {
            Some(n) => Some(n),
            None => first_name(texts.skip(1)),
        }
    }
}

/// The name of a container, out of the state files that could be read.
pub fn container_name(texts: &Vec<String>) -> (r: Option<String>)
    ensures
        maybe(r) == first_name(views(texts@)),
{
    let ghost vs = views(texts@);
    assert(vs.skip(0) =~= vs);
    for i in 0..texts.len()
        invariant
            vs == views(texts@),
            first_name(vs.skip(i as int)) == first_name(vs),
    {
        assert(vs.skip(i as int)[0] == vs[i as int]);
        assert(vs.skip(i as int).skip(1) =~= vs.skip(i + 1));
        let name = read_member(texts[i].as_str(), "Name");
        match show_name(&name) {
            Some(n) => {
                return Some(n);
            },
            None => {},
        }
    }
    None
}

/// The best name for the namespace of a process: the container's, else its short id, else its
/// host's name, else the process', else its number.
pub open spec fn best_label(
    id: Option<Seq<char>>,
    name: Option<Seq<char>>,
    hostname: Option<Seq<char>>,
    comm: Option<Seq<char>>,
    pid: u32,
) -> Seq<char> {
    match id {
        Some(i) => match name {
            Some(n) => n,
            None => if i.len() <= 12 {
                i
            } else {
                i.take(12)
            },
        },
        None => if hostname is Some && trimmed(hostname->0).len() > 0 {
            trimmed(hostname->0)
        } else if comm is Some && trimmed(comm->0).len() > 0 {
            trimmed(comm->0)
        } else {
            "pid "@ + decimal(pid as nat)
        },
    }
}

/// Whether an optional text is more than blank, and what it is then.
fn not_blank(t: &Option<String>) -> (r: Option<String>)
    ensures
        maybe(r) == (match maybe(*t) {
            Some(s) => if trimmed(s).len() > 0 {
                Some(trimmed(s))
            } else {
                None
            },
            None => None,
        }),
{
    match t {
        Some(s) => {
            let x = trim(s.as_str());
            if x.as_str().is_empty() {
                None
            } else {
                Some(x)
            }
        },
        None => None,
    }
}

/// The best name for the namespace of a process.
pub fn label_for(
    id: &Option<String>,
    name: Option<String>,
    hostname: &Option<String>,
    comm: &Option<String>,
    pid: u32,
) -> (r: String)
    ensures
        r@ == best_label(maybe(*id), maybe(name), maybe(*hostname), maybe(*comm), pid),
{
    match id {
        Some(i) => match name {
            Some(n) => n,
            None => {
                let v = chars_of(i.as_str());
                if v.len() <= 12 {
                    i.clone()
                } else {
                    let s = vstd::slice::slice_subrange(v.as_slice(), 0, 12);
                    assert(s@ =~= i@.take(12));
                    text_of(s)
                }
            },
        },
        None => match not_blank(hostname) {
            Some(h) => h,
            None => match not_blank(comm) {
                Some(c) => c,
                None => cat2("pid ", dec(pid as u64).as_str()),
            },
        },
    }
}

// --- the walk --------------------------------------------------------------------------------------

/// What a process showed of its namespace.
#[derive(Debug)]
pub enum Seen {
    /// Its namespace cannot be read; it may be in a container.
    Closed { container: Option<String> },
    /// It is in the namespace of this program.
    Own,
    /// It is in another, which can be read.
    Open(Namespace<String>),
    /// It is in another, which cannot be named or read.
    Other,
}

/// The namespaces that can be read, each with the first process seen in it.
pub open spec fn found(seen: Seq<Seen>) -> Seq<Namespace<Seq<char>>>
    decreases seen.len(),
{
    if seen.len() == 0 {
        Seq::empty()
    } else {
        let f = found(seen.drop_last());
        match seen.last() {
            Seen::Open(n) => if has_id(f, n.id) {
                f
            } else {
                f.push(n@)
            },
            _ => f,
        }
    }
}

/// A namespace is in a list.
pub open spec fn has_id(v: Seq<Namespace<Seq<char>>>, id: u64) -> bool {
    exists|i: int| 0 <= i < v.len() && (#[trigger] v[i]).id == id
}

/// The containers that could not be looked into, each once.
pub open spec fn closed(seen: Seq<Seen>) -> Seq<Seq<char>>
    decreases seen.len(),
{
    if seen.len() == 0 {
        Seq::empty()
    } else {
        let c = closed(seen.drop_last());
        match seen.last() {
            Seen::Closed { container: Some(id) } => if c.contains(id@) {
                c
            } else {
                c.push(id@)
            },
            _ => c,
        }
    }
}

/// Namespaces in a stable order: by name, then by identity.
pub open spec fn in_order(v: Seq<Namespace<Seq<char>>>) -> Seq<Namespace<Seq<char>>> {
    let by_id = sorted_by(v, Seq::new(v.len(), |i: int| v[i].id as i128));
    sorted_by(by_id, ranks(Seq::new(by_id.len(), |i: int| by_id[i].label)))
}

/// Namespaces, in contracts.
pub open spec fn spaces_of(v: Seq<Namespace<String>>) -> Seq<Namespace<Seq<char>>> {
    Seq::new(v.len(), |i: int| v[i]@)
}

fn knows_id(v: &Vec<Namespace<String>>, id: u64) -> (r: bool)
    ensures
        r == has_id(spaces_of(v@), id),
{
    for i in 0..v.len()
        invariant
            forall|j: int| 0 <= j < i ==> (#[trigger] spaces_of(v@)[j]).id != id,
    {
        if v[i].id == id {
            assert(spaces_of(v@)[i as int].id == id);
            return true;
        }
    }
    false
}

fn knows_text(v: &Vec<String>, t: &str) -> (r: bool)
    ensures
        r == views(v@).contains(t@),
{
    for i in 0..v.len()
        invariant
            forall|j: int| 0 <= j < i ==> #[trigger] views(v@)[j] != t@,
    {
        assert(views(v@)[i as int] == v@[i as int]@);
        if same(v[i].as_str(), t) {
            return true;
        }
    }
    false
}

/// Puts namespaces in the order of their identities.
fn order_by_id(v: &Vec<Namespace<String>>) -> (r: Vec<Namespace<String>>)
    ensures
        ({
            let s = spaces_of(v@);
            spaces_of(r@) == sorted_by(s, Seq::new(s.len(), |i: int| s[i].id as i128))
        }),
{
    let ghost s = spaces_of(v@);
    let mut keys: Vec<i128> = Vec::new();
    for i in 0..v.len()
        invariant
            s == spaces_of(v@),
            keys@ =~= Seq::new(i as nat, |k: int| s[k].id as i128),
    {
        keys.push(v[i].id as i128);
    }
    let o = stable_order(keys.as_slice());
    proof {
        assert(keys@ =~= Seq::new(s.len(), |i: int| s[i].id as i128));
        lemma_sorted(s, keys@, o@);
    }
    let mut r: Vec<Namespace<String>> = Vec::new();
    for i in 0..o.len()
        invariant
            is_order(keys@, o@),
            keys@.len() == v@.len(),
            s == spaces_of(v@),
            spaces_of(r@) =~= Seq::new(i as nat, |k: int| s[o@[k] as int]),
    {
        let ghost before = spaces_of(r@);
        r.push(v[o[i]].clone());
        assert(spaces_of(r@) =~= before.push(s[o@[i as int] as int]));
    }
    assert(spaces_of(r@) =~= sorted_by(s, keys@));
    r
}

/// Puts namespaces in the order of their names.
fn order_by_label(v: &Vec<Namespace<String>>) -> (r: Vec<Namespace<String>>)
    ensures
        ({
            let s = spaces_of(v@);
            spaces_of(r@) == sorted_by(s, ranks(Seq::new(s.len(), |i: int| s[i].label)))
        }),
{
    let ghost s = spaces_of(v@);
    let mut labels: Vec<String> = Vec::new();
    for i in 0..v.len()
        invariant
            s == spaces_of(v@),
            views(labels@) =~= Seq::new(i as nat, |k: int| s[k].label),
    {
        let ghost before = labels@;
        labels.push(v[i].label.clone());
        assert(views(labels@) =~= views(before).push(s[i as int].label));
    }
    assert(views(labels@) =~= Seq::new(s.len(), |i: int| s[i].label));
    let keys = text_ranks(&labels);
    let o = stable_order(keys.as_slice());
    proof {
        lemma_sorted(s, keys@, o@);
    }
    let mut r: Vec<Namespace<String>> = Vec::new();
    for i in 0..o.len()
        invariant
            is_order(keys@, o@),
            keys@.len() == v@.len(),
            s == spaces_of(v@),
            spaces_of(r@) =~= Seq::new(i as nat, |k: int| s[o@[k] as int]),
    {
        let ghost before = spaces_of(r@);
        r.push(v[o[i]].clone());
        assert(spaces_of(r@) =~= before.push(s[o@[i as int] as int]));
    }
    assert(spaces_of(r@) =~= sorted_by(s, keys@));
    r
}

/// Every namespace besides our own, with a process in each, and how many containers could not
/// be looked into: a count of what is missing tells an incomplete answer from a wrong one.
pub fn namespaces(seen: &Vec<Seen>) -> (r: (Vec<Namespace<String>>, usize))
    ensures
        spaces_of(r.0@) == in_order(found(seen@)),
        r.1 == closed(seen@).len(),
{
    let mut spaces: Vec<Namespace<String>> = Vec::new();
    let mut shut: Vec<String> = Vec::new();
    assert(seen@.take(0) =~= Seq::empty());
    assert(spaces_of(spaces@) =~= Seq::empty());
    assert(views(shut@) =~= Seq::empty());
    for i in 0..seen.len()
        invariant
            spaces_of(spaces@) == found(seen@.take(i as int)),
            views(shut@) == closed(seen@.take(i as int)),
    {
        assert(seen@.take(i + 1).drop_last() =~= seen@.take(i as int));
        match &seen[i] {
            Seen::Closed { container } => match container {
                Some(id) => {
                    if !knows_text(&shut, id.as_str()) {
                        let ghost before = shut@;
                        shut.push(id.clone());
                        assert(views(shut@) =~= views(before).push(id@));
                    }
                },
                None => {},
            },
            Seen::Own => {},
            Seen::Other => {},
            Seen::Open(n) => {
                if !knows_id(&spaces, n.id) {
                    let ghost before = spaces_of(spaces@);
                    spaces.push(n.clone());
                    assert(spaces_of(spaces@) =~= before.push(n@));
                }
            },
        }
    }
    assert(seen@.take(seen@.len() as int) =~= seen@);
    let by_id = order_by_id(&spaces);
    let list = order_by_label(&by_id);
    assert(views(shut@).len() == shut@.len());
    (list, shut.len())
}

/// Each namespace is listed once, whatever the number of processes in it.
pub proof fn lemma_each_once(seen: Seq<Seen>)
    ensures
        forall|i: int, j: int|
            0 <= i < j < found(seen).len() ==> (#[trigger] found(seen)[i]).id != (
            #[trigger] found(seen)[j]).id,
    decreases seen.len(),
{
    if seen.len() > 0 {
        lemma_each_once(seen.drop_last());
        let f = found(seen.drop_last());
        let r = found(seen);
        assert forall|i: int, j: int| 0 <= i < j < r.len() implies (#[trigger] r[i]).id != (
        #[trigger] r[j]).id by {
            assert(r[i] == f[i]);
            if j < f.len() {
                assert(r[j] == f[j]);
            }
        }
    }
}

/// Where to read the socket tables of a process' namespace: protocol, family and path.
pub fn socket_tables(pid: u32) -> (r: Vec<(&'static str, &'static str, String)>)
    ensures
        r@.len() == 4,
        r@[0].0@ == "TCP"@ && r@[0].1@ == "IPv4"@ && r@[0].2@ == table_path(pid, "tcp"@),
        r@[1].0@ == "TCP"@ && r@[1].1@ == "IPv6"@ && r@[1].2@ == table_path(pid, "tcp6"@),
        r@[2].0@ == "UDP"@ && r@[2].1@ == "IPv4"@ && r@[2].2@ == table_path(pid, "udp"@),
        r@[3].0@ == "UDP"@ && r@[3].1@ == "IPv6"@ && r@[3].2@ == table_path(pid, "udp6"@),
{
    let mut r: Vec<(&'static str, &'static str, String)> = Vec::new();
    let p = dec(pid as u64);
    r.push(("TCP", "IPv4", cat4("/proc/", p.as_str(), "/net/", "tcp")));
    r.push(("TCP", "IPv6", cat4("/proc/", p.as_str(), "/net/", "tcp6")));
    r.push(("UDP", "IPv4", cat4("/proc/", p.as_str(), "/net/", "udp")));
    r.push(("UDP", "IPv6", cat4("/proc/", p.as_str(), "/net/", "udp6")));
    r
}

/// Where a socket table of a process' namespace is.
pub open spec fn table_path(pid: u32, file: Seq<char>) -> Seq<char> {
    "/proc/"@ + decimal(pid as nat) + "/net/"@ + file
}

/// The name of a namespace gives back the number that it was written with.
pub proof fn lemma_inode_in(n: u64)
    ensures
        inode_in("net:["@ + decimal(n as nat) + "]"@) == Some(n as nat),
{
    let a = "net:["@;
    let d = decimal(n as nat);
    let s = a + d + "]"@;
    lemma_decimal_reads_back(n as nat);
    assert(s.subrange(0, a.len() as int) =~= a);
    let t = s.skip(a.len() as int);
    assert(t =~= d + "]"@);
    assert(t.subrange(d.len() as int, t.len() as int) =~= "]"@);
    assert(t.take(d.len() as int) =~= d);
}

/// A namespace is found exactly where some process is in it, and is that of the first one.
pub proof fn lemma_found(seen: Seq<Seen>, id: u64)
    ensures
        has_id(found(seen), id) <==> exists|k: int|
            0 <= k < seen.len() && (#[trigger] seen[k]) is Open && seen[k]->Open_0.id == id,
        forall|i: int|
            0 <= i < found(seen).len() && (#[trigger] found(seen)[i]).id == id ==> exists|k: int|
                0 <= k < seen.len() && (#[trigger] seen[k]) is Open && seen[k]->Open_0@
                    == found(seen)[i] && forall|j: int|
                    0 <= j < k ==> !((#[trigger] seen[j]) is Open && seen[j]->Open_0.id == id),
    decreases seen.len(),
{
    if seen.len() > 0 {
        let w = seen.drop_last();
        let f = found(w);
        let r = found(seen);
        lemma_found(w, id);
        assert(seen[seen.len() - 1] == seen.last());
        assert forall|k: int| 0 <= k < w.len() implies #[trigger] seen[k] == w[k] by {}
        assert forall|i: int| 0 <= i < r.len() && (#[trigger] r[i]).id == id implies exists|k: int|
            0 <= k < seen.len() && (#[trigger] seen[k]) is Open && seen[k]->Open_0@ == r[i]
                && forall|j: int|
                0 <= j < k ==> !((#[trigger] seen[j]) is Open && seen[j]->Open_0.id == id) by {
            if i < f.len() {
                assert(r[i] == f[i]);
                let k = choose|k: int|
                    0 <= k < w.len() && (#[trigger] w[k]) is Open && w[k]->Open_0@ == f[i]
                        && forall|j: int|
                        0 <= j < k ==> !((#[trigger] w[j]) is Open && w[j]->Open_0.id == id);
                assert(seen[k] == w[k]);
                assert forall|j: int| 0 <= j < k implies !((#[trigger] seen[j]) is Open
                    && seen[j]->Open_0.id == id) by {
                    assert(w[j] == seen[j]);
                }
            } else {
                assert forall|j: int| 0 <= j < seen.len() - 1 implies !((#[trigger] seen[j]) is Open
                    && seen[j]->Open_0.id == id) by {
                    assert(w[j] == seen[j]);
                }
                assert(seen[seen.len() - 1] is Open);
            }
        }
        if has_id(f, id) {
            let i = choose|i: int| 0 <= i < f.len() && (#[trigger] f[i]).id == id;
            assert(r[i] == f[i]);
        }
        if has_id(r, id) {
            let i = choose|i: int| 0 <= i < r.len() && (#[trigger] r[i]).id == id;
            assert(r[i].id == id);
        }
        if exists|k: int|
            0 <= k < seen.len() && (#[trigger] seen[k]) is Open && seen[k]->Open_0.id == id {
            let k = choose|k: int|
                0 <= k < seen.len() && (#[trigger] seen[k]) is Open && seen[k]->Open_0.id == id;
            if k < w.len() {
                assert(w[k] == seen[k]);
            } else if !has_id(f, id) {
                assert(r[r.len() - 1].id == id);
            }
        }
    }
}

/// Namespaces stand by their labels, those with one label by their numbers, and all are there.
pub proof fn lemma_in_order(v: Seq<Namespace<Seq<char>>>, i: int, j: int)
    requires
        v.len() <= usize::MAX,
        0 <= i < j < in_order(v).len(),
    ensures
        in_order(v).len() == v.len(),
        forall|x: Namespace<Seq<char>>| v.contains(x) <==> #[trigger] in_order(v).contains(x),
        !text_before(in_order(v)[j].label, in_order(v)[i].label),
        in_order(v)[i].label == in_order(v)[j].label ==> in_order(v)[i].id <= in_order(v)[j].id,
{
    let ids = Seq::new(v.len(), |k: int| v[k].id as i128);
    let a = lemma_sorted_from(v, ids);
    lemma_sorted_members(v, ids);
    let b = sorted_by(v, ids);
    let ts = Seq::new(b.len(), |k: int| b[k].label);
    let o = lemma_sorted_from(b, ranks(ts));
    lemma_sorted_members(b, ranks(ts));
    let r = in_order(v);
    assert(r == sorted_by(b, ranks(ts)));
    assert forall|x: Namespace<Seq<char>>| v.contains(x) <==> #[trigger] r.contains(x) by {
        assert(v.contains(x) <==> b.contains(x));
    }
    assert(r[i] == b[o[i]] && r[j] == b[o[j]]);
    lemma_ranks(ts, o[j], o[i]);
    lemma_ranks(ts, o[i], o[j]);
    assert(ranks(ts)[o[i]] <= ranks(ts)[o[j]]);
    if r[i].label == r[j].label {
        assert(o[i] < o[j]);
        assert(ids[a[o[i]]] <= ids[a[o[j]]]);
        assert(b[o[i]] == v[a[o[i]]] && b[o[j]] == v[a[o[j]]]);
    }
}

/// What a namespace is called: a container by its name, or by the first twelve digits of its
/// number where it has none; another by its host, or by its program, or by its pid.
pub proof fn lemma_best_label(
    id: Option<Seq<char>>,
    name: Option<Seq<char>>,
    hostname: Option<Seq<char>>,
    comm: Option<Seq<char>>,
    pid: u32,
)
    ensures
        id is Some && name is Some ==> best_label(id, name, hostname, comm, pid) == name->0,
        id is Some && name is None && id->0.len() >= 12 ==> best_label(
            id,
            name,
            hostname,
            comm,
            pid,
        ).len() == 12 && begins(id->0, best_label(id, name, hostname, comm, pid)),
        id is None && hostname is Some && trimmed(hostname->0).len() > 0 ==> best_label(
            id,
            name,
            hostname,
            comm,
            pid,
        ) == trimmed(hostname->0),
        id is None && hostname is None && comm is Some && trimmed(comm->0).len() > 0 ==> best_label(
            id,
            name,
            hostname,
            comm,
            pid,
        ) == trimmed(comm->0),
        id is None && hostname is None && comm is None ==> best_label(
            id,
            name,
            hostname,
            comm,
            pid,
        ) == "pid "@ + decimal(pid as nat),
{
    if id is Some && name is None && id->0.len() >= 12 {
        let b = best_label(id, name, hostname, comm, pid);
        assert(id->0.subrange(0, 12) =~= b);
    }
}

} // verus!
