//! The rows about this machine, and what is behind each of them.

use vstd::prelude::*;
use crate::dict::{
    find_pair, find_word, lemma_is_place, lemma_place, pairs, place, put, put_all, put_pair,
    put_word, under, words_of,
};
use crate::number::{dec, decimal, human, human_bytes, natural, parse_upto, within};
use crate::order::{
    is_order, lemma_sorted, lemma_sorted_from, lemma_sorted_members, sorted_by, stable_order,
};
use crate::pick::{lemma_pick, lemma_pick_ends, picked};
use crate::scan::{find_for, pick_for};
use crate::text::{
    before, begins, cat2, cat3, cat4, cat5, cat6, cut_once, first_some, head_before, is_word, join,
    joined, lemma_join_words, maybe, past, pieces, same, split, split_once, split_words,
    starts_with, strip_prefix, trim, trimmed, views, words, Cut,
};
use crate::monitor::{
    fields_of, is_leaf, sections_of, with_each, with_field, with_some, Detail, DetailSection,
    SectionV, TableRow,
};
use crate::monitor::iface::{addressed_summary, summary_text, Held, Interface};
use crate::monitor::ip::hex_ipv4;
use crate::monitor::ports::set_cell;
use crate::monitor::process_detail::{read_size, size_in};
use crate::monitor::resolve::{user_line, user_name};
use crate::monitor::ssh::cell_or_empty;
use crate::monitor::summary::{
    board_summary, board_text, chassis, chassis_of, cpu_summary, current_user, default_gateway,
    disk_summary, dmi, dmi_of, dns_servers, gateway_line, gpu_summary, gpu_text, hex_address,
    hostname, iso_date, iso_text, line_of, lines_in, machine_summary, machine_text, or_mark,
    os_release, os_summary, os_text, outbound_address, outbound_text, read_line, read_lines,
    read_rows, release_of, rows_in, servers_text, then_part, user_of, virtual_text, virtualization,
};

verus! {

// --- what is read --------------------------------------------------------------------------------------------

/// A cache of the first processor: its level, its size and its kind, as the kernel words them.
#[derive(Debug)]
pub struct CacheFacts {
    pub level: Option<String>,
    pub size: Option<String>,
    pub kind: Option<String>,
}

/// A mounted file system.
#[derive(Debug)]
pub struct Mount {
    pub point: String,
    pub total: u64,
    pub free: u64,
    /// The share in use, as it reads.
    pub percent: String,
    pub file_system: String,
    pub removable: bool,
}

/// What a graphics card says of itself.
#[derive(Debug)]
pub struct GpuFacts {
    pub driver: Option<String>,
    /// Whether the device could be opened.
    pub opened: bool,
    pub name: Option<String>,
    /// The memory in use, and all of it.
    pub memory: Option<(u64, u64)>,
    /// The shares of the core and of the memory in use.
    pub utilization: Option<(u32, u32)>,
    pub temperature: Option<u32>,
    /// What it draws, as it reads.
    pub power: Option<String>,
}

/// All that is read about the machine: files as they stand, and what else answers.
#[derive(Debug)]
pub struct Machine {
    pub hostname: Option<String>,
    pub loginuid: Option<String>,
    pub passwd: Option<String>,
    pub group: Option<String>,
    pub user: Option<String>,
    pub logname: Option<String>,
    pub resolv: Option<String>,
    /// The servers that a local resolver sends queries to.
    pub upstream: Option<String>,
    pub route: Option<String>,
    pub arp: Option<String>,
    pub dmi: Vec<(String, String)>,
    pub os_release: Option<String>,
    pub system: Option<String>,
    pub kernel: Option<String>,
    pub kernel_long: String,
    pub arch: String,
    pub dockerenv: bool,
    pub cgroup: Option<String>,
    pub init: Option<String>,
    pub cmdline: Option<String>,
    pub machine_id: Option<String>,
    pub boot_id: Option<String>,
    pub loadavg: Option<String>,
    /// The load averages, as they read.
    pub load: String,
    /// How long it has been on, as it reads.
    pub uptime: String,
    /// The address that traffic leaves by.
    pub outbound: Option<String>,
    pub held: Vec<Held>,
    pub interfaces: Vec<Interface>,
    pub cpus: usize,
    pub brand: Option<String>,
    pub physical: Option<u64>,
    pub cpuinfo: Option<String>,
    /// The clocks of the processors now, and those that they can have, as they read.
    pub clocks: Option<String>,
    pub range: Option<String>,
    pub governor: Option<String>,
    pub caches: Vec<CacheFacts>,
    pub memory: u64,
    pub meminfo: Option<String>,
    /// The share of memory in use, as it reads.
    pub memory_share: String,
    pub disk: Option<u64>,
    pub mounts: Vec<Mount>,
    pub gpu: Option<GpuFacts>,
}

// --- the rows ------------------------------------------------------------------------------------------------

/// What cannot change while the machine is on.
#[derive(Debug)]
pub struct Fixed {
    pub os: String,
    pub machine: Option<String>,
    pub board: Option<String>,
    pub virtualization: Option<String>,
}

/// The table about the machine. What cannot change is read once.
#[derive(Debug)]
pub struct SummaryMonitor {
    pub fixed: Fixed,
}

/// Rows with one more, where there is a value for it.
pub open spec fn with_row(
    v: Seq<(Seq<char>, Seq<char>)>,
    field: Seq<char>,
    value: Option<Seq<char>>,
) -> Seq<(Seq<char>, Seq<char>)> {
    match value {
        Some(t) => v.push((field, t)),
        None => v,
    }
}

/// The graphics card in the rows.
pub open spec fn gpu_row(g: Option<GpuFacts>) -> Option<Seq<char>> {
    match g {
        Some(x) => if x.opened {
            gpu_text(
                maybe(x.name),
                match x.memory {
                    Some(m) => Some(m.1),
                    None => None,
                },
            )
        } else {
            None
        },
        None => None,
    }
}

/// The user of the machine.
pub open spec fn user_text(m: Machine) -> Seq<char> {
    user_of(maybe(m.loginuid), maybe(m.passwd), maybe(m.user), maybe(m.logname))
}

/// The rows about the machine: each field and its value.
pub open spec fn row_values(f: Fixed, m: Machine) -> Seq<(Seq<char>, Seq<char>)> {
    let v = seq![("Host"@, or_mark(line_of(maybe(m.hostname)))), ("OS"@, f.os@)];
    let v = with_row(v, "Machine"@, maybe(f.machine));
    let v = with_row(v, "Board"@, maybe(f.board));
    let v = with_row(v, "Virtual"@, maybe(f.virtualization));
    let v = v.push(("Uptime"@, m.uptime@));
    let v = v.push(("User"@, user_text(m)));
    let v = v.push(("IP"@, outbound_text(maybe(m.outbound), m.held@)));
    let v = v.push(("Interfaces"@, summary_text(m.interfaces@)));
    let v = v.push(
        (
            "Gateway"@,
            or_mark(first_some(rows_in(maybe(m.route)), |l: Seq<char>| gateway_line(l))),
        ),
    );
    let v = v.push(("DNS"@, servers_text(maybe(m.resolv))));
    let v = v.push(
        (
            "CPU"@,
            match maybe(m.brand) {
                Some(b) => decimal(m.cpus as nat) + " cores · "@ + b,
                None => "?"@,
            },
        ),
    );
    let v = v.push(("Memory"@, human(m.memory as nat)));
    let v = v.push(
        (
            "Disk"@,
            match m.disk {
                Some(n) => human(n as nat),
                None => "?"@,
            },
        ),
    );
    with_row(v, "GPU"@, gpu_row(m.gpu))
}

/// The row of a fact, which is told from others by the name of the fact.
pub open spec fn fact_row(r: TableRow, x: (Seq<char>, Seq<char>)) -> bool {
    is_leaf(r, seq![x.0, x.1], 0, x.0)
}

/// Rows for facts.
pub open spec fn fact_rows(rows: Seq<TableRow>, v: Seq<(Seq<char>, Seq<char>)>) -> bool {
    rows.len() == v.len() && forall|i: int|
        0 <= i < rows.len() ==> fact_row(#[trigger] rows[i], v[i])
}

/// The row of a fact.
pub fn row(field: &str, value: String) -> (r: TableRow)
    ensures
        fact_row(r, (field@, value@)),
{
    let ghost y = value@;
    let mut cells: Vec<String> = Vec::new();
    cells.push(field.to_owned());
    cells.push(value);
    assert(views(cells@) =~= seq![field@, y]);
    TableRow::keyed(cells, 0, field.to_owned())
}

fn add_row(
    rows: &mut Vec<TableRow>,
    field: &str,
    value: String,
    Ghost(v): Ghost<Seq<(Seq<char>, Seq<char>)>>,
)
    requires
        fact_rows(old(rows)@, v),
    ensures
        fact_rows(final(rows)@, v.push((field@, value@))),
{
    let ghost before = rows@;
    let r = row(field, value);
    rows.push(r);
    proof {
        let w = v.push((field@, value@));
        assert forall|i: int| 0 <= i < rows@.len() implies fact_row(#[trigger] rows@[i], w[i]) by {
            if i < before.len() {
                assert(fact_row(before[i], v[i]));
            }
        }
    }
}

fn add_some(
    rows: &mut Vec<TableRow>,
    field: &str,
    value: Option<String>,
    Ghost(v): Ghost<Seq<(Seq<char>, Seq<char>)>>,
)
    requires
        fact_rows(old(rows)@, v),
    ensures
        fact_rows(final(rows)@, with_row(v, field@, maybe(value))),
{
    match value {
        Some(t) => {
            add_row(rows, field, t, Ghost(v));
        },
        None => {},
    }
}

fn copy_of(t: &Option<String>) -> (r: Option<String>)
    ensures
        maybe(r) == maybe(*t),
{
    match t {
        Some(s) => Some(s.clone()),
        None => None,
    }
}

fn gateway_cell(m: &Machine) -> (r: String)
    ensures
        r@ == or_mark(first_some(rows_in(maybe(m.route)), |l: Seq<char>| gateway_line(l))),
{
    match default_gateway(&m.route) {
        Some(t) => t,
        None => "?".to_owned(),
    }
}

fn gpu_cell(g: &Option<GpuFacts>) -> (r: Option<String>)
    ensures
        maybe(r) == gpu_row(*g),
{
    match g {
        Some(x) => {
            if !x.opened {
                return None;
            }
            gpu_summary(
                &x.name,
                match x.memory {
                    Some(m) => Some(m.1),
                    None => None,
                },
            )
        },
        None => None,
    }
}

impl SummaryMonitor {
    /// A table about a machine.
    pub fn new(m: &Machine) -> (r: SummaryMonitor)
        ensures
            r.fixed.os@ == os_text(
                maybe(m.os_release),
                maybe(m.system),
                maybe(m.kernel),
                m.arch@,
            ),
            maybe(r.fixed.machine) == machine_text(words_of(m.dmi@)),
            maybe(r.fixed.board) == board_text(words_of(m.dmi@)),
            maybe(r.fixed.virtualization) == virtual_text(
                m.dockerenv,
                maybe(m.cgroup),
                words_of(m.dmi@),
            ),
    {
        SummaryMonitor {
            fixed: Fixed {
                os: os_summary(&m.os_release, &m.system, &m.kernel, m.arch.as_str()),
                machine: machine_summary(&m.dmi),
                board: board_summary(&m.dmi),
                virtualization: virtualization(m.dockerenv, &m.cgroup, &m.dmi),
            },
        }
    }

    /// The rows about the machine. They are a set of facts and not a ranking: none is left out
    /// for want of room.
    pub fn rows(&self, m: &Machine) -> (r: Vec<TableRow>)
        ensures
            fact_rows(r@, row_values(self.fixed, *m)),
    {
        let mut rows: Vec<TableRow> = Vec::new();
        let ghost v = Seq::<(Seq<char>, Seq<char>)>::empty();
        let host = hostname(&m.hostname);
        let ghost a = v.push(("Host"@, host@));
        add_row(&mut rows, "Host", host, Ghost(v));
        let ghost b = a.push(("OS"@, self.fixed.os@));
        add_row(&mut rows, "OS", self.fixed.os.clone(), Ghost(a));
        assert(b =~= seq![
            ("Host"@, or_mark(line_of(maybe(m.hostname)))),
            ("OS"@, self.fixed.os@),
        ]);
        let ghost c = with_row(b, "Machine"@, maybe(self.fixed.machine));
        add_some(&mut rows, "Machine", copy_of(&self.fixed.machine), Ghost(b));
        let ghost d = with_row(c, "Board"@, maybe(self.fixed.board));
        add_some(&mut rows, "Board", copy_of(&self.fixed.board), Ghost(c));
        let ghost e = with_row(d, "Virtual"@, maybe(self.fixed.virtualization));
        add_some(&mut rows, "Virtual", copy_of(&self.fixed.virtualization), Ghost(d));
        let ghost f = e.push(("Uptime"@, m.uptime@));
        add_row(&mut rows, "Uptime", m.uptime.clone(), Ghost(e));
        let user = current_user(&m.loginuid, &m.passwd, &m.user, &m.logname);
        let ghost g = f.push(("User"@, user@));
        add_row(&mut rows, "User", user, Ghost(f));
        let ip = outbound_address(&m.outbound, &m.held);
        let ghost h = g.push(("IP"@, ip@));
        add_row(&mut rows, "IP", ip, Ghost(g));
        let addressed = addressed_summary(&m.interfaces);
        let ghost i = h.push(("Interfaces"@, addressed@));
        add_row(&mut rows, "Interfaces", addressed, Ghost(h));
        let gateway = gateway_cell(m);
        let ghost j = i.push(("Gateway"@, gateway@));
        add_row(&mut rows, "Gateway", gateway, Ghost(i));
        let dns = dns_servers(&m.resolv);
        let ghost k = j.push(("DNS"@, dns@));
        add_row(&mut rows, "DNS", dns, Ghost(j));
        let cpu = cpu_summary(m.cpus, &m.brand);
        let ghost l = k.push(("CPU"@, cpu@));
        add_row(&mut rows, "CPU", cpu, Ghost(k));
        let memory = human_bytes(m.memory);
        let ghost n = l.push(("Memory"@, memory@));
        add_row(&mut rows, "Memory", memory, Ghost(l));
        let disk = disk_summary(m.disk);
        let ghost o = n.push(("Disk"@, disk@));
        add_row(&mut rows, "Disk", disk, Ghost(n));
        add_some(&mut rows, "GPU", gpu_cell(&m.gpu), Ghost(o));
        rows
    }

    /// Renews the values of rows in place, each by its field. A field that is not there any more
    /// keeps its value.
    pub fn refresh_values(&self, m: &Machine, rows: &mut Vec<TableRow>)
        requires
            forall|i: int| 0 <= i < old(rows)@.len() ==> (#[trigger] old(rows)@[i]).cells@.len() >= 2,
        ensures
            final(rows)@.len() == old(rows)@.len(),
            forall|i: int|
                0 <= i < old(rows)@.len() ==> views((#[trigger] final(rows)@[i]).cells@) == renewed(
                    views(old(rows)@[i].cells@),
                    row_values(self.fixed, *m),
                ) && final(rows)@[i] == (TableRow {
                    cells: final(rows)@[i].cells,
                    ..old(rows)@[i]
                }),
    {
        let fresh = self.rows(m);
        let ghost v = row_values(self.fixed, *m);
        let n: usize = rows.len();
        for i in 0..n
            invariant
                n == rows@.len(),
                rows@.len() == old(rows)@.len(),
                fact_rows(fresh@, v),
                forall|k: int|
                    0 <= k < old(rows)@.len() ==> (#[trigger] old(rows)@[k]).cells@.len() >= 2,
                forall|k: int|
                    0 <= k < i ==> views((#[trigger] rows@[k]).cells@) == renewed(
                        views(old(rows)@[k].cells@),
                        v,
                    ) && rows@[k] == (TableRow { cells: rows@[k].cells, ..old(rows)@[k] }),
                forall|k: int| i <= k < rows@.len() ==> #[trigger] rows@[k] == old(rows)@[k],
        {
            assert(old(rows)@[i as int].cells@.len() >= 2);
            let field = rows[i].cells[0].clone();
            assert(views(rows@[i as int].cells@)[0] == field@);
            match find_row(&fresh, field.as_str(), Ghost(v)) {
                Some(k) => {
                    proof {
                        lemma_place(v, field@);
                        assert(fact_row(fresh@[k as int], v[k as int]));
                        assert(views(fresh@[k as int].cells@)[1] == v[k as int].1);
                        assert(views(fresh@[k as int].cells@).len() == fresh@[k as int].cells@.len());
                    }
                    let t = fresh[k].cells[1].clone();
                    let row = &mut rows[i];
                    set_cell(&mut row.cells, 1, t);
                },
                None => {},
            }
        }
    }
}

/// The cells of a fact with its value now.
pub open spec fn renewed(cells: Seq<Seq<char>>, v: Seq<(Seq<char>, Seq<char>)>) -> Seq<Seq<char>> {
    match under(v, cells[0]) {
        Some(t) => cells.update(1, t),
        None => cells,
    }
}

fn find_row(
    rows: &Vec<TableRow>,
    field: &str,
    Ghost(v): Ghost<Seq<(Seq<char>, Seq<char>)>>,
) -> (r: Option<usize>)
    requires
        fact_rows(rows@, v),
    ensures
        (match r {
            Some(i) => place(v, field@) == Some(i as int) && i < rows@.len(),
            None => place(v, field@) is None,
        }),
{
    for i in 0..rows.len()
        invariant
            fact_rows(rows@, v),
            forall|j: int| 0 <= j < i ==> (#[trigger] v[j]).0 != field@,
    {
        proof {
            assert(fact_row(rows@[i as int], v[i as int]));
            assert(views(rows@[i as int].cells@).len() == rows@[i as int].cells@.len());
            assert(views(rows@[i as int].cells@)[0] == rows@[i as int].cells@[0]@);
        }
        if same(rows[i].cells[0].as_str(), field) {
            proof {
                lemma_is_place(v, field@, i as int);
            }
            return Some(i);
        }
    }
    proof {
        lemma_place(v, field@);
    }
    None
}

// --- parsing what the details show ---------------------------------------------------------------------------

/// What a line says of a kind of memory, in bytes.
pub open spec fn memory_line(line: Seq<char>) -> Option<(Seq<char>, u64)> {
    match cut_once(line, Cut::At(':')) {
        Some((k, v)) => match size_in(v) {
            Some(n) => Some((k, n as u64)),
            None => None,
        },
        None => None,
    }
}

/// The memory of the machine by kind, the last word on each.
pub open spec fn memory_of(content: Option<Seq<char>>) -> Seq<(Seq<char>, u64)> {
    put_all(Seq::empty(), picked(lines_in(content), |l: Seq<char>| memory_line(l)))
}

/// The memory of the machine by kind, in bytes.
pub fn meminfo(content: &Option<String>) -> (r: Vec<(String, u64)>)
    ensures
        pairs(r@) == memory_of(maybe(*content)),
{
    let ls = read_lines(content);
    let ghost vs = views(ls@);
    let ghost f = |l: Seq<char>| memory_line(l);
    let mut r: Vec<(String, u64)> = Vec::new();
    proof {
        lemma_pick_ends(vs, f);
        assert(pairs(r@) =~= put_all(Seq::empty(), Seq::empty()));
    }
    for i in 0..ls.len()
        invariant
            vs == views(ls@),
            f == (|l: Seq<char>| memory_line(l)),
            pairs(r@) == put_all(Seq::empty(), picked(vs.take(i as int), f)),
    {
        proof {
            lemma_pick(vs, f, i as int);
            assert(vs[i as int] == ls@[i as int]@);
        }
        match split_once(ls[i].as_str(), ':') {
            Some((k, v)) => {
                match read_size(v.as_str()) {
                    Some(n) => {
                        proof {
                            let a = picked(vs.take(i as int), f);
                            assert(a.push((k@, n)).drop_last() =~= a);
                        }
                        put_pair(&mut r, k.as_str(), n);
                    },
                    None => {},
                }
            },
            None => {},
        }
    }
    r
}

/// The blocks of a file of `key: value` lines: those closed among the first `n` lines, and the
/// one that is open behind them. A line without a colon closes a block that has something.
pub open spec fn blocks_upto(ls: Seq<Seq<char>>, n: int) -> (
    Seq<Seq<(Seq<char>, Seq<char>)>>,
    Seq<(Seq<char>, Seq<char>)>,
)
    decreases n,
{
    if n <= 0 {
        (Seq::empty(), Seq::empty())
    } else {
        let (done, open) = blocks_upto(ls, n - 1);
        match cut_once(ls[n - 1], Cut::At(':')) {
            Some((k, v)) => (done, put(open, trimmed(k), trimmed(v))),
            None => if open.len() > 0 {
                (done.push(open), Seq::empty())
            } else {
                (done, open)
            },
        }
    }
}

/// The blocks of a file of `key: value` lines.
pub open spec fn blocks_of(content: Option<Seq<char>>) -> Seq<Seq<(Seq<char>, Seq<char>)>> {
    let ls = lines_in(content);
    let (done, open) = blocks_upto(ls, ls.len() as int);
    if open.len() > 0 {
        done.push(open)
    } else {
        done
    }
}

/// Blocks, in contracts.
pub open spec fn blocks_view(v: Seq<Vec<(String, String)>>) -> Seq<Seq<(Seq<char>, Seq<char>)>> {
    Seq::new(v.len(), |i: int| words_of(v[i]@))
}

/// The blocks of a file with one for each processor.
pub fn cpuinfo(content: &Option<String>) -> (r: Vec<Vec<(String, String)>>)
    ensures
        blocks_view(r@) == blocks_of(maybe(*content)),
{
    let ls = read_lines(content);
    let ghost vs = views(ls@);
    assert(vs.len() == ls@.len());
    let mut done: Vec<Vec<(String, String)>> = Vec::new();
    let mut open: Vec<(String, String)> = Vec::new();
    assert(blocks_view(done@) =~= Seq::empty());
    assert(words_of(open@) =~= Seq::empty());
    for i in 0..ls.len()
        invariant
            vs == views(ls@),
            (blocks_view(done@), words_of(open@)) == blocks_upto(vs, i as int),
    {
        assert(vs[i as int] == ls@[i as int]@);
        assert(words_of(open@).len() == open@.len());
        match split_once(ls[i].as_str(), ':') {
            Some((k, v)) => {
                put_word(&mut open, trim(k.as_str()).as_str(), trim(v.as_str()).as_str());
            },
            None => {
                if open.len() > 0 {
                    let ghost before = blocks_view(done@);
                    let ghost y = words_of(open@);
                    done.push(open);
                    open = Vec::new();
                    assert(blocks_view(done@) =~= before.push(y));
                    assert(words_of(open@) =~= Seq::empty());
                }
            },
        }
    }
    assert(words_of(open@).len() == open@.len());
    if open.len() > 0 {
        let ghost before = blocks_view(done@);
        let ghost y = words_of(open@);
        done.push(open);
        assert(blocks_view(done@) =~= before.push(y));
    }
    done
}

/// The entry of a user in the list of users: the fields of the first line with its name.
pub open spec fn entry_of(ls: Seq<Seq<char>>, name: Seq<char>) -> Option<Seq<Seq<char>>>
    decreases ls.len(),
{
    if ls.len() == 0 {
        None
    } else if pieces(ls[0], Cut::At(':'))[0] == name {
        Some(pieces(ls[0], Cut::At(':')))
    } else {
        entry_of(ls.skip(1), name)
    }
}

/// Optional fields, in contracts.
pub open spec fn fields_seen(o: Option<Vec<String>>) -> Option<Seq<Seq<char>>> {
    match o {
        Some(v) => Some(views(v@)),
        None => None,
    }
}

/// The entry of a user in the list of users.
pub fn passwd_entry(content: &Option<String>, name: &str) -> (r: Option<Vec<String>>)
    ensures
        fields_seen(r) == entry_of(lines_in(maybe(*content)), name@),
{
    let ls = read_lines(content);
    let ghost vs = views(ls@);
    assert(vs.skip(0) =~= vs);
    for i in 0..ls.len()
        invariant
            vs == views(ls@),
            vs == lines_in(maybe(*content)),
            entry_of(vs.skip(i as int), name@) == entry_of(vs, name@),
    {
        assert(vs.skip(i as int)[0] == ls@[i as int]@);
        assert(vs.skip(i as int).skip(1) =~= vs.skip(i + 1));
        let f = split(ls[i].as_str(), Cut::At(':'));
        assert(views(f@)[0] == f@[0]@);
        if same(f[0].as_str(), name) {
            return Some(f);
        }
    }
    None
}

/// The group of a line, where a user is a member of it.
pub open spec fn group_line(line: Seq<char>, name: Seq<char>) -> Option<Seq<char>> {
    let f = pieces(line, Cut::At(':'));
    if f.len() < 4 {
        None
    } else if pieces(f[3], Cut::At(',')).contains(name) {
        Some(f[0])
    } else {
        None
    }
}

/// Whether a text is in a list.
fn is_in(v: &Vec<String>, t: &str) -> (r: bool)
    ensures
        r == views(v@).contains(t@),
{
    for i in 0..v.len()
        invariant
            forall|j: int| 0 <= j < i ==> #[trigger] views(v@)[j] != t@,
    {
        assert(views(v@)[i as int] == v@[i as int]@);
        if same(v[i].as_str(), t) {
            return true;
        }
    }
    false
}

fn read_group(line: &str, name: &str) -> (r: Option<String>)
    ensures
        maybe(r) == group_line(line@, name@),
{
    let f = split(line, Cut::At(':'));
    assert(views(f@).len() == f@.len());
    if f.len() < 4 {
        return None;
    }
    assert(views(f@)[0] == f@[0]@ && views(f@)[3] == f@[3]@);
    if is_in(&split(f[3].as_str(), Cut::At(',')), name) {
        Some(f[0].clone())
    } else {
        None
    }
}

/// The groups that a user is a member of, the primary one left out.
pub fn groups_of(content: &Option<String>, name: &str) -> (r: Vec<String>)
    ensures
        views(r@) == picked(lines_in(maybe(*content)), |l: Seq<char>| group_line(l, name@)),
{
    pick_for(
        &read_lines(content),
        name,
        read_group,
        Ghost(|l: Seq<char>| group_line(l, name@)),
    )
}

/// The name of the group with a number.
pub fn user_group_name(content: &Option<String>, gid: u32) -> (r: Option<String>)
    ensures
        maybe(r) == first_some(lines_in(maybe(*content)), |l: Seq<char>| user_line(l, gid)),
{
    match content {
        Some(c) => user_name(c.as_str(), gid),
        None => None,
    }
}

/// A route to anywhere.
#[derive(Debug)]
pub struct DefaultRoute<T> {
    pub interface: T,
    pub gateway: T,
    pub metric: u32,
}

impl View for DefaultRoute<String> {
    type V = DefaultRoute<Seq<char>>;

    open spec fn view(&self) -> DefaultRoute<Seq<char>> {
        DefaultRoute {
            interface: self.interface@,
            gateway: self.gateway@,
            metric: self.metric,
        }
    }
}

/// Routes, in contracts.
pub open spec fn routes_view(v: Seq<DefaultRoute<String>>) -> Seq<DefaultRoute<Seq<char>>> {
    Seq::new(v.len(), |i: int| v[i]@)
}

/// The route to anywhere in a line.
pub open spec fn default_line(line: Seq<char>) -> Option<DefaultRoute<Seq<char>>> {
    let f = words(line);
    if f.len() < 3 || f[1] != "00000000"@ {
        None
    } else {
        match hex_address(f[2]) {
            None => None,
            Some(gateway) => if f.len() < 7 {
                None
            } else {
                Some(
                    DefaultRoute {
                        interface: f[0],
                        gateway,
                        metric: match within(natural(f[6]), u32::MAX as nat) {
                            Some(n) => n as u32,
                            None => 0,
                        },
                    },
                )
            },
        }
    }
}

/// An optional route, in contracts.
pub open spec fn route_view(r: Option<DefaultRoute<String>>) -> Option<DefaultRoute<Seq<char>>> {
    match r {
        Some(x) => Some(x@),
        None => None,
    }
}

fn read_default(line: &str) -> (r: Option<DefaultRoute<String>>)
    ensures
        route_view(r) == default_line(line@),
{
    let f = split_words(line);
    assert(views(f@).len() == f@.len());
    if f.len() < 3 {
        return None;
    }
    assert(views(f@)[1] == f@[1]@ && views(f@)[2] == f@[2]@);
    if !same(f[1].as_str(), "00000000") {
        return None;
    }
    match hex_ipv4(f[2].as_str()) {
        None => None,
        Some(ip) => {
            if f.len() < 7 {
                return None;
            }
            assert(views(f@)[0] == f@[0]@ && views(f@)[6] == f@[6]@);
            let metric: u32 = match parse_upto(f[6].as_str(), u32::MAX as u64) {
                Some(n) => n as u32,
                None => 0,
            };
            Some(DefaultRoute { interface: f[0].clone(), gateway: ip.text(), metric })
        },
    }
}

/// The routes to anywhere, the one that wins first.
pub open spec fn default_routes_of(content: Option<Seq<char>>) -> Seq<DefaultRoute<Seq<char>>> {
    let v = picked(rows_in(content), |l: Seq<char>| default_line(l));
    sorted_by(v, Seq::new(v.len(), |i: int| v[i].metric as i128))
}

/// Every route to anywhere, by its metric: a machine may have two, and the lower one wins.
pub fn default_routes(content: &Option<String>) -> (r: Vec<DefaultRoute<String>>)
    ensures
        routes_view(r@) == default_routes_of(maybe(*content)),
{
    let ls = read_rows(content);
    let ghost vs = views(ls@);
    let ghost f = |l: Seq<char>| default_line(l);
    let mut v: Vec<DefaultRoute<String>> = Vec::new();
    let mut keys: Vec<i128> = Vec::new();
    proof {
        lemma_pick_ends(vs, f);
        assert(routes_view(v@) =~= Seq::empty());
    }
    for i in 0..ls.len()
        invariant
            vs == views(ls@),
            f == (|l: Seq<char>| default_line(l)),
            routes_view(v@) == picked(vs.take(i as int), f),
            keys@.len() == v@.len(),
            forall|k: int| 0 <= k < v@.len() ==> #[trigger] keys@[k] == v@[k].metric,
    {
        proof {
            lemma_pick(vs, f, i as int);
            assert(vs[i as int] == ls@[i as int]@);
        }
        match read_default(ls[i].as_str()) {
            Some(x) => {
                let ghost before = routes_view(v@);
                let ghost y = x@;
                keys.push(x.metric as i128);
                v.push(x);
                assert(routes_view(v@) =~= before.push(y));
            },
            None => {},
        }
    }
    let ghost all = routes_view(v@);
    let o = stable_order(keys.as_slice());
    proof {
        assert(keys@ =~= Seq::new(all.len(), |i: int| all[i].metric as i128));
        lemma_sorted(all, keys@, o@);
    }
    let mut r: Vec<DefaultRoute<String>> = Vec::new();
    for i in 0..o.len()
        invariant
            is_order(keys@, o@),
            keys@.len() == v@.len(),
            all == routes_view(v@),
            routes_view(r@) =~= Seq::new(i as nat, |k: int| all[o@[k] as int]),
    {
        let x = &v[o[i]];
        assert(all[o@[i as int] as int] == x@);
        let y = DefaultRoute {
            interface: x.interface.clone(),
            gateway: x.gateway.clone(),
            metric: x.metric,
        };
        let ghost before = routes_view(r@);
        assert(y@ == x@);
        r.push(y);
        assert(routes_view(r@) =~= before.push(x@));
    }
    assert(routes_view(r@) =~= default_routes_of(maybe(*content)));
    r
}

/// The hardware address in a line, where it is that of an address.
pub open spec fn arp_line(line: Seq<char>, ip: Seq<char>) -> Option<Seq<char>> {
    let f = words(line);
    if f.len() < 4 {
        None
    } else if f[0] == ip {
        Some(f[3])
    } else {
        None
    }
}

fn read_arp(line: &str, ip: &str) -> (r: Option<String>)
    ensures
        maybe(r) == arp_line(line@, ip@),
{
    let f = split_words(line);
    assert(views(f@).len() == f@.len());
    if f.len() < 4 {
        return None;
    }
    assert(views(f@)[0] == f@[0]@ && views(f@)[3] == f@[3]@);
    if same(f[0].as_str(), ip) {
        Some(f[3].clone())
    } else {
        None
    }
}

/// The hardware address that an address answers with.
pub open spec fn mac_of(content: Option<Seq<char>>, ip: Seq<char>) -> Option<Seq<char>> {
    first_some(rows_in(content), |l: Seq<char>| arp_line(l, ip))
}

/// The hardware address that an address answers with, by the table of neighbours.
pub fn arp_mac(content: &Option<String>, ip: &str) -> (r: Option<String>)
    ensures
        maybe(r) == mac_of(maybe(*content), ip@),
{
    find_for(&read_rows(content), ip, read_arp, Ghost(|l: Seq<char>| arp_line(l, ip@)))
}

/// What a line says of a keyword, a comment left out.
pub open spec fn resolv_line(line: Seq<char>, keyword: Seq<char>) -> Option<Seq<char>> {
    match past(trimmed(before(line, Cut::At('#'))), keyword) {
        Some(rest) => if trimmed(rest).len() > 0 {
            Some(trimmed(rest))
        } else {
            None
        },
        None => None,
    }
}

/// What a file says of a keyword, line by line.
pub open spec fn resolv_of(content: Option<Seq<char>>, keyword: Seq<char>) -> Seq<Seq<char>> {
    picked(lines_in(content), |l: Seq<char>| resolv_line(l, keyword))
}

fn read_resolv(line: &str, keyword: &str) -> (r: Option<String>)
    ensures
        maybe(r) == resolv_line(line@, keyword@),
{
    let t = trim(head_before(line, '#').as_str());
    match strip_prefix(t.as_str(), keyword) {
        Some(rest) => {
            let v = trim(rest.as_str());
            if v.as_str().is_empty() {
                None
            } else {
                Some(v)
            }
        },
        None => None,
    }
}

/// What a file says of a keyword, line by line.
pub fn resolv_conf(content: &Option<String>, keyword: &str) -> (r: Vec<String>)
    ensures
        views(r@) == resolv_of(maybe(*content), keyword@),
{
    pick_for(
        &read_lines(content),
        keyword,
        read_resolv,
        Ghost(|l: Seq<char>| resolv_line(l, keyword@)),
    )
}

// --- the sections --------------------------------------------------------------------------------------------

/// Lines with one more, unless there are some.
pub open spec fn or_else_field(
    f: Seq<(Seq<char>, Seq<char>)>,
    label: Seq<char>,
    value: Seq<char>,
) -> Seq<(Seq<char>, Seq<char>)> {
    if f.len() == 0 {
        with_field(f, label, value)
    } else {
        f
    }
}

fn push_if_empty(s: &mut DetailSection, label: &str, value: &str)
    ensures
        final(s)@.title == old(s)@.title,
        final(s)@.fields == or_else_field(old(s)@.fields, label@, value@),
{
    assert(fields_of(s.fields@).len() == s.fields@.len());
    if s.fields.len() == 0 {
        s.push(label, value.to_owned());
    }
}

/// The lines about the firmware.
pub open spec fn firmware_lines(d: Seq<(Seq<char>, Seq<char>)>) -> Seq<(Seq<char>, Seq<char>)> {
    let f = Seq::empty();
    let f = with_some(f, "Fabricante"@, dmi_of(d, "sys_vendor"@));
    let f = with_some(f, "Produto"@, dmi_of(d, "product_name"@));
    let f = with_some(f, "Versão do produto"@, dmi_of(d, "product_version"@));
    let f = with_some(f, "Família"@, dmi_of(d, "product_family"@));
    let f = with_some(f, "Fabricante da placa"@, dmi_of(d, "board_vendor"@));
    let f = with_some(f, "Placa"@, dmi_of(d, "board_name"@));
    let f = with_some(f, "Versão da placa"@, dmi_of(d, "board_version"@));
    let f = with_some(f, "BIOS"@, dmi_of(d, "bios_vendor"@));
    let f = with_some(f, "Versão da BIOS"@, dmi_of(d, "bios_version"@));
    let f = with_some(
        f,
        "Data da BIOS"@,
        match dmi_of(d, "bios_date"@) {
            Some(t) => Some(iso_text(t)),
            None => None,
        },
    );
    let f = with_some(f, "Gabinete"@, chassis_of(d));
    or_else_field(
        f,
        "DMI"@,
        "nenhum — normal dentro de um contêiner, onde não há firmware a consultar"@,
    )
}

/// What the firmware says.
pub fn machine_section(d: &Vec<(String, String)>) -> (r: DetailSection)
    ensures
        r@ == (SectionV { title: "Firmware (DMI)"@, fields: firmware_lines(words_of(d@)) }),
{
    let mut s = DetailSection::new("Firmware (DMI)");
    s.push_some("Fabricante", dmi(d, "sys_vendor"));
    s.push_some("Produto", dmi(d, "product_name"));
    s.push_some("Versão do produto", dmi(d, "product_version"));
    s.push_some("Família", dmi(d, "product_family"));
    s.push_some("Fabricante da placa", dmi(d, "board_vendor"));
    s.push_some("Placa", dmi(d, "board_name"));
    s.push_some("Versão da placa", dmi(d, "board_version"));
    s.push_some("BIOS", dmi(d, "bios_vendor"));
    s.push_some("Versão da BIOS", dmi(d, "bios_version"));
    match dmi(d, "bios_date") {
        Some(t) => {
            s.push("Data da BIOS", iso_date(t.as_str()));
        },
        None => {},
    }
    s.push_some("Gabinete", chassis(d));
    push_if_empty(
        &mut s,
        "DMI",
        "nenhum — normal dentro de um contêiner, onde não há firmware a consultar",
    );
    s
}

/// The lines about the distribution.
pub open spec fn distro_lines(c: Option<Seq<char>>) -> Seq<(Seq<char>, Seq<char>)> {
    let f = Seq::empty();
    let f = with_some(f, "Nome"@, release_of(c, "NAME"@));
    let f = with_some(f, "Versão"@, release_of(c, "VERSION"@));
    let f = with_some(f, "ID"@, release_of(c, "ID"@));
    let f = with_some(f, "Baseada em"@, release_of(c, "ID_LIKE"@));
    with_some(f, "Como se apresenta"@, release_of(c, "PRETTY_NAME"@))
}

/// The lines about the kernel.
pub open spec fn kernel_lines(m: Machine) -> Seq<(Seq<char>, Seq<char>)> {
    let f = Seq::empty();
    let f = with_some(f, "Versão"@, maybe(m.kernel));
    let f = with_field(f, "Completa"@, m.kernel_long@);
    let f = with_field(f, "Arquitetura"@, m.arch@);
    let f = with_some(f, "Init (pid 1)"@, line_of(maybe(m.init)));
    with_some(f, "Linha de boot"@, line_of(maybe(m.cmdline)))
}

fn distro_section(m: &Machine) -> (r: DetailSection)
    ensures
        r@ == (SectionV { title: "Distribuição"@, fields: distro_lines(maybe(m.os_release)) }),
{
    let mut s = DetailSection::new("Distribuição");
    s.push_some("Nome", os_release(&m.os_release, "NAME"));
    s.push_some("Versão", os_release(&m.os_release, "VERSION"));
    s.push_some("ID", os_release(&m.os_release, "ID"));
    s.push_some("Baseada em", os_release(&m.os_release, "ID_LIKE"));
    s.push_some("Como se apresenta", os_release(&m.os_release, "PRETTY_NAME"));
    s
}

fn kernel_section(m: &Machine) -> (r: DetailSection)
    ensures
        r@ == (SectionV { title: "Kernel"@, fields: kernel_lines(*m) }),
{
    let mut s = DetailSection::new("Kernel");
    s.push_some("Versão", copy_of(&m.kernel));
    s.push("Completa", m.kernel_long.clone());
    s.push("Arquitetura", m.arch.clone());
    s.push_some("Init (pid 1)", read_line(&m.init));
    s.push_some("Linha de boot", read_line(&m.cmdline));
    s
}

/// The fields of the file of loads.
pub open spec fn load_fields(m: Machine) -> Seq<Seq<char>> {
    match line_of(maybe(m.loadavg)) {
        Some(l) => words(l),
        None => Seq::empty(),
    }
}

/// The lines about time and load.
pub open spec fn uptime_lines(m: Machine) -> Seq<(Seq<char>, Seq<char>)> {
    let w = load_fields(m);
    let f = Seq::empty();
    let f = with_field(f, "Ligado há"@, m.uptime@);
    let f = with_field(f, "Carga média"@, m.load@ + "   (1, 5 e 15 min)"@);
    let f = if w.len() > 3 {
        with_field(f, "Tarefas"@, w[3] + "  (executando/total)"@)
    } else {
        f
    };
    if w.len() > 4 {
        with_field(f, "Último PID criado"@, w[4])
    } else {
        f
    }
}

fn uptime_section(m: &Machine) -> (r: DetailSection)
    ensures
        r@ == (SectionV { title: "Tempo e carga"@, fields: uptime_lines(*m) }),
{
    let mut s = DetailSection::new("Tempo e carga");
    s.push("Ligado há", m.uptime.clone());
    s.push("Carga média", cat2(m.load.as_str(), "   (1, 5 e 15 min)"));
    match read_line(&m.loadavg) {
        Some(l) => {
            let w = split_words(l.as_str());
            assert(views(w@).len() == w@.len());
            if w.len() > 3 {
                assert(views(w@)[3] == w@[3]@);
                s.push("Tarefas", cat2(w[3].as_str(), "  (executando/total)"));
            }
            if w.len() > 4 {
                assert(views(w@)[4] == w@[4]@);
                s.push("Último PID criado", w[4].clone());
            }
        },
        None => {},
    }
    s
}

/// The primary group of a user, as it reads.
pub open spec fn group_text(groups: Option<Seq<char>>, gid: Seq<char>) -> Seq<char> {
    let name = match within(natural(gid), u32::MAX as nat) {
        Some(n) => first_some(lines_in(groups), |l: Seq<char>| user_line(l, n as u32)),
        None => None,
    };
    match name {
        Some(g) => g + " (gid "@ + gid + ")"@,
        None => "gid "@ + gid,
    }
}

/// Lines about what the list of users says of one.
pub open spec fn with_entry(
    f: Seq<(Seq<char>, Seq<char>)>,
    e: Option<Seq<Seq<char>>>,
    groups: Option<Seq<char>>,
) -> Seq<(Seq<char>, Seq<char>)> {
    match e {
        None => with_field(
            f,
            "Cadastro"@,
            "não está em /etc/passwd — usuário de um diretório remoto (LDAP/SSSD)"@,
        ),
        Some(e) => {
            let f = with_field(f, "UID"@, cell_or_empty(e, 2));
            let f = if e.len() > 3 {
                with_field(f, "Grupo primário"@, group_text(groups, e[3]))
            } else {
                f
            };
            let f = with_field(f, "Nome completo"@, cell_or_empty(e, 4));
            let f = with_field(f, "Home"@, cell_or_empty(e, 5));
            with_field(f, "Shell"@, cell_or_empty(e, 6))
        },
    }
}

/// The lines about the user.
pub open spec fn user_lines(m: Machine) -> Seq<(Seq<char>, Seq<char>)> {
    let name = user_text(m);
    let groups = picked(lines_in(maybe(m.group)), |l: Seq<char>| group_line(l, name));
    let f = Seq::empty();
    let f = with_field(f, "Login"@, name);
    let f = with_entry(f, entry_of(lines_in(maybe(m.passwd)), name), maybe(m.group));
    let f = with_field(f, "Outros grupos"@, joined(groups, ", "@));
    match maybe(m.user) {
        Some(u) => if u != name {
            with_field(f, "Processo rodando como"@, u)
        } else {
            f
        },
        None => f,
    }
}

fn push_field(s: &mut DetailSection, label: &str, e: &Vec<String>, i: usize)
    ensures
        final(s)@.title == old(s)@.title,
        final(s)@.fields == with_field(
            old(s)@.fields,
            label@,
            cell_or_empty(views(e@), i as int),
        ),
{
    assert(views(e@).len() == e@.len());
    if i < e.len() {
        assert(views(e@)[i as int] == e@[i as int]@);
        s.push(label, e[i].clone());
    }
}

fn write_group(groups: &Option<String>, gid: &str) -> (r: String)
    ensures
        r@ == group_text(maybe(*groups), gid@),
{
    let name = match parse_upto(gid, u32::MAX as u64) {
        Some(n) => user_group_name(groups, n as u32),
        None => None,
    };
    match name {
        Some(g) => cat4(g.as_str(), " (gid ", gid, ")"),
        None => cat2("gid ", gid),
    }
}

fn push_entry(s: &mut DetailSection, e: &Option<Vec<String>>, groups: &Option<String>)
    ensures
        final(s)@.title == old(s)@.title,
        final(s)@.fields == with_entry(old(s)@.fields, fields_seen(*e), maybe(*groups)),
{
    match e {
        None => {
            s.push(
                "Cadastro",
                "não está em /etc/passwd — usuário de um diretório remoto (LDAP/SSSD)".to_owned(),
            );
        },
        Some(e) => {
            push_field(s, "UID", e, 2);
            assert(views(e@).len() == e@.len());
            if e.len() > 3 {
                assert(views(e@)[3] == e@[3]@);
                s.push("Grupo primário", write_group(groups, e[3].as_str()));
            }
            push_field(s, "Nome completo", e, 4);
            push_field(s, "Home", e, 5);
            push_field(s, "Shell", e, 6);
        },
    }
}

fn user_section(m: &Machine) -> (r: DetailSection)
    ensures
        r@ == (SectionV { title: "Usuário"@, fields: user_lines(*m) }),
{
    let mut s = DetailSection::new("Usuário");
    let name = current_user(&m.loginuid, &m.passwd, &m.user, &m.logname);
    s.push("Login", name.clone());
    let e = passwd_entry(&m.passwd, name.as_str());
    push_entry(&mut s, &e, &m.group);
    let groups = groups_of(&m.group, name.as_str());
    s.push("Outros grupos", join(groups.as_slice(), ", "));
    match &m.user {
        Some(u) => {
            if !same(u.as_str(), name.as_str()) {
                s.push("Processo rodando como", u.clone());
            }
        },
        None => {},
    }
    s
}

/// Lines with each of the first `n` servers, numbered.
pub open spec fn with_servers(
    f: Seq<(Seq<char>, Seq<char>)>,
    v: Seq<Seq<char>>,
    n: int,
) -> Seq<(Seq<char>, Seq<char>)>
    decreases n,
{
    if n <= 0 {
        f
    } else {
        with_field(with_servers(f, v, n - 1), "Servidor "@ + decimal(n as nat), v[n - 1])
    }
}

/// Some server is on this machine itself.
pub open spec fn has_stub(v: Seq<Seq<char>>) -> bool {
    exists|i: int| 0 <= i < v.len() && begins(#[trigger] v[i], "127."@)
}

/// The lines about how names are looked up. A resolver on the machine itself only passes queries
/// on, so where they go is told too.
pub open spec fn dns_lines(m: Machine) -> Seq<(Seq<char>, Seq<char>)> {
    let servers = resolv_of(maybe(m.resolv), "nameserver"@);
    let search = resolv_of(maybe(m.resolv), "search"@);
    let options = resolv_of(maybe(m.resolv), "options"@);
    let upstream = resolv_of(maybe(m.upstream), "nameserver"@);
    let f = Seq::empty();
    let f = if servers.len() == 0 {
        with_field(f, "Servidores"@, "nenhum em /etc/resolv.conf"@)
    } else {
        f
    };
    let f = with_servers(f, servers, servers.len() as int);
    let f = with_each(f, "Domínios de busca"@, search);
    let f = with_each(f, "Opções"@, options);
    if has_stub(servers) {
        with_field(
            f,
            "Encaminha para"@,
            if upstream.len() == 0 {
                "stub local (127.x) — o destino real não está publicado em /run/systemd/resolve"@
            } else {
                joined(upstream, ", "@)
            },
        )
    } else {
        f
    }
}

fn is_stub(v: &Vec<String>) -> (r: bool)
    ensures
        r == has_stub(views(v@)),
{
    for i in 0..v.len()
        invariant
            forall|j: int| 0 <= j < i ==> !begins(#[trigger] views(v@)[j], "127."@),
    {
        assert(views(v@)[i as int] == v@[i as int]@);
        if starts_with(v[i].as_str(), "127.") {
            return true;
        }
    }
    false
}

fn dns_section(m: &Machine) -> (r: DetailSection)
    ensures
        r@ == (SectionV { title: "Resolução de nomes"@, fields: dns_lines(*m) }),
{
    let mut s = DetailSection::new("Resolução de nomes");
    let servers = resolv_conf(&m.resolv, "nameserver");
    let ghost vs = views(servers@);
    assert(vs.len() == servers@.len());
    if servers.len() == 0 {
        s.push("Servidores", "nenhum em /etc/resolv.conf".to_owned());
    }
    let ghost f = s@.fields;
    for i in 0..servers.len()
        invariant
            vs == views(servers@),
            s@.title == "Resolução de nomes"@,
            s@.fields == with_servers(f, vs, i as int),
    {
        assert(vs[i as int] == servers@[i as int]@);
        let label = cat2("Servidor ", dec(i as u64 + 1).as_str());
        s.push(label.as_str(), servers[i].clone());
    }
    let search = resolv_conf(&m.resolv, "search");
    s.push_each("Domínios de busca", &search);
    let options = resolv_conf(&m.resolv, "options");
    s.push_each("Opções", &options);
    if is_stub(&servers) {
        let upstream = resolv_conf(&m.upstream, "nameserver");
        assert(views(upstream@).len() == upstream@.len());
        let t = if upstream.len() == 0 {
            "stub local (127.x) — o destino real não está publicado em /run/systemd/resolve".to_owned()
        } else {
            join(upstream.as_slice(), ", ")
        };
        s.push("Encaminha para", t);
    }
    s
}

/// What the first block of a file says of a key.
pub open spec fn first_says(b: Seq<Seq<(Seq<char>, Seq<char>)>>, key: Seq<char>) -> Option<
    Seq<char>,
> {
    if b.len() == 0 {
        None
    } else {
        under(b[0], key)
    }
}

/// A cache of a level, as it reads.
pub open spec fn cache_text(c: CacheFacts, level: nat) -> Option<Seq<char>> {
    match (line_of(maybe(c.level)), line_of(maybe(c.size)), line_of(maybe(c.kind))) {
        (Some(l), Some(size), Some(kind)) => if l == decimal(level) {
            Some(size + " ("@ + kind + ")"@)
        } else {
            None
        },
        _ => None,
    }
}

/// Lines with the caches of the first `n` levels.
pub open spec fn with_caches(
    f: Seq<(Seq<char>, Seq<char>)>,
    v: Seq<CacheFacts>,
    n: int,
) -> Seq<(Seq<char>, Seq<char>)>
    decreases n,
{
    if n <= 0 {
        f
    } else {
        with_field(
            with_caches(f, v, n - 1),
            "Cache L"@ + decimal(n as nat),
            joined(picked(v, |c: CacheFacts| cache_text(c, n as nat)), " · "@),
        )
    }
}

/// The features of a processor that are worth a word, in the order they are told.
pub open spec fn known_flags() -> Seq<Seq<char>> {
    seq![
        "avx512f"@,
        "avx2"@,
        "avx"@,
        "aes"@,
        "sha_ni"@,
        "vmx"@,
        "svm"@,
        "hypervisor"@,
    ]
}

/// A feature, where a processor has it.
pub open spec fn flag_in(flag: Seq<char>, flags: Seq<Seq<char>>) -> Option<Seq<char>> {
    if flags.contains(flag) {
        Some(flag)
    } else {
        None
    }
}

/// The features of a processor on one line.
pub open spec fn flags_text(flags: Option<Seq<char>>) -> Seq<char> {
    match flags {
        Some(t) => joined(
            picked(known_flags(), |g: Seq<char>| flag_in(g, words(t))),
            ", "@,
        ),
        None => Seq::empty(),
    }
}

/// The cores of a machine, as they read.
pub open spec fn cores_text(m: Machine, blocks: nat) -> Seq<char> {
    let logical = decimal(
        if m.cpus > blocks {
            m.cpus as nat
        } else {
            blocks
        },
    );
    match m.physical {
        Some(n) => decimal(n as nat) + " físicos · "@ + logical + " lógicos"@,
        None => logical + " lógicos"@,
    }
}

/// The lines about the processors.
pub open spec fn cpu_lines(m: Machine) -> Seq<(Seq<char>, Seq<char>)> {
    let b = blocks_of(maybe(m.cpuinfo));
    let f = Seq::empty();
    let f = with_some(f, "Modelo"@, first_says(b, "model name"@));
    let f = with_some(f, "Fabricante"@, first_says(b, "vendor_id"@));
    let f = with_field(f, "Núcleos"@, cores_text(m, b.len()));
    let f = with_some(f, "Frequência agora"@, maybe(m.clocks));
    let f = with_some(f, "Faixa do hardware"@, maybe(m.range));
    let f = with_some(f, "Governador"@, line_of(maybe(m.governor)));
    let f = with_caches(f, m.caches@, 3);
    with_field(f, "Recursos"@, flags_text(first_says(b, "flags"@)))
}

fn read_first(b: &Vec<Vec<(String, String)>>, key: &str) -> (r: Option<String>)
    ensures
        maybe(r) == first_says(blocks_view(b@), key@),
{
    assert(blocks_view(b@).len() == b@.len());
    if b.len() == 0 {
        return None;
    }
    assert(blocks_view(b@)[0] == words_of(b@[0]@));
    match find_word(&b[0], key) {
        Some(i) => {
            proof {
                lemma_place(words_of(b@[0]@), key@);
            }
            Some(b[0][i].1.clone())
        },
        None => None,
    }
}

fn write_cache(c: &CacheFacts, level: u64) -> (r: Option<String>)
    ensures
        maybe(r) == cache_text(*c, level as nat),
{
    match (read_line(&c.level), read_line(&c.size), read_line(&c.kind)) {
        (Some(l), Some(size), Some(kind)) => {
            if same(l.as_str(), dec(level).as_str()) {
                Some(cat4(size.as_str(), " (", kind.as_str(), ")"))
            } else {
                None
            }
        },
        _ => None,
    }
}

fn write_caches(v: &Vec<CacheFacts>, level: u64) -> (r: String)
    ensures
        r@ == joined(picked(v@, |c: CacheFacts| cache_text(c, level as nat)), " · "@),
{
    let ghost f = |c: CacheFacts| cache_text(c, level as nat);
    let mut names: Vec<String> = Vec::new();
    proof {
        lemma_pick_ends(v@, f);
        assert(views(names@) =~= Seq::empty());
    }
    for i in 0..v.len()
        invariant
            f == (|c: CacheFacts| cache_text(c, level as nat)),
            views(names@) == picked(v@.take(i as int), f),
    {
        proof {
            lemma_pick(v@, f, i as int);
        }
        match write_cache(&v[i], level) {
            Some(t) => {
                let ghost before = views(names@);
                let ghost y = t@;
                names.push(t);
                assert(views(names@) =~= before.push(y));
            },
            None => {},
        }
    }
    join(names.as_slice(), " · ")
}

fn add_flag(out: &mut Vec<String>, flag: &str, flags: &Vec<String>)
    ensures
        views(final(out)@) == (match flag_in(flag@, views(flags@)) {
            Some(t) => views(old(out)@).push(t),
            None => views(old(out)@),
        }),
{
    if is_in(flags, flag) {
        let ghost before = views(out@);
        out.push(flag.to_owned());
        assert(views(out@) =~= before.push(flag@));
    }
}

proof fn lemma_pick_last(v: Seq<Seq<char>>, x: Seq<char>, f: spec_fn(Seq<char>) -> Option<Seq<char>>)
    ensures
        picked(v.push(x), f) == (match f(x) {
            Some(t) => picked(v, f).push(t),
            None => picked(v, f),
        }),
{
    let w = v.push(x);
    lemma_pick(w, f, v.len() as int);
    assert(w.take(v.len() as int) =~= v);
    assert(w.take(w.len() as int) =~= w);
}

fn write_flags(t: &str) -> (r: String)
    ensures
        r@ == flags_text(Some(t@)),
{
    let flags = split_words(t);
    let ghost f = |g: Seq<char>| flag_in(g, words(t@));
    let mut out: Vec<String> = Vec::new();
    proof {
        lemma_pick_ends(Seq::<Seq<char>>::empty(), f);
        assert(views(out@) =~= Seq::empty());
        assert(Seq::<Seq<char>>::empty().take(0) =~= Seq::empty());
        let a = Seq::<Seq<char>>::empty();
        let b = a.push("avx512f"@);
        let c = b.push("avx2"@);
        let d = c.push("avx"@);
        let e = d.push("aes"@);
        let g = e.push("sha_ni"@);
        let h = g.push("vmx"@);
        let i = h.push("svm"@);
        let j = i.push("hypervisor"@);
        lemma_pick_last(a, "avx512f"@, f);
        lemma_pick_last(b, "avx2"@, f);
        lemma_pick_last(c, "avx"@, f);
        lemma_pick_last(d, "aes"@, f);
        lemma_pick_last(e, "sha_ni"@, f);
        lemma_pick_last(g, "vmx"@, f);
        lemma_pick_last(h, "svm"@, f);
        lemma_pick_last(i, "hypervisor"@, f);
        assert(j =~= known_flags());
    }
    add_flag(&mut out, "avx512f", &flags);
    add_flag(&mut out, "avx2", &flags);
    add_flag(&mut out, "avx", &flags);
    add_flag(&mut out, "aes", &flags);
    add_flag(&mut out, "sha_ni", &flags);
    add_flag(&mut out, "vmx", &flags);
    add_flag(&mut out, "svm", &flags);
    add_flag(&mut out, "hypervisor", &flags);
    join(out.as_slice(), ", ")
}

fn write_cores(m: &Machine, blocks: usize) -> (r: String)
    ensures
        r@ == cores_text(*m, blocks as nat),
{
    let logical = if m.cpus > blocks {
        dec(m.cpus as u64)
    } else {
        dec(blocks as u64)
    };
    match m.physical {
        Some(n) => cat4(dec(n).as_str(), " físicos · ", logical.as_str(), " lógicos"),
        None => cat2(logical.as_str(), " lógicos"),
    }
}

fn cpu_section(m: &Machine) -> (r: DetailSection)
    ensures
        r@ == (SectionV { title: "Processador"@, fields: cpu_lines(*m) }),
{
    let mut s = DetailSection::new("Processador");
    let b = cpuinfo(&m.cpuinfo);
    assert(blocks_view(b@).len() == b@.len());
    s.push_some("Modelo", read_first(&b, "model name"));
    s.push_some("Fabricante", read_first(&b, "vendor_id"));
    s.push("Núcleos", write_cores(m, b.len()));
    s.push_some("Frequência agora", copy_of(&m.clocks));
    s.push_some("Faixa do hardware", copy_of(&m.range));
    s.push_some("Governador", read_line(&m.governor));
    let ghost f = s@.fields;
    for k in 0..3u64
        invariant
            s@.title == "Processador"@,
            s@.fields == with_caches(f, m.caches@, k as int),
    {
        let label = cat2("Cache L", dec(k + 1).as_str());
        s.push(label.as_str(), write_caches(&m.caches, k + 1));
    }
    match read_first(&b, "flags") {
        Some(t) => {
            s.push("Recursos", write_flags(t.as_str()));
        },
        None => {},
    }
    s
}

/// A kind of memory, as it reads.
pub open spec fn memory_text(v: Seq<(Seq<char>, u64)>, key: Seq<char>) -> Option<Seq<char>> {
    match under(v, key) {
        Some(n) => Some(human(n as nat)),
        None => None,
    }
}

/// What is left of a number.
pub open spec fn left_of(a: u64, b: u64) -> nat {
    if a >= b {
        (a - b) as nat
    } else {
        0
    }
}

/// The lines about memory. What is available is not what is free: what the cache holds can be
/// had back.
pub open spec fn memory_lines(m: Machine) -> Seq<(Seq<char>, Seq<char>)> {
    let v = memory_of(maybe(m.meminfo));
    let f = Seq::empty();
    let f = with_some(f, "Total"@, memory_text(v, "MemTotal"@));
    let f = match (under(v, "MemTotal"@), under(v, "MemAvailable"@)) {
        (Some(total), Some(available)) => with_field(
            with_field(
                f,
                "Em uso"@,
                human(left_of(total, available)) + "  ("@ + m.memory_share@ + ")"@,
            ),
            "Disponível"@,
            human(available as nat),
        ),
        _ => f,
    };
    let f = with_some(f, "Livre de fato"@, memory_text(v, "MemFree"@));
    let f = with_some(f, "Cache de páginas"@, memory_text(v, "Cached"@));
    let f = with_some(f, "Buffers"@, memory_text(v, "Buffers"@));
    let f = with_some(f, "Sujas (a gravar)"@, memory_text(v, "Dirty"@));
    let f = with_some(f, "Compartilhada (tmpfs)"@, memory_text(v, "Shmem"@));
    let f = with_some(f, "Swap total"@, memory_text(v, "SwapTotal"@));
    match (under(v, "SwapTotal"@), under(v, "SwapFree"@)) {
        (Some(total), Some(free)) => with_field(f, "Swap em uso"@, human(left_of(total, free))),
        _ => f,
    }
}

/// What is told of a kind of memory.
pub fn memory_under(v: &Vec<(String, u64)>, key: &str) -> (r: Option<u64>)
    ensures
        r == under(pairs(v@), key@),
{
    match find_pair(v, key) {
        Some(i) => Some(v[i].1),
        None => None,
    }
}

/// What is left of a number.
pub fn left(a: u64, b: u64) -> (r: u64)
    ensures
        r == left_of(a, b),
{
    if a >= b {
        a - b
    } else {
        0
    }
}

fn push_memory(s: &mut DetailSection, label: &str, v: &Vec<(String, u64)>, key: &str)
    ensures
        final(s)@.title == old(s)@.title,
        final(s)@.fields == with_some(old(s)@.fields, label@, memory_text(pairs(v@), key@)),
{
    match memory_under(v, key) {
        Some(n) => {
            s.push(label, human_bytes(n));
        },
        None => {},
    }
}

fn memory_section(m: &Machine) -> (r: DetailSection)
    ensures
        r@ == (SectionV { title: "Memória"@, fields: memory_lines(*m) }),
{
    let mut s = DetailSection::new("Memória");
    let v = meminfo(&m.meminfo);
    push_memory(&mut s, "Total", &v, "MemTotal");
    match (memory_under(&v, "MemTotal"), memory_under(&v, "MemAvailable")) {
        (Some(total), Some(available)) => {
            let used = human_bytes(left(total, available));
            s.push("Em uso", cat4(used.as_str(), "  (", m.memory_share.as_str(), ")"));
            s.push("Disponível", human_bytes(available));
        },
        _ => {},
    }
    push_memory(&mut s, "Livre de fato", &v, "MemFree");
    push_memory(&mut s, "Cache de páginas", &v, "Cached");
    push_memory(&mut s, "Buffers", &v, "Buffers");
    push_memory(&mut s, "Sujas (a gravar)", &v, "Dirty");
    push_memory(&mut s, "Compartilhada (tmpfs)", &v, "Shmem");
    push_memory(&mut s, "Swap total", &v, "SwapTotal");
    match (memory_under(&v, "SwapTotal"), memory_under(&v, "SwapFree")) {
        (Some(total), Some(free)) => {
            s.push("Swap em uso", human_bytes(left(total, free)));
        },
        _ => {},
    }
    s
}

/// A file system, as it reads.
pub open spec fn mount_text(d: Mount) -> Seq<char> {
    human(left_of(d.total, d.free)) + " de "@ + human(d.total as nat) + " ("@ + d.percent@
        + ") · livre "@ + human(d.free as nat) + " · "@ + d.file_system@ + (if d.removable {
        " · removível"@
    } else {
        ""@
    })
}

/// Lines with each of the first `n` file systems.
pub open spec fn with_mounts(
    f: Seq<(Seq<char>, Seq<char>)>,
    v: Seq<Mount>,
    n: int,
) -> Seq<(Seq<char>, Seq<char>)>
    decreases n,
{
    if n <= 0 {
        f
    } else {
        with_field(with_mounts(f, v, n - 1), v[n - 1].point@, mount_text(v[n - 1]))
    }
}

/// The lines about the file systems.
pub open spec fn disk_lines(v: Seq<Mount>) -> Seq<(Seq<char>, Seq<char>)> {
    or_else_field(
        with_mounts(Seq::empty(), v, v.len() as int),
        "Montagens"@,
        "nenhuma legível"@,
    )
}

fn write_mount(d: &Mount) -> (r: String)
    ensures
        r@ == mount_text(*d),
{
    let used = human_bytes(left(d.total, d.free));
    let a = cat6(
        used.as_str(),
        " de ",
        human_bytes(d.total).as_str(),
        " (",
        d.percent.as_str(),
        ") · livre ",
    );
    let tail = if d.removable {
        " · removível"
    } else {
        ""
    };
    cat5(a.as_str(), human_bytes(d.free).as_str(), " · ", d.file_system.as_str(), tail)
}

fn disk_section(m: &Machine) -> (r: DetailSection)
    ensures
        r@ == (SectionV { title: "Sistemas de arquivos"@, fields: disk_lines(m.mounts@) }),
{
    let mut s = DetailSection::new("Sistemas de arquivos");
    for i in 0..m.mounts.len()
        invariant
            s@.title == "Sistemas de arquivos"@,
            s@.fields == with_mounts(Seq::empty(), m.mounts@, i as int),
    {
        s.push(m.mounts[i].point.as_str(), write_mount(&m.mounts[i]));
    }
    push_if_empty(&mut s, "Montagens", "nenhuma legível");
    s
}

/// An interface, as it reads.
pub open spec fn interface_text(i: Interface) -> Seq<char> {
    then_part(i.address_line() + "  ·  "@ + i.kind@, "  ·  "@, maybe(i.mac))
}

/// Lines with each of the first `n` interfaces.
pub open spec fn with_interfaces(
    f: Seq<(Seq<char>, Seq<char>)>,
    v: Seq<Interface>,
    n: int,
) -> Seq<(Seq<char>, Seq<char>)>
    decreases n,
{
    if n <= 0 {
        f
    } else {
        with_field(with_interfaces(f, v, n - 1), v[n - 1].name@, interface_text(v[n - 1]))
    }
}

/// The lines about the interfaces.
pub open spec fn network_lines(v: Seq<Interface>) -> Seq<(Seq<char>, Seq<char>)> {
    or_else_field(
        with_interfaces(Seq::empty(), v, v.len() as int),
        "Interfaces"@,
        "nenhuma encontrada em /sys/class/net"@,
    )
}

fn write_interface(i: &Interface) -> (r: String)
    ensures
        r@ == interface_text(*i),
{
    let a = cat3(i.address_summary().as_str(), "  ·  ", i.kind);
    match &i.mac {
        Some(mac) => cat3(a.as_str(), "  ·  ", mac.as_str()),
        None => a,
    }
}

fn network_section(m: &Machine) -> (r: DetailSection)
    ensures
        r@ == (SectionV { title: "Interfaces"@, fields: network_lines(m.interfaces@) }),
{
    let mut s = DetailSection::new("Interfaces");
    for i in 0..m.interfaces.len()
        invariant
            s@.title == "Interfaces"@,
            s@.fields == with_interfaces(Seq::empty(), m.interfaces@, i as int),
    {
        s.push(m.interfaces[i].name.as_str(), write_interface(&m.interfaces[i]));
    }
    push_if_empty(&mut s, "Interfaces", "nenhuma encontrada em /sys/class/net");
    s
}

/// Lines with each of the first `n` routes.
pub open spec fn with_routes(
    f: Seq<(Seq<char>, Seq<char>)>,
    v: Seq<DefaultRoute<Seq<char>>>,
    arp: Option<Seq<char>>,
    n: int,
) -> Seq<(Seq<char>, Seq<char>)>
    decreases n,
{
    if n <= 0 {
        f
    } else {
        let x = v[n - 1];
        with_some(
            with_field(
                with_routes(f, v, arp, n - 1),
                "Via "@ + x.interface,
                x.gateway + "  ·  métrica "@ + decimal(x.metric as nat),
            ),
            "MAC do gateway"@,
            mac_of(arp, x.gateway),
        )
    }
}

/// The lines about the way out.
pub open spec fn gateway_lines(m: Machine) -> Seq<(Seq<char>, Seq<char>)> {
    let v = default_routes_of(maybe(m.route));
    let f = Seq::empty();
    let f = if v.len() == 0 {
        with_field(f, "Rota padrão"@, "nenhuma — esta máquina não tem saída roteada"@)
    } else {
        f
    };
    let f = with_routes(f, v, maybe(m.arp), v.len() as int);
    with_some(f, "Endereço de origem"@, maybe(m.outbound))
}

fn gateway_section(m: &Machine) -> (r: DetailSection)
    ensures
        r@ == (SectionV { title: "Saída para a rede"@, fields: gateway_lines(*m) }),
{
    let mut s = DetailSection::new("Saída para a rede");
    let v = default_routes(&m.route);
    let ghost vs = routes_view(v@);
    assert(vs.len() == v@.len());
    if v.len() == 0 {
        s.push("Rota padrão", "nenhuma — esta máquina não tem saída roteada".to_owned());
    }
    let ghost f = s@.fields;
    for i in 0..v.len()
        invariant
            vs == routes_view(v@),
            s@.title == "Saída para a rede"@,
            s@.fields == with_routes(f, vs, maybe(m.arp), i as int),
    {
        assert(vs[i as int] == v@[i as int]@);
        let label = cat2("Via ", v[i].interface.as_str());
        let t = cat3(v[i].gateway.as_str(), "  ·  métrica ", dec(v[i].metric as u64).as_str());
        s.push(label.as_str(), t);
        s.push_some("MAC do gateway", arp_mac(&m.arp, v[i].gateway.as_str()));
    }
    s.push_some("Endereço de origem", copy_of(&m.outbound));
    s
}

/// The lines about a graphics card.
pub open spec fn gpu_lines(g: GpuFacts) -> Seq<(Seq<char>, Seq<char>)> {
    let f = with_some(Seq::empty(), "Driver"@, maybe(g.driver));
    if !g.opened {
        with_field(f, "Dispositivo"@, "não pôde ser aberto"@)
    } else {
        let f = with_some(f, "Modelo"@, maybe(g.name));
        let f = match g.memory {
            Some(m) => with_field(
                f,
                "Memória"@,
                human(m.0 as nat) + " de "@ + human(m.1 as nat) + " em uso"@,
            ),
            None => f,
        };
        let f = match g.utilization {
            Some(u) => with_field(
                f,
                "Utilização"@,
                decimal(u.0 as nat) + "% núcleo · "@ + decimal(u.1 as nat) + "% memória"@,
            ),
            None => f,
        };
        let f = match g.temperature {
            Some(t) => with_field(f, "Temperatura"@, decimal(t as nat) + " °C"@),
            None => f,
        };
        with_some(f, "Consumo"@, maybe(g.power))
    }
}

fn gpu_section(g: &GpuFacts) -> (r: DetailSection)
    ensures
        r@ == (SectionV { title: "GPU"@, fields: gpu_lines(*g) }),
{
    let mut s = DetailSection::new("GPU");
    s.push_some("Driver", copy_of(&g.driver));
    if !g.opened {
        s.push("Dispositivo", "não pôde ser aberto".to_owned());
        return s;
    }
    s.push_some("Modelo", copy_of(&g.name));
    match g.memory {
        Some((used, total)) => {
            let t = cat4(human_bytes(used).as_str(), " de ", human_bytes(total).as_str(), " em uso");
            s.push("Memória", t);
        },
        None => {},
    }
    match g.utilization {
        Some((core, memory)) => {
            let t = cat4(
                dec(core as u64).as_str(),
                "% núcleo · ",
                dec(memory as u64).as_str(),
                "% memória",
            );
            s.push("Utilização", t);
        },
        None => {},
    }
    match g.temperature {
        Some(t) => {
            s.push("Temperatura", cat2(dec(t as u64).as_str(), " °C"));
        },
        None => {},
    }
    s.push_some("Consumo", copy_of(&g.power));
    s
}

/// The lines about which machine it is.
pub open spec fn host_lines(m: Machine) -> Seq<(Seq<char>, Seq<char>)> {
    let search = resolv_of(maybe(m.resolv), "search"@);
    let f = Seq::empty();
    let f = with_field(f, "Nome"@, or_mark(line_of(maybe(m.hostname))));
    let f = if search.len() > 0 {
        with_field(f, "Domínio de busca"@, search[0])
    } else {
        f
    };
    let f = with_some(f, "machine-id"@, line_of(maybe(m.machine_id)));
    let f = with_some(f, "boot-id (muda a cada boot)"@, line_of(maybe(m.boot_id)));
    with_field(f, "Ligado há"@, m.uptime@)
}

fn host_section(m: &Machine) -> (r: DetailSection)
    ensures
        r@ == (SectionV { title: "Identidade"@, fields: host_lines(*m) }),
{
    let mut s = DetailSection::new("Identidade");
    s.push("Nome", hostname(&m.hostname));
    let search = resolv_conf(&m.resolv, "search");
    assert(views(search@).len() == search@.len());
    if search.len() > 0 {
        assert(views(search@)[0] == search@[0]@);
        s.push("Domínio de busca", search[0].clone());
    }
    s.push_some("machine-id", read_line(&m.machine_id));
    s.push_some("boot-id (muda a cada boot)", read_line(&m.boot_id));
    s.push("Ligado há", m.uptime.clone());
    s
}

/// The lines about what the machine runs on top of.
pub open spec fn virtual_lines(m: Machine) -> Seq<(Seq<char>, Seq<char>)> {
    let d = words_of(m.dmi@);
    let f = Seq::empty();
    let f = with_field(
        f,
        "Detectado"@,
        match virtual_text(m.dockerenv, maybe(m.cgroup), d) {
            Some(t) => t,
            None => "nada — parece metal puro"@,
        },
    );
    let f = match maybe(m.cgroup) {
        Some(c) => with_field(f, "cgroup do pid 1"@, trimmed(c)),
        None => f,
    };
    let f = if m.dockerenv {
        with_field(f, "Marcador"@, "/.dockerenv existe"@)
    } else {
        f
    };
    with_some(f, "Fabricante segundo o DMI"@, dmi_of(d, "sys_vendor"@))
}

fn virtual_section(m: &Machine) -> (r: DetailSection)
    ensures
        r@ == (SectionV { title: "Virtualização"@, fields: virtual_lines(*m) }),
{
    let mut s = DetailSection::new("Virtualização");
    let found = match virtualization(m.dockerenv, &m.cgroup, &m.dmi) {
        Some(t) => t,
        None => "nada — parece metal puro".to_owned(),
    };
    s.push("Detectado", found);
    match &m.cgroup {
        Some(c) => {
            s.push("cgroup do pid 1", trim(c.as_str()));
        },
        None => {},
    }
    if m.dockerenv {
        s.push("Marcador", "/.dockerenv existe".to_owned());
    }
    s.push_some("Fabricante segundo o DMI", dmi(&m.dmi, "sys_vendor"));
    s
}

/// What is behind a row, by its field; nothing for a field that has no more to it.
pub open spec fn sections_for(field: Seq<char>, m: Machine) -> Option<Seq<SectionV>> {
    let network = SectionV { title: "Interfaces"@, fields: network_lines(m.interfaces@) };
    let gateway = SectionV { title: "Saída para a rede"@, fields: gateway_lines(m) };
    let uptime = SectionV { title: "Tempo e carga"@, fields: uptime_lines(m) };
    if field == "Host"@ {
        Some(seq![SectionV { title: "Identidade"@, fields: host_lines(m) }])
    } else if field == "OS"@ {
        Some(
            seq![
                SectionV { title: "Distribuição"@, fields: distro_lines(maybe(m.os_release)) },
                SectionV { title: "Kernel"@, fields: kernel_lines(m) },
            ],
        )
    } else if field == "Machine"@ || field == "Board"@ {
        Some(
            seq![SectionV {
                title: "Firmware (DMI)"@,
                fields: firmware_lines(words_of(m.dmi@)),
            }],
        )
    } else if field == "Virtual"@ {
        Some(seq![SectionV { title: "Virtualização"@, fields: virtual_lines(m) }])
    } else if field == "Uptime"@ {
        Some(seq![uptime])
    } else if field == "User"@ {
        Some(seq![SectionV { title: "Usuário"@, fields: user_lines(m) }])
    } else if field == "IP"@ || field == "Interfaces"@ {
        Some(seq![network, gateway])
    } else if field == "Gateway"@ {
        Some(seq![gateway, network])
    } else if field == "DNS"@ {
        Some(seq![SectionV { title: "Resolução de nomes"@, fields: dns_lines(m) }])
    } else if field == "CPU"@ {
        Some(seq![SectionV { title: "Processador"@, fields: cpu_lines(m) }, uptime])
    } else if field == "Memory"@ {
        Some(seq![SectionV { title: "Memória"@, fields: memory_lines(m) }])
    } else if field == "Disk"@ {
        Some(seq![SectionV { title: "Sistemas de arquivos"@, fields: disk_lines(m.mounts@) }])
    } else if field == "GPU"@ {
        match m.gpu {
            Some(g) => Some(seq![SectionV { title: "GPU"@, fields: gpu_lines(g) }]),
            None => None,
        }
    } else {
        None
    }
}

/// Optional sections, in contracts.
pub open spec fn sections_seen(o: Option<Vec<DetailSection>>) -> Option<Seq<SectionV>> {
    match o {
        Some(v) => Some(sections_of(v@)),
        None => None,
    }
}

fn one(a: DetailSection) -> (r: Vec<DetailSection>)
    ensures
        sections_of(r@) == seq![a@],
{
    let ghost x = a@;
    let mut r: Vec<DetailSection> = Vec::new();
    r.push(a);
    assert(sections_of(r@) =~= seq![x]);
    r
}

fn two(a: DetailSection, b: DetailSection) -> (r: Vec<DetailSection>)
    ensures
        sections_of(r@) == seq![a@, b@],
{
    let ghost x = a@;
    let ghost y = b@;
    let mut r: Vec<DetailSection> = Vec::new();
    r.push(a);
    r.push(b);
    assert(sections_of(r@) =~= seq![x, y]);
    r
}

fn write_sections(field: &str, m: &Machine) -> (r: Option<Vec<DetailSection>>)
    ensures
        sections_seen(r) == sections_for(field@, *m),
{
    if same(field, "Host") {
        Some(one(host_section(m)))
    } else if same(field, "OS") {
        Some(two(distro_section(m), kernel_section(m)))
    } else if same(field, "Machine") || same(field, "Board") {
        Some(one(machine_section(&m.dmi)))
    } else if same(field, "Virtual") {
        Some(one(virtual_section(m)))
    } else if same(field, "Uptime") {
        Some(one(uptime_section(m)))
    } else if same(field, "User") {
        Some(one(user_section(m)))
    } else if same(field, "IP") || same(field, "Interfaces") {
        Some(two(network_section(m), gateway_section(m)))
    } else if same(field, "Gateway") {
        Some(two(gateway_section(m), network_section(m)))
    } else if same(field, "DNS") {
        Some(one(dns_section(m)))
    } else if same(field, "CPU") {
        Some(two(cpu_section(m), uptime_section(m)))
    } else if same(field, "Memory") {
        Some(one(memory_section(m)))
    } else if same(field, "Disk") {
        Some(one(disk_section(m)))
    } else if same(field, "GPU") {
        match &m.gpu {
            Some(g) => Some(one(gpu_section(g))),
            None => None,
        }
    } else {
        None
    }
}

/// The rest of a fact. A field with nothing more behind it than its row has none.
pub fn detail_for(field: &str, m: &Machine) -> (r: Option<Detail>)
    ensures
        (match (r, sections_for(field@, *m)) {
            (Some(d), Some(v)) => d.title@ == field@ && d.gone_note@ == "indisponível"@
                && sections_of(d.sections@) == v && d.rates is None && d.handoffs@.len() == 0
                && d.handoff_title@ == ""@,
            (None, None) => true,
            _ => false,
        }),
{
    match write_sections(field, m) {
        Some(sections) => Some(
            Detail {
                title: field.to_owned(),
                gone_note: "indisponível",
                sections,
                rates: None,
                handoffs: Vec::new(),
                handoff_title: "",
            },
        ),
        None => None,
    }
}

/// Every row about the machine is a summary of something bigger: each has a detail behind it.
pub proof fn lemma_every_row_opens(f: Fixed, m: Machine)
    ensures
        forall|i: int|
            0 <= i < row_values(f, m).len() ==> sections_for(
                (#[trigger] row_values(f, m)[i]).0,
                m,
            ) is Some,
{
    let v = row_values(f, m);
    assert forall|i: int| 0 <= i < v.len() implies sections_for((#[trigger] v[i]).0, m) is Some by {
        lemma_row_fields(f, m, i);
    }
}

/// A field that the table about the machine can have.
pub open spec fn is_field(x: Seq<char>, m: Machine) -> bool {
    x == "Host"@ || x == "OS"@ || x == "Machine"@ || x == "Board"@ || x == "Virtual"@ || x
        == "Uptime"@ || x == "User"@ || x == "IP"@ || x == "Interfaces"@ || x == "Gateway"@ || x
        == "DNS"@ || x == "CPU"@ || x == "Memory"@ || x == "Disk"@ || (x == "GPU"@ && m.gpu is Some)
}

proof fn lemma_row_fields(f: Fixed, m: Machine, i: int)
    requires
        0 <= i < row_values(f, m).len(),
    ensures
        is_field(row_values(f, m)[i].0, m),
{
}

/// The ways out of this machine stand by their metrics, the one that is taken first, and all that
/// the table has are there.
pub proof fn lemma_default_routes(content: Option<Seq<char>>, i: int, j: int)
    requires
        picked(rows_in(content), |l: Seq<char>| default_line(l)).len() <= usize::MAX,
        0 <= i < j < default_routes_of(content).len(),
    ensures
        default_routes_of(content)[i].metric <= default_routes_of(content)[j].metric,
        forall|x: DefaultRoute<Seq<char>>|
            picked(rows_in(content), |l: Seq<char>| default_line(l)).contains(x)
                <==> #[trigger] default_routes_of(content).contains(x),
{
    let v = picked(rows_in(content), |l: Seq<char>| default_line(l));
    let keys = Seq::new(v.len(), |k: int| v[k].metric as i128);
    let o = lemma_sorted_from(v, keys);
    lemma_sorted_members(v, keys);
    assert(keys[o[i]] <= keys[o[j]]);
}

/// Which columns of the table of routes are read: the interface, the gateway and the metric of the
/// lines that lead everywhere.
pub proof fn lemma_default_line(ws: Seq<Seq<char>>)
    requires
        forall|k: int| 0 <= k < ws.len() ==> is_word(#[trigger] ws[k]),
        ws.len() >= 7,
    ensures
        (match default_line(joined(ws, " "@)) {
            Some(r) => ws[1] == "00000000"@ && r.interface == ws[0] && hex_address(ws[2]) == Some(
                r.gateway,
            ) && (within(natural(ws[6]), u32::MAX as nat) is Some ==> r.metric == natural(
                ws[6],
            )->0),
            None => ws[1] != "00000000"@ || hex_address(ws[2]) is None,
        }),
{
    lemma_join_words(ws);
}

/// The hardware address of a neighbour is in the fourth column of its line, and of no other line.
pub proof fn lemma_arp_line(ws: Seq<Seq<char>>, ip: Seq<char>)
    requires
        forall|k: int| 0 <= k < ws.len() ==> is_word(#[trigger] ws[k]),
        ws.len() >= 4,
    ensures
        ws[0] == ip ==> arp_line(joined(ws, " "@), ip) == Some(ws[3]),
        ws[0] != ip ==> arp_line(joined(ws, " "@), ip) is None,
{
    lemma_join_words(ws);
}

/// What is in use and what is left make up the whole.
pub proof fn lemma_left_of(total: u64, free: u64)
    requires
        free <= total,
    ensures
        left_of(total, free) + free == total,
{
}

/// A disk is told by what is used of it first, then the whole, then what is free.
pub proof fn lemma_mount_text(d: Mount)
    ensures
        begins(mount_text(d), human(left_of(d.total, d.free)) + " de "@ + human(d.total as nat)),
{
    let t = mount_text(d);
    let h = human(left_of(d.total, d.free)) + " de "@ + human(d.total as nat);
    assert(t.subrange(0, h.len() as int) =~= h);
}

/// A user's entry is the first line that begins with the name, cut at its colons.
pub proof fn lemma_entry_of(ls: Seq<Seq<char>>, name: Seq<char>)
    ensures
        (match entry_of(ls, name) {
            Some(e) => exists|k: int|
                0 <= k < ls.len() && pieces(#[trigger] ls[k], Cut::At(':')) == e && e[0] == name
                    && forall|j: int|
                    0 <= j < k ==> pieces(#[trigger] ls[j], Cut::At(':'))[0] != name,
            None => forall|j: int|
                0 <= j < ls.len() ==> pieces(#[trigger] ls[j], Cut::At(':'))[0] != name,
        }),
    decreases ls.len(),
{
    if ls.len() > 0 && pieces(ls[0], Cut::At(':'))[0] != name {
        let t = ls.skip(1);
        lemma_entry_of(t, name);
        match entry_of(t, name) {
            Some(e) => {
                let k = choose|k: int|
                    0 <= k < t.len() && pieces(#[trigger] t[k], Cut::At(':')) == e && e[0] == name
                        && forall|j: int|
                        0 <= j < k ==> pieces(#[trigger] t[j], Cut::At(':'))[0] != name;
                assert(ls[k + 1] == t[k]);
                assert forall|j: int| 0 <= j < k + 1 implies pieces(
                    #[trigger] ls[j],
                    Cut::At(':'),
                )[0] != name by {
                    if j > 0 {
                        assert(t[j - 1] == ls[j]);
                    }
                }
            },
            None => {
                assert forall|j: int| 0 <= j < ls.len() implies pieces(
                    #[trigger] ls[j],
                    Cut::At(':'),
                )[0] != name by {
                    if j > 0 {
                        assert(t[j - 1] == ls[j]);
                    }
                }
            },
        }
    } else if ls.len() > 0 {
        assert(pieces(ls[0], Cut::At(':'))[0] == name);
    }
}

} // verus!
