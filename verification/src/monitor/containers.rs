//! Containers, what they mount, what they were made from and where they are connected.

use vstd::prelude::*;
use crate::dict::{find_word, lemma_place, under, words_of};
use crate::number::{dec, decimal, human, human_bytes};
use crate::pick::{lemma_pick, lemma_pick_ends, lemma_pick_none, picked};
use crate::text::{begins, cat2, cat3, cat4, cat5, finishes, join, joined, maybe, same, views};
use crate::monitor::TableRow;
use crate::monitor::ports::capped;
use crate::monitor::process::as_place;

verus! {

/// The headers of the tables.
pub const CONTAINER_HEADERS: [&'static str; 7] = [
    "Nome",
    "Imagem",
    "Estado",
    "Portas",
    "CPU%",
    "Memória",
    "Rede E/S",
];

pub const VOLUME_HEADERS: [&'static str; 4] = ["Volume", "Usado por", "Tamanho", "Criado"];

pub const IMAGE_HEADERS: [&'static str; 4] = ["Imagem", "Tamanho", "Criada", "Em uso"];

pub const NETWORK_HEADERS: [&'static str; 4] = ["Rede", "Driver", "Sub-rede", "Containers"];

pub const SUMMARY_HEADERS: [&'static str; 2] = ["Item", "Situação"];

// --- what an engine tells ------------------------------------------------------------------------------------

/// A port of a container, and where the host publishes it.
#[derive(Debug)]
pub struct PortMap {
    pub container_port: u16,
    pub protocol: String,
    pub host_ip: Option<String>,
    pub host_port: Option<u16>,
}

/// How much of the time something waited for a resource, over three windows, as it reads.
#[derive(Debug)]
pub struct Pressure {
    pub avg10: String,
    pub avg60: String,
    pub avg300: String,
}

/// A rate, as a bit pattern of a double and as it reads.
#[derive(Debug)]
pub struct Rate {
    pub bits: u64,
    pub text: String,
}

/// A container.
#[derive(Debug)]
pub struct Container {
    pub id: String,
    pub short_id: String,
    /// Its name, as it is shown.
    pub name: String,
    pub image: String,
    pub command: String,
    pub project: Option<String>,
    pub service: Option<String>,
    /// When it was made, in seconds, and how long ago that is, as it reads.
    pub created: i64,
    pub ago: String,
    /// Its state in one word, and at length.
    pub state_label: String,
    pub status: String,
    /// Whether it runs, and whether it is paused.
    pub live: bool,
    pub paused: bool,
    pub started_at: String,
    pub finished_at: String,
    pub restart_count: u64,
    pub oom_killed: bool,
    pub pid: u32,
    /// Its share of the processors, as it reads.
    pub cpu_percent: Option<String>,
    pub cpu_quota: Option<String>,
    pub memory: Option<u64>,
    pub memory_limit: Option<u64>,
    pub memory_peak: Option<u64>,
    /// How often it was held back, and for how many seconds, as it reads.
    pub throttled: Option<(u64, String)>,
    pub oom_kills: Option<u64>,
    pub cpu_pressure: Option<Pressure>,
    pub memory_pressure: Option<Pressure>,
    pub io_pressure: Option<Pressure>,
    pub net_rx_rate: Option<Rate>,
    pub net_tx_rate: Option<Rate>,
    pub ip: Option<String>,
    pub networks: Vec<String>,
    pub ports: Vec<PortMap>,
    pub volumes: Vec<String>,
    pub log_path: Option<String>,
    pub log_size: Option<u64>,
}

/// A volume.
#[derive(Debug)]
pub struct Volume {
    pub name: String,
    pub driver: String,
    pub mountpoint: String,
    pub created: i64,
    pub ago: String,
    pub project: Option<String>,
    /// Its size, once it was measured.
    pub size: Option<u64>,
    pub used_by: Vec<String>,
}

/// An image.
#[derive(Debug)]
pub struct Image {
    pub id: String,
    pub short_id: String,
    pub name: String,
    pub tags: Vec<String>,
    /// Whether no tag is left on it.
    pub dangling: bool,
    pub size: u64,
    pub created: i64,
    pub ago: String,
    pub used_by: Vec<String>,
}

/// A network.
#[derive(Debug)]
pub struct Network {
    pub id: String,
    pub name: String,
    pub driver: String,
    pub scope: String,
    pub subnet: Option<String>,
    pub internal: bool,
    /// Whether the engine itself made it.
    pub builtin: bool,
    pub project: Option<String>,
    pub created: i64,
    pub ago: String,
    pub used_by: Vec<String>,
}

/// What the engine says of its disk.
#[derive(Debug)]
pub struct Usage {
    pub images_size: u64,
    pub containers_size: u64,
    pub build_cache: u64,
}

/// Sums over all that the engine has.
#[derive(Debug)]
pub struct Totals {
    pub running: u64,
    pub stopped: u64,
    pub orphan_volumes: u64,
    pub volumes_size: u64,
    pub orphan_size: u64,
    pub images_size: u64,
    pub dangling: u64,
}

/// All that an engine tells at one time.
#[derive(Debug)]
pub struct Snapshot {
    pub containers: Vec<Container>,
    pub volumes: Vec<Volume>,
    pub images: Vec<Image>,
    pub networks: Vec<Network>,
    /// What is being done to containers, by their ids.
    pub running: Vec<(String, String)>,
    pub error: Option<String>,
    /// What the last action said, and whether it went well.
    pub outcome: Option<(String, bool)>,
    /// How long ago sizes were measured, as it reads.
    pub measured: Option<String>,
    pub usage: Option<Usage>,
    pub totals: Totals,
    /// The engine in a word, and in detail.
    pub engine_label: String,
    pub engine_detail: String,
    /// When this was told, in seconds.
    pub now: i64,
}

// --- cells ---------------------------------------------------------------------------------------------------

/// How long ago something was made: a dash where it is not known.
pub open spec fn age_text(created: i64, now: i64, ago: Seq<char>) -> Seq<char> {
    if created <= 0 {
        "-"@
    } else if now <= created {
        "agora"@
    } else {
        ago
    }
}

/// How long ago something was made.
pub fn age(created: i64, now: i64, ago: &str) -> (r: String)
    ensures
        r@ == age_text(created, now, ago@),
{
    if created <= 0 {
        "-".to_owned()
    } else if now <= created {
        "agora".to_owned()
    } else {
        ago.to_owned()
    }
}

/// The host publishes a port on all of its addresses.
pub open spec fn is_any(ip: Option<Seq<char>>) -> bool {
    match ip {
        Some(a) => a.len() == 0 || a == "0.0.0.0"@ || a == "::"@,
        None => true,
    }
}

impl PortMap {
    /// A port as people compare it, with the address of the host only where it is not any.
    pub open spec fn text(self) -> Seq<char> {
        let inner = decimal(self.container_port as nat) + "/"@ + self.protocol@;
        match self.host_port {
            None => inner,
            Some(p) => if is_any(maybe(self.host_ip)) {
                decimal(p as nat) + "→"@ + inner
            } else {
                maybe(self.host_ip)->0 + ":"@ + decimal(p as nat) + "→"@ + inner
            },
        }
    }

    /// A port as people compare it.
    pub fn label(&self) -> (r: String)
        ensures
            r@ == self.text(),
    {
        let inner = cat3(dec(self.container_port as u64).as_str(), "/", self.protocol.as_str());
        match self.host_port {
            None => inner,
            Some(p) => {
                let n = dec(p as u64);
                match &self.host_ip {
                    Some(ip) => {
                        let a = ip.as_str();
                        if a.is_empty() || same(a, "0.0.0.0") || same(a, "::") {
                            cat3(n.as_str(), "→", inner.as_str())
                        } else {
                            cat5(a, ":", n.as_str(), "→", inner.as_str())
                        }
                    },
                    None => cat3(n.as_str(), "→", inner.as_str()),
                }
            },
        }
    }
}

/// What goes through a container's network: a dash where it was not measured, which is not the
/// same as nothing.
pub open spec fn net_text(c: Container) -> Seq<char> {
    match (c.net_rx_rate, c.net_tx_rate) {
        (Some(rx), Some(tx)) => rx.text@ + " ↓ "@ + tx.text@ + " ↑"@,
        _ => "-"@,
    }
}

/// What goes through a container's network.
pub fn net_cell(c: &Container) -> (r: String)
    ensures
        r@ == net_text(*c),
{
    match (&c.net_rx_rate, &c.net_tx_rate) {
        (Some(rx), Some(tx)) => cat4(rx.text.as_str(), " ↓ ", tx.text.as_str(), " ↑"),
        _ => "-".to_owned(),
    }
}

/// A text, or a dash.
pub open spec fn or_dash(o: Option<Seq<char>>) -> Seq<char> {
    match o {
        Some(s) => s,
        None => "-"@,
    }
}

fn dashed(o: &Option<String>) -> (r: String)
    ensures
        r@ == or_dash(maybe(*o)),
{
    match o {
        Some(s) => s.clone(),
        None => "-".to_owned(),
    }
}

/// What a container uses of the processors.
pub fn cpu_cell(c: &Container) -> (r: String)
    ensures
        r@ == or_dash(maybe(c.cpu_percent)),
{
    dashed(&c.cpu_percent)
}

/// What a container uses of memory, and its limit where it has one.
pub open spec fn memory_text(c: Container) -> Seq<char> {
    match c.memory {
        None => "-"@,
        Some(used) => match c.memory_limit {
            Some(limit) => if limit > 0 {
                human(used as nat) + " / "@ + human(limit as nat)
            } else {
                human(used as nat)
            },
            None => human(used as nat),
        },
    }
}

/// What a container uses of memory.
pub fn memory_cell(c: &Container) -> (r: String)
    ensures
        r@ == memory_text(*c),
{
    match c.memory {
        None => "-".to_owned(),
        Some(used) => match c.memory_limit {
            Some(limit) => if limit > 0 {
                cat3(human_bytes(used).as_str(), " / ", human_bytes(limit).as_str())
            } else {
                human_bytes(used)
            },
            None => human_bytes(used),
        },
    }
}

/// The state of a container, or what is being done to it.
pub open spec fn state_text(c: Container, running: Seq<(Seq<char>, Seq<char>)>) -> Seq<char> {
    match under(running, c.id@) {
        Some(verb) => verb + "…"@,
        None => c.state_label@,
    }
}

/// The state of a container, or what is being done to it.
pub fn state_cell(c: &Container, s: &Snapshot) -> (r: String)
    ensures
        r@ == state_text(*c, words_of(s.running@)),
{
    match find_word(&s.running, c.id.as_str()) {
        Some(i) => {
            proof {
                lemma_place(words_of(s.running@), c.id@);
            }
            cat2(s.running[i].1.as_str(), "…")
        },
        None => c.state_label.clone(),
    }
}

/// A port that the host publishes.
pub open spec fn published(p: PortMap) -> Option<Seq<char>> {
    if p.host_port is Some {
        Some(p.text())
    } else {
        None
    }
}

/// The published ports on one line. One that the host does not publish is no way in.
pub open spec fn ports_text(c: Container) -> Seq<char> {
    let v = picked(c.ports@, |p: PortMap| published(p));
    if v.len() == 0 {
        "-"@
    } else {
        joined(v, " "@)
    }
}

/// The published ports on one line.
pub fn ports_cell(c: &Container) -> (r: String)
    ensures
        r@ == ports_text(*c),
{
    let ghost f = |p: PortMap| published(p);
    let mut v: Vec<String> = Vec::new();
    proof {
        lemma_pick_ends(c.ports@, f);
        assert(views(v@) =~= Seq::empty());
    }
    for i in 0..c.ports.len()
        invariant
            f == (|p: PortMap| published(p)),
            views(v@) == picked(c.ports@.take(i as int), f),
    {
        proof {
            lemma_pick(c.ports@, f, i as int);
        }
        if c.ports[i].host_port.is_some() {
            let t = c.ports[i].label();
            let ghost before = views(v@);
            let ghost y = t@;
            v.push(t);
            assert(views(v@) =~= before.push(y));
        }
    }
    assert(views(v@).len() == v@.len());
    if v.len() == 0 {
        "-".to_owned()
    } else {
        join(v.as_slice(), " ")
    }
}

/// The cells of a container, behind its name.
pub open spec fn cells_for(
    name: Seq<char>,
    c: Container,
    running: Seq<(Seq<char>, Seq<char>)>,
) -> Seq<Seq<char>> {
    seq![
        name,
        c.image@,
        state_text(c, running),
        ports_text(c),
        or_dash(maybe(c.cpu_percent)),
        memory_text(c),
        net_text(c),
    ]
}

fn write_cells(name: String, c: &Container, s: &Snapshot) -> (r: Vec<String>)
    ensures
        views(r@) == cells_for(name@, *c, words_of(s.running@)),
{
    let ghost n = name@;
    let mut r: Vec<String> = Vec::new();
    r.push(name);
    r.push(c.image.clone());
    r.push(state_cell(c, s));
    r.push(ports_cell(c));
    r.push(cpu_cell(c));
    r.push(memory_cell(c));
    r.push(net_cell(c));
    assert(views(r@) =~= cells_for(n, *c, words_of(s.running@)));
    r
}

/// The cells of a container.
pub fn container_cells(c: &Container, s: &Snapshot) -> (r: Vec<String>)
    ensures
        views(r@) == cells_for(c.name@, *c, words_of(s.running@)),
{
    write_cells(c.name.clone(), c, s)
}

// --- the rows of the containers ------------------------------------------------------------------------------

/// The number that stands for a project, which has no process: from the top down, far from any
/// pid.
pub fn project_key(index: usize) -> (r: u32)
    requires
        index <= u32::MAX,
    ensures
        r == u32::MAX - index,
{
    u32::MAX - index as u32
}

/// Two projects never have one number, and no project has that of a process.
pub proof fn lemma_project_keys(a: int, b: int, pid: int)
    requires
        0 <= a < b,
        b <= u32::MAX - 10_000_000,
        0 <= pid < 10_000_000,
    ensures
        u32::MAX - a != u32::MAX - b,
        u32::MAX - a != pid,
        u32::MAX - b != pid,
{
}

/// A row, in contracts.
pub struct RowV {
    pub cells: Seq<Seq<char>>,
    pub pid: u32,
    pub depth: nat,
    pub last: bool,
    pub guides: Seq<bool>,
    pub children: nat,
    pub below: Seq<u32>,
    pub key: Seq<char>,
}

/// A row is as a contract says.
pub open spec fn row_is(r: TableRow, v: RowV) -> bool {
    &&& views(r.cells@) == v.cells
    &&& r.pid == v.pid
    &&& r.depth == v.depth
    &&& r.is_last_sibling == v.last
    &&& r.guides@ == v.guides
    &&& r.child_count == v.children
    &&& r.descendant_pids@ == v.below
    &&& r.key@ == v.key
    &&& r.mark is None
}

/// Rows are as a contract says.
pub open spec fn rows_are(rows: Seq<TableRow>, vs: Seq<RowV>) -> bool {
    rows.len() == vs.len() && forall|i: int|
        0 <= i < rows.len() ==> row_is(#[trigger] rows[i], vs[i])
}

/// A flat row.
pub open spec fn flat(cells: Seq<Seq<char>>, pid: u32, key: Seq<char>) -> RowV {
    RowV {
        cells,
        pid,
        depth: 0,
        last: true,
        guides: Seq::empty(),
        children: 0,
        below: Seq::empty(),
        key,
    }
}

/// The projects of containers in the order they come up, each once.
pub open spec fn projects_of(cs: Seq<Container>) -> Seq<Seq<char>>
    decreases cs.len(),
{
    if cs.len() == 0 {
        Seq::empty()
    } else {
        let v = projects_of(cs.drop_last());
        match maybe(cs.last().project) {
            Some(p) => if v.contains(p) {
                v
            } else {
                v.push(p)
            },
            None => v,
        }
    }
}

/// A container that belongs to a project.
pub open spec fn member(c: Container, p: Seq<char>) -> Option<Container> {
    if maybe(c.project) == Some(p) {
        Some(c)
    } else {
        None
    }
}

/// The containers of a project.
pub open spec fn members(cs: Seq<Container>, p: Seq<char>) -> Seq<Container> {
    picked(cs, |c: Container| member(c, p))
}

/// How many of the first `n` run.
pub open spec fn live_among(ms: Seq<Container>, n: int) -> nat
    decreases n,
{
    if n <= 0 {
        0
    } else {
        live_among(ms, n - 1) + (if ms[n - 1].live {
            1nat
        } else {
            0nat
        })
    }
}

/// The row of a project.
pub open spec fn project_row(p: Seq<char>, index: int, ms: Seq<Container>) -> RowV {
    let n = decimal(ms.len());
    RowV {
        cells: seq![
            p,
            n + " serviço(s)"@,
            decimal(live_among(ms, ms.len() as int)) + "/"@ + n + " no ar"@,
            Seq::empty(),
            Seq::empty(),
            Seq::empty(),
            Seq::empty(),
        ],
        pid: (u32::MAX - index) as u32,
        depth: 0,
        last: false,
        guides: Seq::empty(),
        children: ms.len(),
        below: Seq::new(ms.len(), |i: int| ms[i].pid),
        key: Seq::empty(),
    }
}

/// The row of a container below that of its project: it is called by its service, as the project
/// has the rest of its name already.
pub open spec fn member_row(
    c: Container,
    last: bool,
    running: Seq<(Seq<char>, Seq<char>)>,
) -> RowV {
    RowV {
        cells: cells_for(
            match maybe(c.service) {
                Some(s) => s,
                None => c.name@,
            },
            c,
            running,
        ),
        pid: c.pid,
        depth: 1,
        last,
        guides: seq![false],
        children: 0,
        below: Seq::empty(),
        key: c.id@,
    }
}

/// The rows of a project: its own, and one for each container.
pub open spec fn project_rows(
    cs: Seq<Container>,
    p: Seq<char>,
    index: int,
    running: Seq<(Seq<char>, Seq<char>)>,
) -> Seq<RowV> {
    let ms = members(cs, p);
    seq![project_row(p, index, ms)] + Seq::new(
        ms.len(),
        |i: int| member_row(ms[i], i == ms.len() - 1, running),
    )
}

/// The rows of the first `n` projects.
pub open spec fn grouped(
    cs: Seq<Container>,
    ps: Seq<Seq<char>>,
    n: int,
    running: Seq<(Seq<char>, Seq<char>)>,
) -> Seq<RowV>
    decreases n,
{
    if n <= 0 {
        Seq::empty()
    } else {
        grouped(cs, ps, n - 1, running) + project_rows(cs, ps[n - 1], n - 1, running)
    }
}

/// The row of a container that belongs to no project.
pub open spec fn loose(c: Container, running: Seq<(Seq<char>, Seq<char>)>) -> Option<RowV> {
    if c.project is None {
        Some(flat(cells_for(c.name@, c, running), c.pid, c.id@))
    } else {
        None
    }
}

/// The rows of all containers as a tree: the projects, and then those that belong to none.
pub open spec fn tree_rows(cs: Seq<Container>, running: Seq<(Seq<char>, Seq<char>)>) -> Seq<RowV> {
    let ps = projects_of(cs);
    grouped(cs, ps, ps.len() as int, running) + picked(cs, |c: Container| loose(c, running))
}

/// Containers behind references, in contracts.
pub open spec fn held_by(v: Seq<&Container>) -> Seq<Container> {
    Seq::new(v.len(), |i: int| *v[i])
}

fn has_text(v: &Vec<String>, t: &str) -> (r: bool)
    ensures
        r == views(v@).contains(t@),
{
    for i in 0..v.len()
        invariant
            forall|j: int| 0 <= j < i ==> #[trigger] views(v@)[j] != t@,
    {
        assert(views(v@)[i as int] == v@[i as int]@);
        if same(v[i].as_str(), t) {
            return true;
        }
    }
    false
}

fn list_projects(cs: &Vec<Container>) -> (r: Vec<String>)
    ensures
        views(r@) == projects_of(cs@),
        r@.len() <= cs@.len(),
{
    let mut r: Vec<String> = Vec::new();
    assert(cs@.take(0) =~= Seq::empty());
    assert(views(r@) =~= Seq::empty());
    for i in 0..cs.len()
        invariant
            views(r@) == projects_of(cs@.take(i as int)),
            r@.len() <= i,
    {
        assert(cs@.take(i + 1).drop_last() =~= cs@.take(i as int));
        assert(cs@.take(i + 1).last() == cs@[i as int]);
        match &cs[i].project {
            Some(p) => {
                if !has_text(&r, p.as_str()) {
                    let ghost before = views(r@);
                    r.push(p.clone());
                    assert(views(r@) =~= before.push(p@));
                }
            },
            None => {},
        }
    }
    assert(cs@.take(cs@.len() as int) =~= cs@);
    r
}

fn list_members<'a>(cs: &'a Vec<Container>, p: &str) -> (r: Vec<&'a Container>)
    ensures
        held_by(r@) == members(cs@, p@),
{
    let ghost f = |c: Container| member(c, p@);
    let mut r: Vec<&'a Container> = Vec::new();
    proof {
        lemma_pick_ends(cs@, f);
        assert(held_by(r@) =~= Seq::empty());
    }
    for i in 0..cs.len()
        invariant
            f == (|c: Container| member(c, p@)),
            held_by(r@) == picked(cs@.take(i as int), f),
    {
        proof {
            lemma_pick(cs@, f, i as int);
        }
        let mine = match &cs[i].project {
            Some(q) => same(q.as_str(), p),
            None => false,
        };
        if mine {
            let ghost before = held_by(r@);
            r.push(&cs[i]);
            assert(held_by(r@) =~= before.push(cs@[i as int]));
        }
    }
    r
}

fn write_project(p: &str, index: usize, ms: &Vec<&Container>) -> (r: TableRow)
    requires
        index <= u32::MAX,
    ensures
        row_is(r, project_row(p@, index as int, held_by(ms@))),
{
    let ghost vs = held_by(ms@);
    assert(vs.len() == ms@.len());
    let mut live: usize = 0;
    let mut below: Vec<u32> = Vec::new();
    for i in 0..ms.len()
        invariant
            vs == held_by(ms@),
            live == live_among(vs, i as int),
            live <= i,
            below@ =~= Seq::new(i as nat, |k: int| vs[k].pid),
    {
        assert(vs[i as int] == *ms@[i as int]);
        if ms[i].live {
            live = live + 1;
        }
        below.push(ms[i].pid);
    }
    let n = dec(ms.len() as u64);
    let mut cells: Vec<String> = Vec::new();
    cells.push(p.to_owned());
    cells.push(cat2(n.as_str(), " serviço(s)"));
    cells.push(cat4(dec(live as u64).as_str(), "/", n.as_str(), " no ar"));
    cells.push(String::new());
    cells.push(String::new());
    cells.push(String::new());
    cells.push(String::new());
    proof {
        let want = project_row(p@, index as int, vs).cells;
        assert(views(cells@).len() == 7 && want.len() == 7);
        assert(views(cells@)[3] =~= Seq::empty() && views(cells@)[4] =~= Seq::empty() && views(
            cells@,
        )[5] =~= Seq::empty() && views(cells@)[6] =~= Seq::empty());
        assert(views(cells@) =~= want);
    }
    let r = TableRow {
        cells,
        pid: project_key(index),
        depth: 0,
        is_last_sibling: false,
        guides: Vec::new(),
        child_count: ms.len(),
        descendant_pids: below,
        key: String::new(),
        mark: None,
    };
    proof {
        assert(r.guides@ =~= Seq::empty());
        assert(r.key@ =~= Seq::empty());
        assert(r.descendant_pids@ =~= project_row(p@, index as int, vs).below);
    }
    r
}

fn write_member(c: &Container, last: bool, s: &Snapshot) -> (r: TableRow)
    ensures
        row_is(r, member_row(*c, last, words_of(s.running@))),
{
    let name = match &c.service {
        Some(t) => t.clone(),
        None => c.name.clone(),
    };
    let mut guides: Vec<bool> = Vec::new();
    guides.push(false);
    let r = TableRow {
        cells: write_cells(name, c, s),
        pid: c.pid,
        depth: 1,
        is_last_sibling: last,
        guides,
        child_count: 0,
        descendant_pids: Vec::new(),
        key: c.id.clone(),
        mark: None,
    };
    proof {
        assert(r.guides@ =~= seq![false]);
        assert(r.descendant_pids@ =~= Seq::empty());
    }
    r
}

fn write_loose(c: &Container, s: &Snapshot) -> (r: TableRow)
    ensures
        row_is(r, flat(cells_for(c.name@, *c, words_of(s.running@)), c.pid, c.id@)),
{
    let r = TableRow::keyed(container_cells(c, s), c.pid, c.id.clone());
    proof {
        assert(r.guides@ =~= Seq::empty());
        assert(r.descendant_pids@ =~= Seq::empty());
    }
    r
}

proof fn lemma_rows_push(rows: Seq<TableRow>, vs: Seq<RowV>, r: TableRow, v: RowV)
    requires
        rows_are(rows, vs),
        row_is(r, v),
    ensures
        rows_are(rows.push(r), vs.push(v)),
{
    let a = rows.push(r);
    let b = vs.push(v);
    assert forall|i: int| 0 <= i < a.len() implies row_is(#[trigger] a[i], b[i]) by {
        if i < rows.len() {
            assert(a[i] == rows[i]);
            assert(b[i] == vs[i]);
        }
    }
}

fn add_project(
    rows: &mut Vec<TableRow>,
    s: &Snapshot,
    p: &str,
    index: usize,
    Ghost(done): Ghost<Seq<RowV>>,
)
    requires
        index <= u32::MAX,
        rows_are(old(rows)@, done),
    ensures
        rows_are(
            final(rows)@,
            done + project_rows(s.containers@, p@, index as int, words_of(s.running@)),
        ),
{
    let ms = list_members(&s.containers, p);
    let ghost vs = held_by(ms@);
    let ghost running = words_of(s.running@);
    let ghost all = project_rows(s.containers@, p@, index as int, running);
    let head = write_project(p, index, &ms);
    proof {
        lemma_rows_push(rows@, done, head, project_row(p@, index as int, vs));
    }
    rows.push(head);
    let n: usize = ms.len();
    proof {
        assert(vs.len() == n);
        assert(done.push(project_row(p@, index as int, vs)) =~= done + all.take(1));
    }
    for i in 0..n
        invariant
            n == ms@.len(),
            vs == held_by(ms@),
            vs == members(s.containers@, p@),
            running == words_of(s.running@),
            all == project_rows(s.containers@, p@, index as int, running),
            rows_are(rows@, done + all.take(i + 1)),
    {
        let row = write_member(ms[i], i + 1 == n, s);
        proof {
            assert(vs[i as int] == *ms@[i as int]);
            assert(all[i + 1] == member_row(vs[i as int], i + 1 == n, running));
            lemma_rows_push(rows@, done + all.take(i + 1), row, all[i + 1]);
            assert((done + all.take(i + 1)).push(all[i + 1]) =~= done + all.take(i + 2));
        }
        rows.push(row);
    }
    assert(all.take(n + 1) =~= all);
}

/// The rows of all containers as a tree. Projects come in the order of their first containers.
pub fn grouped_rows(s: &Snapshot) -> (r: Vec<TableRow>)
    requires
        s.containers@.len() <= u32::MAX,
    ensures
        rows_are(r@, tree_rows(s.containers@, words_of(s.running@))),
{
    let ghost cs = s.containers@;
    let ghost running = words_of(s.running@);
    let projects = list_projects(&s.containers);
    let ghost ps = projects_of(cs);
    assert(ps.len() == projects@.len());
    let mut rows: Vec<TableRow> = Vec::new();
    for i in 0..projects.len()
        invariant
            cs == s.containers@,
            running == words_of(s.running@),
            ps == views(projects@),
            projects@.len() <= u32::MAX,
            rows_are(rows@, grouped(cs, ps, i as int, running)),
    {
        assert(ps[i as int] == projects@[i as int]@);
        add_project(
            &mut rows,
            s,
            projects[i].as_str(),
            i,
            Ghost(grouped(cs, ps, i as int, running)),
        );
    }
    let ghost done = grouped(cs, ps, ps.len() as int, running);
    let ghost f = |c: Container| loose(c, running);
    proof {
        lemma_pick_ends(cs, f);
        assert(done + Seq::<RowV>::empty() =~= done);
    }
    for i in 0..s.containers.len()
        invariant
            cs == s.containers@,
            running == words_of(s.running@),
            f == (|c: Container| loose(c, running)),
            rows_are(rows@, done + picked(cs.take(i as int), f)),
    {
        proof {
            lemma_pick(cs, f, i as int);
        }
        if s.containers[i].project.is_none() {
            let row = write_loose(&s.containers[i], s);
            proof {
                let so_far = picked(cs.take(i as int), f);
                let v = loose(cs[i as int], running)->0;
                lemma_rows_push(rows@, done + so_far, row, v);
                assert((done + so_far).push(v) =~= done + so_far.push(v));
            }
            rows.push(row);
        }
    }
    rows
}

// --- every container is in the tree once ---------------------------------------------------------------------

/// How many containers the first `n` projects have.
pub open spec fn total_members(cs: Seq<Container>, ps: Seq<Seq<char>>, n: int) -> nat
    decreases n,
{
    if n <= 0 {
        0
    } else {
        total_members(cs, ps, n - 1) + members(cs, ps[n - 1]).len()
    }
}

/// How many containers belong to no project.
pub open spec fn loose_count(cs: Seq<Container>) -> nat
    decreases cs.len(),
{
    if cs.len() == 0 {
        0
    } else {
        loose_count(cs.drop_last()) + (if cs.last().project is None {
            1nat
        } else {
            0nat
        })
    }
}

proof fn lemma_members_step(cs: Seq<Container>, p: Seq<char>)
    requires
        cs.len() > 0,
    ensures
        members(cs, p).len() == members(cs.drop_last(), p).len() + (if maybe(cs.last().project)
            == Some(p) {
            1nat
        } else {
            0nat
        }),
{
    let f = |c: Container| member(c, p);
    lemma_pick(cs, f, cs.len() - 1);
    assert(cs.take(cs.len() - 1) =~= cs.drop_last());
    assert(cs.take(cs.len() as int) =~= cs);
}

proof fn lemma_projects(cs: Seq<Container>)
    ensures
        projects_of(cs).no_duplicates(),
        forall|i: int|
            0 <= i < cs.len() && (#[trigger] cs[i]).project is Some ==> projects_of(cs).contains(
                maybe(cs[i].project)->0,
            ),
    decreases cs.len(),
{
    if cs.len() > 0 {
        let d = cs.drop_last();
        lemma_projects(d);
        let v = projects_of(d);
        let w = projects_of(cs);
        assert forall|i: int| 0 <= i < cs.len() && (#[trigger] cs[i]).project is Some implies
            w.contains(maybe(cs[i].project)->0) by {
            let q = maybe(cs[i].project)->0;
            if i < d.len() {
                assert(d[i] == cs[i]);
                assert(v.contains(q));
                let k = choose|k: int| 0 <= k < v.len() && v[k] == q;
                assert(w[k] == q);
            } else if !v.contains(q) {
                assert(w[w.len() - 1] == q);
            }
        }
        if w.len() > v.len() {
            let q = maybe(cs.last().project)->0;
            assert forall|i: int, j: int| 0 <= i < w.len() && 0 <= j < w.len() && i != j implies w[i]
                != w[j] by {
                if i < v.len() && j == v.len() {
                    assert(v.contains(v[i]));
                }
                if j < v.len() && i == v.len() {
                    assert(v.contains(v[j]));
                }
            }
        }
    }
}

proof fn lemma_no_members(cs: Seq<Container>, p: Seq<char>)
    requires
        !projects_of(cs).contains(p),
    ensures
        members(cs, p).len() == 0,
    decreases cs.len(),
{
    lemma_projects(cs);
    let f = |c: Container| member(c, p);
    assert forall|i: int| 0 <= i < cs.len() implies f(#[trigger] cs[i]) is None by {
        if cs[i].project is Some {
            assert(projects_of(cs).contains(maybe(cs[i].project)->0));
        }
    }
    lemma_pick_none(cs, f);
}

/// One more container adds to the count of its project, where that is among those counted.
proof fn lemma_total_step(cs: Seq<Container>, ps: Seq<Seq<char>>, n: int)
    requires
        cs.len() > 0,
        0 <= n <= ps.len(),
        ps.no_duplicates(),
    ensures
        total_members(cs, ps, n) == total_members(cs.drop_last(), ps, n) + (if cs.last().project is Some
            && ps.take(n).contains(maybe(cs.last().project)->0) {
            1nat
        } else {
            0nat
        }),
    decreases n,
{
    if n > 0 {
        lemma_total_step(cs, ps, n - 1);
        lemma_members_step(cs, ps[n - 1]);
        if cs.last().project is Some {
            let q = maybe(cs.last().project)->0;
            let a = ps.take(n);
            let b = ps.take(n - 1);
            if ps[n - 1] == q {
                assert(a[n - 1] == q);
                if b.contains(q) {
                    let k = choose|k: int| 0 <= k < b.len() && b[k] == q;
                    assert(ps[k] == ps[n - 1]);
                }
            } else if a.contains(q) {
                let k = choose|k: int| 0 <= k < a.len() && a[k] == q;
                assert(b[k] == q);
            } else if b.contains(q) {
                let k = choose|k: int| 0 <= k < b.len() && b[k] == q;
                assert(a[k] == q);
            }
        }
    }
}

proof fn lemma_total_prefix(cs: Seq<Container>, ps: Seq<Seq<char>>, q: Seq<char>, n: int)
    requires
        0 <= n <= ps.len(),
    ensures
        total_members(cs, ps.push(q), n) == total_members(cs, ps, n),
    decreases n,
{
    if n > 0 {
        lemma_total_prefix(cs, ps, q, n - 1);
    }
}

proof fn lemma_all_counted(cs: Seq<Container>)
    ensures
        total_members(cs, projects_of(cs), projects_of(cs).len() as int) + loose_count(cs)
            == cs.len(),
    decreases cs.len(),
{
    let ps = projects_of(cs);
    if cs.len() > 0 {
        let d = cs.drop_last();
        let v = projects_of(d);
        lemma_all_counted(d);
        lemma_projects(cs);
        lemma_projects(d);
        match maybe(cs.last().project) {
            None => {
                lemma_total_step(cs, ps, ps.len() as int);
            },
            Some(q) => {
                if v.contains(q) {
                    lemma_total_step(cs, ps, ps.len() as int);
                    assert(ps.take(ps.len() as int) =~= ps);
                } else {
                    assert(ps == v.push(q));
                    lemma_total_step(cs, ps, v.len() as int);
                    assert(ps.take(v.len() as int) =~= v);
                    lemma_total_prefix(d, v, q, v.len() as int);
                    lemma_members_step(cs, q);
                    lemma_no_members(d, q);
                }
            },
        }
    }
}

proof fn lemma_grouped_len(
    cs: Seq<Container>,
    ps: Seq<Seq<char>>,
    n: int,
    running: Seq<(Seq<char>, Seq<char>)>,
)
    requires
        0 <= n <= ps.len(),
    ensures
        grouped(cs, ps, n, running).len() == n + total_members(cs, ps, n),
    decreases n,
{
    if n > 0 {
        lemma_grouped_len(cs, ps, n - 1, running);
    }
}

proof fn lemma_loose_len(cs: Seq<Container>, running: Seq<(Seq<char>, Seq<char>)>)
    ensures
        picked(cs, |c: Container| loose(c, running)).len() == loose_count(cs),
    decreases cs.len(),
{
    let f = |c: Container| loose(c, running);
    if cs.len() > 0 {
        lemma_loose_len(cs.drop_last(), running);
        lemma_pick(cs, f, cs.len() - 1);
        assert(cs.take(cs.len() - 1) =~= cs.drop_last());
        assert(cs.take(cs.len() as int) =~= cs);
    }
}

/// The tree leaves no container out and shows none twice: it has one row for each container and
/// one for each project.
pub proof fn lemma_each_container_once(cs: Seq<Container>, running: Seq<(Seq<char>, Seq<char>)>)
    ensures
        tree_rows(cs, running).len() == cs.len() + projects_of(cs).len(),
{
    let ps = projects_of(cs);
    lemma_all_counted(cs);
    lemma_grouped_len(cs, ps, ps.len() as int, running);
    lemma_loose_len(cs, running);
}

// --- the containers ------------------------------------------------------------------------------------------

/// The containers, each with the row it has on its own.
pub open spec fn flat_rows(cs: Seq<Container>, running: Seq<(Seq<char>, Seq<char>)>, n: nat) -> Seq<
    RowV,
> {
    Seq::new(
        n,
        |i: int| flat(cells_for(cs[i].name@, cs[i], running), cs[i].pid, cs[i].id@),
    )
}

/// What the table says of itself: the engine, how many run, and what it cannot see.
pub open spec fn containers_note(s: Snapshot) -> Seq<char> {
    let v = seq![s.engine_label@];
    let v = if s.containers@.len() > 0 {
        v.push(
            decimal(s.totals.running as nat) + " em execução, "@ + decimal(s.totals.stopped as nat)
                + " parado(s)"@,
        )
    } else {
        v
    };
    let v = match maybe(s.error) {
        Some(e) => v.push(e),
        None => v,
    };
    joined(v, " · "@)
}

/// The table of containers.
#[derive(Debug)]
pub struct ContainersMonitor {
    pub note: Option<String>,
}

fn write_containers_note(s: &Snapshot) -> (r: String)
    ensures
        r@ == containers_note(*s),
{
    let mut v: Vec<String> = Vec::new();
    v.push(s.engine_label.clone());
    let ghost a = seq![s.engine_label@];
    assert(views(v@) =~= a);
    if s.containers.len() > 0 {
        let t = cat4(
            dec(s.totals.running).as_str(),
            " em execução, ",
            dec(s.totals.stopped).as_str(),
            " parado(s)",
        );
        let ghost before = views(v@);
        let ghost y = t@;
        v.push(t);
        assert(views(v@) =~= before.push(y));
    }
    match &s.error {
        Some(e) => {
            let ghost before = views(v@);
            v.push(e.clone());
            assert(views(v@) =~= before.push(e@));
        },
        None => {},
    }
    join(v.as_slice(), " · ")
}

/// The place of the container with an id.
pub open spec fn container_place(cs: Seq<Container>, id: Seq<char>) -> Option<int>
    decreases cs.len(),
{
    if cs.len() == 0 {
        None
    } else {
        match container_place(cs.drop_last(), id) {
            Some(i) => Some(i),
            None => if cs.last().id@ == id {
                Some(cs.len() - 1)
            } else {
                None
            },
        }
    }
}

/// The place of the container with an id.
pub fn find_container(cs: &Vec<Container>, id: &str) -> (r: Option<usize>)
    ensures
        as_place(r) == container_place(cs@, id@),
        r is Some ==> r->0 < cs@.len(),
{
    let mut r: Option<usize> = None;
    assert(cs@.take(0) =~= Seq::empty());
    for i in 0..cs.len()
        invariant
            as_place(r) == container_place(cs@.take(i as int), id@),
            r is Some ==> r->0 < cs@.len(),
    {
        assert(cs@.take(i + 1).drop_last() =~= cs@.take(i as int));
        assert(cs@.take(i + 1).last() == cs@[i as int]);
        if r.is_none() && same(cs[i].id.as_str(), id) {
            r = Some(i);
        }
    }
    assert(cs@.take(cs@.len() as int) =~= cs@);
    r
}

impl ContainersMonitor {
    /// A table that has not been sampled.
    pub fn new() -> (r: ContainersMonitor)
        ensures
            r.note is None,
    {
        ContainersMonitor { note: None }
    }

    /// The rows of the containers: flat where there is room for a few, and as a tree of projects
    /// where there is room for all. Without an engine there is nothing.
    pub fn sample(&mut self, s: Option<&Snapshot>, limit: Option<usize>) -> (r: Vec<TableRow>)
        requires
            s is Some ==> s->0.containers@.len() <= u32::MAX,
        ensures
            (match s {
                None => r@.len() == 0 && *final(self) == *old(self),
                Some(s) => maybe(final(self).note) == Some(containers_note(*s)) && rows_are(
                    r@,
                    match limit {
                        Some(l) => flat_rows(
                            s.containers@,
                            words_of(s.running@),
                            capped(s.containers@.len(), Some(l)),
                        ),
                        None => tree_rows(s.containers@, words_of(s.running@)),
                    },
                ),
            }),
    {
        match s {
            None => Vec::new(),
            Some(s) => {
                self.note = Some(write_containers_note(s));
                match limit {
                    None => grouped_rows(s),
                    Some(l) => {
                        let ghost running = words_of(s.running@);
                        let n: usize = if l < s.containers.len() {
                            l
                        } else {
                            s.containers.len()
                        };
                        let mut rows: Vec<TableRow> = Vec::new();
                        for i in 0..n
                            invariant
                                n <= s.containers@.len(),
                                running == words_of(s.running@),
                                rows_are(rows@, flat_rows(s.containers@, running, i as nat)),
                        {
                            let row = write_loose(&s.containers[i], s);
                            proof {
                                let a = flat_rows(s.containers@, running, i as nat);
                                let c = s.containers@[i as int];
                                let v = flat(cells_for(c.name@, c, running), c.pid, c.id@);
                                lemma_rows_push(rows@, a, row, v);
                                assert(a.push(v) =~= flat_rows(
                                    s.containers@,
                                    running,
                                    (i + 1) as nat,
                                ));
                            }
                            rows.push(row);
                        }
                        rows
                    },
                }
            },
        }
    }

    /// Renews the cells of rows in place, each by the id of its container. A row without an id,
    /// and one whose container is gone, stay as they are.
    pub fn refresh_values(&self, s: &Snapshot, rows: &mut Vec<TableRow>)
        ensures
            final(rows)@.len() == old(rows)@.len(),
            forall|i: int|
                0 <= i < old(rows)@.len() ==> views((#[trigger] final(rows)@[i]).cells@)
                    == renewed_cells(old(rows)@[i], *s) && final(rows)@[i] == (TableRow {
                    cells: final(rows)@[i].cells,
                    ..old(rows)@[i]
                }),
    {
        let n: usize = rows.len();
        for i in 0..n
            invariant
                n == rows@.len(),
                rows@.len() == old(rows)@.len(),
                forall|k: int|
                    0 <= k < i ==> views((#[trigger] rows@[k]).cells@) == renewed_cells(
                        old(rows)@[k],
                        *s,
                    ) && rows@[k] == (TableRow { cells: rows@[k].cells, ..old(rows)@[k] }),
                forall|k: int| i <= k < rows@.len() ==> #[trigger] rows@[k] == old(rows)@[k],
        {
            if !rows[i].key.as_str().is_empty() {
                match find_container(&s.containers, rows[i].key.as_str()) {
                    Some(k) => {
                        let cells = container_cells(&s.containers[k], s);
                        let row = &mut rows[i];
                        row.cells = cells;
                    },
                    None => {},
                }
            }
        }
    }
}

/// The cells of a row of containers now.
pub open spec fn renewed_cells(row: TableRow, s: Snapshot) -> Seq<Seq<char>> {
    match container_place(s.containers@, row.key@) {
        Some(i) => if row.key@.len() > 0 {
            cells_for(s.containers@[i].name@, s.containers@[i], words_of(s.running@))
        } else {
            views(row.cells@)
        },
        None => views(row.cells@),
    }
}

/// How a port reads: the one of this machine before the arrow, the container's own behind it with
/// its protocol, and the address before all only where it is not every address.
pub proof fn lemma_port_text(p: PortMap)
    ensures
        ({
            let inner = decimal(p.container_port as nat) + "/"@ + p.protocol@;
            &&& finishes(p.text(), inner)
            &&& p.host_port is None ==> p.text() == inner
            &&& p.host_port is Some && p.host_ip is None ==> p.text() == decimal(
                p.host_port->0 as nat,
            ) + "→"@ + inner
            &&& p.host_port is Some && p.host_ip is Some && p.host_ip->0@ == "127.0.0.1"@
                ==> p.text() == "127.0.0.1"@ + ":"@ + decimal(p.host_port->0 as nat) + "→"@ + inner
            &&& p.host_port is Some && p.host_ip is Some && (p.host_ip->0@ == "0.0.0.0"@
                || p.host_ip->0@ == "::"@) ==> p.text() == decimal(p.host_port->0 as nat) + "→"@
                + inner
        }),
{
    let inner = decimal(p.container_port as nat) + "/"@ + p.protocol@;
    let t = p.text();
    assert(t.subrange(t.len() - inner.len(), t.len() as int) =~= inner);
    reveal_strlit("127.0.0.1");
    reveal_strlit("0.0.0.0");
    reveal_strlit("::");
    assert("127.0.0.1"@.len() == 9 && "0.0.0.0"@.len() == 7 && "::"@.len() == 2);
}

/// What came in is before the arrow down, and what went out before the one up.
pub proof fn lemma_net_text(c: Container)
    requires
        c.net_rx_rate is Some,
        c.net_tx_rate is Some,
    ensures
        begins(net_text(c), c.net_rx_rate->0.text@ + " ↓ "@),
        finishes(net_text(c), c.net_tx_rate->0.text@ + " ↑"@),
{
    let a = c.net_rx_rate->0.text@ + " ↓ "@;
    let b = c.net_tx_rate->0.text@ + " ↑"@;
    let t = net_text(c);
    assert(t =~= a + b);
    assert(t.subrange(0, a.len() as int) =~= a);
    assert(t.subrange(t.len() - b.len(), t.len() as int) =~= b);
}

/// What is used of the memory comes before what there is of it.
pub proof fn lemma_memory_text(c: Container)
    ensures
        c.memory is Some ==> begins(memory_text(c), human(c.memory->0 as nat)),
        c.memory is Some && c.memory_limit is Some && c.memory_limit->0 > 0 ==> finishes(
            memory_text(c),
            " / "@ + human(c.memory_limit->0 as nat),
        ),
        c.memory is None ==> memory_text(c) == "-"@,
{
    if c.memory is Some {
        let h = human(c.memory->0 as nat);
        let t = memory_text(c);
        assert(t.subrange(0, h.len() as int) =~= h);
        if c.memory_limit is Some && c.memory_limit->0 > 0 {
            let l = " / "@ + human(c.memory_limit->0 as nat);
            assert(t.subrange(t.len() - l.len(), t.len() as int) =~= l);
        }
    }
}

/// The projects of some containers: each that some container is of, and once.
pub proof fn lemma_projects_of(cs: Seq<Container>, p: Seq<char>)
    ensures
        projects_of(cs).no_duplicates(),
        projects_of(cs).contains(p) <==> exists|k: int|
            0 <= k < cs.len() && maybe((#[trigger] cs[k]).project) == Some(p),
    decreases cs.len(),
{
    if cs.len() > 0 {
        let w = cs.drop_last();
        let v = projects_of(w);
        let r = projects_of(cs);
        lemma_projects_of(w, p);
        assert(cs[cs.len() - 1] == cs.last());
        assert forall|k: int| 0 <= k < w.len() implies #[trigger] cs[k] == w[k] by {}
        if v.contains(p) {
            let k = choose|k: int| 0 <= k < w.len() && maybe((#[trigger] w[k]).project) == Some(p);
            assert(maybe(cs[k].project) == Some(p));
            let i = choose|i: int| 0 <= i < v.len() && v[i] == p;
            assert(r[i] == p);
        }
        if r.contains(p) && !v.contains(p) {
            let i = choose|i: int| 0 <= i < r.len() && r[i] == p;
            if i < v.len() {
                assert(v[i] == p);
            }
            assert(maybe(cs[cs.len() - 1].project) == Some(p));
        }
        if exists|k: int| 0 <= k < cs.len() && maybe((#[trigger] cs[k]).project) == Some(p) {
            let k = choose|k: int| 0 <= k < cs.len() && maybe((#[trigger] cs[k]).project) == Some(p);
            if k < w.len() {
                assert(maybe(w[k].project) == Some(p));
            } else if !v.contains(p) {
                assert(r[r.len() - 1] == p);
            }
        }
        match maybe(cs.last().project) {
            Some(q) => {
                if !v.contains(q) {
                    assert forall|i: int, j: int|
                        0 <= i < r.len() && 0 <= j < r.len() && i != j implies r[i] != r[j] by {
                        if i < v.len() {
                            assert(v.contains(v[i]));
                        }
                        if j < v.len() {
                            assert(v.contains(v[j]));
                        }
                    }
                }
            },
            None => {},
        }
    }
}

/// How many of a project run: none more than there are, and all of them where all do.
pub proof fn lemma_live_among(ms: Seq<Container>, n: int)
    requires
        0 <= n <= ms.len(),
    ensures
        live_among(ms, n) <= n,
        live_among(ms, n) == n <==> forall|i: int| 0 <= i < n ==> (#[trigger] ms[i]).live,
        live_among(ms, n) == 0 <==> forall|i: int| 0 <= i < n ==> !(#[trigger] ms[i]).live,
    decreases n,
{
    if n > 0 {
        lemma_live_among(ms, n - 1);
        assert(ms[n - 1].live || !ms[n - 1].live);
    }
}

/// A container is told to be what is being done to it, where something is.
pub proof fn lemma_state_text(c: Container, running: Seq<(Seq<char>, Seq<char>)>)
    ensures
        under(running, c.id@) is None ==> state_text(c, running) == c.state_label@,
        under(running, c.id@) is Some ==> state_text(c, running) == under(running, c.id@)->0 + "…"@,
{
}

/// The first container with an id has it, and none before it does.
pub proof fn lemma_container_place(cs: Seq<Container>, id: Seq<char>)
    ensures
        (match container_place(cs, id) {
            Some(k) => 0 <= k < cs.len() && cs[k].id@ == id && forall|j: int|
                0 <= j < k ==> (#[trigger] cs[j]).id@ != id,
            None => forall|j: int| 0 <= j < cs.len() ==> (#[trigger] cs[j]).id@ != id,
        }),
    decreases cs.len(),
{
    if cs.len() > 0 {
        let t = cs.drop_last();
        lemma_container_place(t, id);
        assert forall|j: int| 0 <= j < t.len() implies #[trigger] cs[j] == t[j] by {}
    }
}

} // verus!
