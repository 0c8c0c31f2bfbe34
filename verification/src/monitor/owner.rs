//! Processes as the tables see them, and what is said about the one behind a row.

use vstd::prelude::*;
use crate::number::{dec, decimal};
use crate::pick::picked;
use crate::text::{cat2, cat4, cat5, join, joined, maybe, views};
use crate::monitor::{with_field, with_some, Danger, DetailSection, SectionV, TableRow};

verus! {

/// How many processes are named in a confirmation before the rest becomes a number.
pub const MAX_NAMED_VICTIMS: usize = 6;

/// A process.
#[derive(Debug)]
pub struct Proc {
    pub pid: u32,
    pub parent: Option<u32>,
    /// It is a thread, which the kernel lists as if it were a process.
    pub thread: bool,
    pub name: String,
    /// The whole command line.
    pub command: String,
    /// For how many seconds it has run, and how that reads.
    pub run_time: u64,
    pub age: String,
    /// What it uses, as it reads, and a number that orders processes by it.
    pub usage: String,
    pub weight: u64,
    /// Its share of the processors as a bit pattern, which orders as the share does, and how it
    /// reads.
    pub cpu: u32,
    pub load: String,
    /// When it started, in seconds.
    pub start: u64,
    /// The directory it is in.
    pub cwd: Option<String>,
}

/// The command line of a process, or its name where it has none.
pub fn command_of(cmd: &Vec<String>, name: &str) -> (r: String)
    ensures
        r@ == (if cmd@.len() == 0 {
            name@
        } else {
            joined(views(cmd@), " "@)
        }),
{
    if cmd.len() == 0 {
        name.to_owned()
    } else {
        join(cmd.as_slice(), " ")
    }
}

/// The first process with a pid.
pub open spec fn place_of(ps: Seq<Proc>, pid: u32) -> Option<int>
    decreases ps.len(),
{
    if ps.len() == 0 {
        None
    } else {
        match place_of(ps.drop_last(), pid) {
            Some(i) => Some(i),
            None => if ps.last().pid == pid {
                Some(ps.len() - 1)
            } else {
                None
            },
        }
    }
}

/// What `place_of` finds.
pub proof fn lemma_place_of(ps: Seq<Proc>, pid: u32)
    ensures
        (match place_of(ps, pid) {
            Some(i) => 0 <= i < ps.len() && ps[i].pid == pid && forall|j: int|
                0 <= j < i ==> (#[trigger] ps[j]).pid != pid,
            None => forall|j: int| 0 <= j < ps.len() ==> (#[trigger] ps[j]).pid != pid,
        }),
    decreases ps.len(),
{
    if ps.len() > 0 {
        lemma_place_of(ps.drop_last(), pid);
        assert(forall|j: int| 0 <= j < ps.len() - 1 ==> ps.drop_last()[j] == #[trigger] ps[j]);
    }
}

/// The place of the first process with a pid.
pub fn find_proc(ps: &Vec<Proc>, pid: u32) -> (r: Option<usize>)
    ensures
        (match r {
            Some(i) => place_of(ps@, pid) == Some(i as int) && i < ps@.len(),
            None => place_of(ps@, pid) is None,
        }),
{
    for i in 0..ps.len()
        invariant
            forall|j: int| 0 <= j < i ==> (#[trigger] ps@[j]).pid != pid,
    {
        if ps[i].pid == pid {
            proof {
                lemma_place_of(ps@, pid);
            }
            return Some(i);
        }
    }
    proof {
        lemma_place_of(ps@, pid);
    }
    None
}

/// The command and the age of a process; marks for one that is not there.
pub open spec fn owner_cells(ps: Seq<Proc>, pid: u32) -> (Seq<char>, Seq<char>) {
    match place_of(ps, pid) {
        Some(i) => (ps[i].command@, ps[i].age@),
        None => ("?"@, "-"@),
    }
}

/// The command and the age of a process.
pub fn describe_owner(ps: &Vec<Proc>, pid: u32) -> (r: (String, String))
    ensures
        (r.0@, r.1@) == owner_cells(ps@, pid),
{
    match find_proc(ps, pid) {
        Some(i) => (ps[i].command.clone(), ps[i].age.clone()),
        None => ("?".to_owned(), "-".to_owned()),
    }
}

/// What is read about a process only while its detail is open.
#[derive(Debug)]
pub struct Extra {
    /// Its user, as it reads; empty where it is not known.
    pub user: String,
    pub exe: Option<String>,
    pub cwd: Option<String>,
}

/// The lines about the process behind a row.
pub open spec fn owner_lines(p: Option<Proc>, x: Extra, missing: Seq<char>) -> Seq<
    (Seq<char>, Seq<char>),
> {
    let f = Seq::empty();
    match p {
        None => with_field(f, "PID"@, missing),
        Some(p) => {
            let f = with_field(f, "PID"@, decimal(p.pid as nat));
            let f = with_field(f, "Usuário"@, x.user@);
            let f = with_field(f, "Ativo há"@, p.age@);
            let f = with_some(f, "Executável"@, maybe(x.exe));
            let f = with_some(f, "Diretório"@, maybe(x.cwd));
            with_field(f, "Linha de comando"@, p.command@)
        },
    }
}

/// The process at an optional place.
pub open spec fn at(ps: Seq<Proc>, i: Option<int>) -> Option<Proc> {
    match i {
        Some(k) => Some(ps[k]),
        None => None,
    }
}

fn copied(t: &Option<String>) -> (r: Option<String>)
    ensures
        maybe(r) == maybe(*t),
{
    match t {
        Some(s) => Some(s.clone()),
        None => None,
    }
}

/// What every table says about the process behind a row, in the same order. `missing` is said
/// when there is none.
pub fn owner_section(ps: &Vec<Proc>, pid: u32, x: &Extra, missing: &str) -> (r: DetailSection)
    ensures
        r@ == (SectionV {
            title: "Processo"@,
            fields: owner_lines(at(ps@, place_of(ps@, pid)), *x, missing@),
        }),
{
    let mut s = DetailSection::new("Processo");
    match find_proc(ps, pid) {
        None => {
            s.push("PID", missing.to_owned());
        },
        Some(i) => {
            let p = &ps[i];
            proof {
                lemma_place_of(ps@, pid);
            }
            s.push("PID", dec(p.pid as u64));
            s.push("Usuário", x.user.clone());
            s.push("Ativo há", p.age.clone());
            s.push_some("Executável", copied(&x.exe));
            s.push_some("Diretório", copied(&x.cwd));
            s.push("Linha de comando", p.command.clone());
        },
    }
    s
}

// --- what a kill would do -----------------------------------------------------------------------------

/// What is said of any process that is killed.
pub const SEM_VOLTA: &'static str =
    "SIGKILL não pode ser ignorado nem tratado: o processo morre onde estiver, sem gravar nada, sem fechar arquivo nenhum.";

/// The living processes of a list of pids, each as it is named in a confirmation.
pub open spec fn victims(ps: Seq<Proc>, pids: Seq<u32>) -> Seq<Seq<char>>
    decreases pids.len(),
{
    if pids.len() == 0 {
        Seq::empty()
    } else {
        let v = victims(ps, pids.drop_last());
        match place_of(ps, pids.last()) {
            Some(i) => v.push(ps[i].name@ + " ("@ + decimal(pids.last() as nat) + ")"@),
            None => v,
        }
    }
}

/// The line about what dies with a process, where something does.
pub open spec fn victims_line(v: Seq<Seq<char>>) -> Seq<char> {
    let tail = if v.len() > MAX_NAMED_VICTIMS {
        " e mais "@ + decimal((v.len() - MAX_NAMED_VICTIMS) as nat)
    } else {
        Seq::empty()
    };
    let named = if v.len() > MAX_NAMED_VICTIMS {
        v.take(MAX_NAMED_VICTIMS as int)
    } else {
        v
    };
    "Vão junto "@ + decimal(v.len()) + " processo(s) abaixo dele: "@ + joined(named, ", "@) + tail
        + "."@
}

/// The lines of a confirmation.
pub open spec fn danger_lines(
    extra: Seq<Seq<char>>,
    command: Seq<char>,
    v: Seq<Seq<char>>,
) -> Seq<Seq<char>> {
    let l = extra.push("Processo: "@ + command).push(SEM_VOLTA@);
    if v.len() > 0 {
        l.push(victims_line(v))
    } else {
        l
    }
}

/// Names the living processes of a list of pids.
fn name_victims(ps: &Vec<Proc>, pids: &Vec<u32>) -> (r: Vec<String>)
    ensures
        views(r@) == victims(ps@, pids@),
{
    let mut r: Vec<String> = Vec::new();
    assert(pids@.take(0) =~= Seq::empty());
    assert(views(r@) =~= Seq::empty());
    for i in 0..pids.len()
        invariant
            views(r@) == victims(ps@, pids@.take(i as int)),
    {
        assert(pids@.take(i + 1).drop_last() =~= pids@.take(i as int));
        match find_proc(ps, pids[i]) {
            Some(k) => {
                let t = cat4(ps[k].name.as_str(), " (", dec(pids[i] as u64).as_str(), ")");
                let ghost before = r@;
                let ghost y = t@;
                r.push(t);
                assert(views(r@) =~= views(before).push(y));
            },
            None => {},
        }
    }
    assert(pids@.take(pids@.len() as int) =~= pids@);
    r
}

/// Writes the line about what dies with a process.
fn write_victims(v: &Vec<String>) -> (r: String)
    ensures
        r@ == victims_line(views(v@)),
{
    let n: usize = v.len();
    assert(views(v@).len() == n);
    let count = dec(n as u64);
    if n > MAX_NAMED_VICTIMS {
        let first = vstd::slice::slice_subrange(v.as_slice(), 0, MAX_NAMED_VICTIMS);
        assert(views(first@) =~= views(v@).take(MAX_NAMED_VICTIMS as int));
        let names = join(first, ", ");
        let tail = cat2(" e mais ", dec((n - MAX_NAMED_VICTIMS) as u64).as_str());
        let head = cat4("Vão junto ", count.as_str(), " processo(s) abaixo dele: ", names.as_str());
        let r = crate::text::cat3(head.as_str(), tail.as_str(), ".");
        r
    } else {
        let names = join(v.as_slice(), ", ");
        let r = cat5("Vão junto ", count.as_str(), " processo(s) abaixo dele: ", names.as_str(), ".");
        assert(r@ =~= victims_line(views(v@)));
        r
    }
}

/// What killing the process behind a row would do, said before it is done. There is nothing
/// to say where the row has no living process.
pub fn kill_danger(
    ps: &Vec<Proc>,
    row: &TableRow,
    action: &'static str,
    subject: &str,
    extra: Vec<String>,
) -> (r: Option<Danger>)
    ensures
        (match r {
            None => place_of(ps@, row.pid) is None,
            Some(d) => place_of(ps@, row.pid) is Some && d.action@ == action@ && d.title@
                == subject@ + ": "@ + ps@[place_of(ps@, row.pid)->0].name@ + " (pid "@ + decimal(
                row.pid as nat,
            ) + ")?"@ && views(d.lines@) == danger_lines(
                views(extra@),
                ps@[place_of(ps@, row.pid)->0].command@,
                victims(ps@, row.descendant_pids@),
            ),
        }),
{
    match find_proc(ps, row.pid) {
        None => None,
        Some(i) => {
            let p = &ps[i];
            let mut lines = extra;
            let ghost a = views(lines@);
            lines.push(cat2("Processo: ", p.command.as_str()));
            assert(views(lines@) =~= a.push("Processo: "@ + p.command@));
            let ghost b = views(lines@);
            lines.push(SEM_VOLTA.to_owned());
            assert(views(lines@) =~= b.push(SEM_VOLTA@));
            let v = name_victims(ps, &row.descendant_pids);
            assert(views(v@).len() == v@.len());
            if v.len() > 0 {
                let ghost c = views(lines@);
                let t = write_victims(&v);
                let ghost y = t@;
                lines.push(t);
                assert(views(lines@) =~= c.push(y));
            }
            let head = cat5(
                subject,
                ": ",
                p.name.as_str(),
                " (pid ",
                dec(row.pid as u64).as_str(),
            );
            Some(Danger { action, title: cat2(head.as_str(), ")?"), lines })
        },
    }
}

/// The victims of a kill that are named: the living among some pids, as those stand.
pub proof fn lemma_victims(ps: Seq<Proc>, pids: Seq<u32>)
    ensures
        victims(ps, pids) == picked(
            pids,
            |pid: u32|
                match place_of(ps, pid) {
                    Some(i) => Some(ps[i].name@ + " ("@ + decimal(pid as nat) + ")"@),
                    None => None,
                },
        ),
    decreases pids.len(),
{
    if pids.len() > 0 {
        lemma_victims(ps, pids.drop_last());
    }
}

/// A living process is told by its own command and age.
pub proof fn lemma_owner_cells(ps: Seq<Proc>, i: int)
    requires
        0 <= i < ps.len(),
        forall|a: int, b: int|
            0 <= a < b < ps.len() ==> (#[trigger] ps[a]).pid != (#[trigger] ps[b]).pid,
    ensures
        owner_cells(ps, ps[i].pid) == (ps[i].command@, ps[i].age@),
{
    lemma_place_of(ps, ps[i].pid);
    match place_of(ps, ps[i].pid) {
        Some(k) => {
            if k < i {
                assert(ps[k].pid != ps[i].pid);
            } else if i < k {
                assert(ps[i].pid != ps[k].pid);
            }
        },
        None => {},
    }
}

} // verus!
