//! The tables of the screen: what each is called, and how its rows are had.

use vstd::prelude::*;
use crate::monitor::{is_leaf, same_row, TableRow};
use crate::monitor::mark::MarkKind;
use crate::monitor::owner::Proc;
use crate::monitor::ports::{capped, port_row, ranked_ports, sample_ports, sockets_of, SocketRow};
use crate::monitor::process::{by_weight, cells_of, countable, own, rows_of, sample_processes, tree};
use crate::monitor::process_detail::IoSampler;
use crate::monitor::ssh::{latest_first, sample_sessions, session_row, sessions_of, Session};

verus! {

/// A tab of the screen.
#[derive(Clone, Copy, PartialEq, Eq, Debug, Structural)]
pub enum Tab {
    Overview,
    Processes,
    Containers,
    Tmux,
    Tools,
    Invest,
}

/// A table.
#[derive(Clone, Copy, PartialEq, Eq, Debug, Structural)]
pub enum Panel {
    Ports,
    Connections,
    TopCpu,
    TopMemory,
    Ssh,
    Interfaces,
    Summary,
    Containers,
    Volumes,
    Images,
    Networks,
    ContainerSummary,
    Modules,
}

/// A kind of mark.
pub open spec fn kind(name: Seq<char>, column: int, numeric: bool, k: MarkKind) -> bool {
    k.name@ == name && k.column == column && k.numeric == numeric
}

impl Panel {
    /// The name that the marks of a table are stored under, which never changes.
    pub open spec fn key(self) -> Seq<char> {
        match self {
            Panel::Ports => "ports"@,
            Panel::Connections => "connections"@,
            Panel::TopCpu => "top-cpu"@,
            Panel::TopMemory => "top-mem"@,
            Panel::Ssh => "ssh"@,
            Panel::Interfaces => "interfaces"@,
            Panel::Summary => "system"@,
            Panel::Containers => "containers"@,
            Panel::Volumes => "volumes"@,
            Panel::Images => "images"@,
            Panel::Networks => "networks"@,
            Panel::ContainerSummary => "resumo-containers"@,
            Panel::Modules => "invest-modulos"@,
        }
    }

    /// The name that the marks of a table are stored under.
    pub fn id(self) -> (r: &'static str)
        ensures
            r@ == self.key(),
    {
        match self {
            Panel::Ports => "ports",
            Panel::Connections => "connections",
            Panel::TopCpu => "top-cpu",
            Panel::TopMemory => "top-mem",
            Panel::Ssh => "ssh",
            Panel::Interfaces => "interfaces",
            Panel::Summary => "system",
            Panel::Containers => "containers",
            Panel::Volumes => "volumes",
            Panel::Images => "images",
            Panel::Networks => "networks",
            Panel::ContainerSummary => "resumo-containers",
            Panel::Modules => "invest-modulos",
        }
    }

    /// The heading of a table.
    pub open spec fn heading(self) -> Seq<char> {
        match self {
            Panel::Ports => "Ports"@,
            Panel::Connections => "Connections"@,
            Panel::TopCpu => "Top CPU"@,
            Panel::TopMemory => "Top Memory"@,
            Panel::Ssh => "SSH Sessions"@,
            Panel::Interfaces => "Interfaces"@,
            Panel::Summary => "System Info"@,
            Panel::Containers => "Containers"@,
            Panel::Volumes => "Volumes"@,
            Panel::Images => "Imagens"@,
            Panel::Networks => "Redes"@,
            Panel::ContainerSummary => "Resumo"@,
            Panel::Modules => "Módulos"@,
        }
    }

    /// The heading of a table.
    pub fn title(self) -> (r: &'static str)
        ensures
            r@ == self.heading(),
    {
        match self {
            Panel::Ports => "Ports",
            Panel::Connections => "Connections",
            Panel::TopCpu => "Top CPU",
            Panel::TopMemory => "Top Memory",
            Panel::Ssh => "SSH Sessions",
            Panel::Interfaces => "Interfaces",
            Panel::Summary => "System Info",
            Panel::Containers => "Containers",
            Panel::Volumes => "Volumes",
            Panel::Images => "Imagens",
            Panel::Networks => "Redes",
            Panel::ContainerSummary => "Resumo",
            Panel::Modules => "Módulos",
        }
    }

    /// The tab that a table is on.
    pub open spec fn home(self) -> Tab {
        match self {
            Panel::Containers | Panel::Volumes | Panel::Images | Panel::Networks
            | Panel::ContainerSummary => Tab::Containers,
            Panel::Modules => Tab::Invest,
            _ => Tab::Processes,
        }
    }

    /// The tab that a table is on.
    pub fn tab(self) -> (r: Tab)
        ensures
            r == self.home(),
    {
        match self {
            Panel::Containers => Tab::Containers,
            Panel::Volumes => Tab::Containers,
            Panel::Images => Tab::Containers,
            Panel::Networks => Tab::Containers,
            Panel::ContainerSummary => Tab::Containers,
            Panel::Modules => Tab::Invest,
            _ => Tab::Processes,
        }
    }

    /// Whether the rows of a table can be a tree.
    pub fn tree(self) -> (r: bool)
        ensures
            r == (self is TopCpu || self is TopMemory || self is Containers),
    {
        matches!(self, Panel::TopCpu | Panel::TopMemory | Panel::Containers)
    }

    /// Whether a row opens a menu of what can be done to it, and not its detail.
    pub fn actions_on_enter(self) -> (r: bool)
        ensures
            r == (self is Containers || self is Volumes || self is Images || self is Networks),
    {
        matches!(self, Panel::Containers | Panel::Volumes | Panel::Images | Panel::Networks)
    }

    /// Whether a table has details.
    pub fn has_detail(self) -> (r: bool)
        ensures
            r == !(self is ContainerSummary || self is Modules),
    {
        !matches!(self, Panel::ContainerSummary | Panel::Modules)
    }

    /// What can be marked in a table.
    pub fn mark_kinds(self) -> (r: Vec<MarkKind>)
        ensures
            (match self {
                Panel::Ports => r@.len() == 2 && kind("porta"@, 1, true, r@[0]) && kind(
                    "processo"@,
                    2,
                    false,
                    r@[1],
                ),
                Panel::TopCpu | Panel::TopMemory => r@.len() == 1 && kind(
                    "comando"@,
                    0,
                    false,
                    r@[0],
                ),
                Panel::Ssh => r@.len() == 3 && kind("usuário"@, 0, false, r@[0]) && kind(
                    "origem"@,
                    1,
                    false,
                    r@[1],
                ) && kind("comando"@, 5, false, r@[2]),
                Panel::Interfaces => r@.len() == 1 && kind("interface"@, 0, false, r@[0]),
                Panel::Containers => r@.len() == 4 && kind("container"@, 0, false, r@[0]) && kind(
                    "imagem"@,
                    1,
                    false,
                    r@[1],
                ) && kind("estado"@, 2, false, r@[2]) && kind("porta"@, 3, true, r@[3]),
                Panel::Volumes => r@.len() == 2 && kind("volume"@, 0, false, r@[0]) && kind(
                    "container"@,
                    1,
                    false,
                    r@[1],
                ),
                Panel::Images => r@.len() == 1 && kind("imagem"@, 0, false, r@[0]),
                Panel::Networks => r@.len() == 1 && kind("rede"@, 0, false, r@[0]),
                Panel::Connections | Panel::Summary | Panel::ContainerSummary | Panel::Modules =>
                r@.len() == 0,
            }),
    {
        let mut v: Vec<MarkKind> = Vec::new();
        match self {
            Panel::Ports => {
                v.push(
                    MarkKind {
                        name: "porta",
                        column: 1,
                        numeric: true,
                        help: "o número da porta, exato",
                    },
                );
                v.push(
                    MarkKind {
                        name: "processo",
                        column: 2,
                        numeric: false,
                        help: "trecho do comando, ou uma expressão regular",
                    },
                );
            },
            Panel::TopCpu | Panel::TopMemory => {
                v.push(
                    MarkKind {
                        name: "comando",
                        column: 0,
                        numeric: false,
                        help: "trecho do comando, ou uma expressão regular",
                    },
                );
            },
            Panel::Ssh => {
                v.push(
                    MarkKind {
                        name: "usuário",
                        column: 0,
                        numeric: false,
                        help: "o login, exato ou como expressão regular",
                    },
                );
                v.push(
                    MarkKind {
                        name: "origem",
                        column: 1,
                        numeric: false,
                        help: "de onde a sessão veio",
                    },
                );
                v.push(
                    MarkKind {
                        name: "comando",
                        column: 5,
                        numeric: false,
                        help: "o que a sessão está rodando",
                    },
                );
            },
            Panel::Interfaces => {
                v.push(
                    MarkKind {
                        name: "interface",
                        column: 0,
                        numeric: false,
                        help: "nome da interface, ou uma expressão regular",
                    },
                );
            },
            Panel::Containers => {
                v.push(
                    MarkKind {
                        name: "container",
                        column: 0,
                        numeric: false,
                        help: "Segue um container pelo nome. Um projeto inteiro do compose é o prefixo dele.",
                    },
                );
                v.push(
                    MarkKind {
                        name: "imagem",
                        column: 1,
                        numeric: false,
                        help: "Segue tudo que roda uma imagem — «postgres» pega todas as versões dela.",
                    },
                );
                v.push(
                    MarkKind {
                        name: "estado",
                        column: 2,
                        numeric: false,
                        help: "Segue por estado: «parado» acende toda vez que algum container cair.",
                    },
                );
                v.push(
                    MarkKind {
                        name: "porta",
                        column: 3,
                        numeric: true,
                        help: "Segue quem publica uma porta — acende se outro container passar a expô-la.",
                    },
                );
            },
            Panel::Volumes => {
                v.push(
                    MarkKind {
                        name: "volume",
                        column: 0,
                        numeric: false,
                        help: "Segue um volume pelo nome, ou um projeto inteiro pelo prefixo dele.",
                    },
                );
                v.push(
                    MarkKind {
                        name: "container",
                        column: 1,
                        numeric: false,
                        help: "Segue os volumes de um container — e acende quando ele deixa de usá-los.",
                    },
                );
            },
            Panel::Images => {
                v.push(
                    MarkKind {
                        name: "imagem",
                        column: 0,
                        numeric: false,
                        help: "Segue uma imagem pelo nome — «postgres» pega todas as versões dela.",
                    },
                );
            },
            Panel::Networks => {
                v.push(
                    MarkKind {
                        name: "rede",
                        column: 0,
                        numeric: false,
                        help: "Segue uma rede pelo nome, ou um projeto inteiro pelo prefixo dele.",
                    },
                );
            },
            _ => {},
        }
        v
    }
}

/// No two tables store their marks under one name.
pub proof fn lemma_one_key_each(a: Panel, b: Panel)
    requires
        a != b,
    ensures
        a.key() != b.key(),
{
    reveal_strlit("ports");
    reveal_strlit("connections");
    reveal_strlit("top-cpu");
    reveal_strlit("top-mem");
    reveal_strlit("ssh");
    reveal_strlit("interfaces");
    reveal_strlit("system");
    reveal_strlit("containers");
    reveal_strlit("volumes");
    reveal_strlit("images");
    reveal_strlit("networks");
    reveal_strlit("resumo-containers");
    reveal_strlit("invest-modulos");
    assert("top-cpu"@[4] == 'c' && "top-mem"@[4] == 'm' && "volumes"@[4] == 'm');
    assert("top-mem"@[0] == 't' && "volumes"@[0] == 'v');
    assert("interfaces"@[0] == 'i' && "containers"@[0] == 'c');
    assert("system"@[0] == 's' && "images"@[0] == 'i');
    assert(a.key().len() == b.key().len() ==> a.key()[0] != b.key()[0] || a.key()[4] != b.key()[4]);
}

/// All tables, in the order they are shown.
pub open spec fn panels() -> Seq<Panel> {
    seq![
        Panel::Ports,
        Panel::Connections,
        Panel::TopCpu,
        Panel::TopMemory,
        Panel::Ssh,
        Panel::Interfaces,
        Panel::Summary,
        Panel::Containers,
        Panel::Volumes,
        Panel::Images,
        Panel::Networks,
        Panel::ContainerSummary,
        Panel::Modules,
    ]
}

/// All tables, in the order they are shown.
pub fn all_table_monitors() -> (r: Vec<Panel>)
    ensures
        r@ == panels(),
{
    let mut v: Vec<Panel> = Vec::new();
    v.push(Panel::Ports);
    v.push(Panel::Connections);
    v.push(Panel::TopCpu);
    v.push(Panel::TopMemory);
    v.push(Panel::Ssh);
    v.push(Panel::Interfaces);
    v.push(Panel::Summary);
    v.push(Panel::Containers);
    v.push(Panel::Volumes);
    v.push(Panel::Images);
    v.push(Panel::Networks);
    v.push(Panel::ContainerSummary);
    v.push(Panel::Modules);
    assert(v@ =~= panels());
    v
}

// --- ports ---------------------------------------------------------------------------------------------------

/// The table of listening ports.
#[derive(Debug)]
pub struct PortsMonitor;

impl PortsMonitor {
    /// The table of listening ports.
    pub fn new() -> (r: PortsMonitor)
        ensures
            r == PortsMonitor,
    {
        PortsMonitor
    }

    /// The rows of the listening ports.
    pub fn sample(
        &self,
        ss: &Vec<SocketRow<String>>,
        ps: &Vec<Proc>,
        owners: &Vec<(u64, u32)>,
        limit: Option<usize>,
    ) -> (r: Vec<TableRow>)
        ensures
            ({
                let v = ranked_ports(sockets_of(ss@), ps@, owners@);
                r@.len() == capped(v.len(), limit) && forall|i: int|
                    0 <= i < r@.len() ==> port_row(#[trigger] r@[i], v[i], ps@, owners@)
            }),
    {
        sample_ports(ss, ps, owners, limit)
    }
}

// --- processes -----------------------------------------------------------------------------------------------

/// The table of the processes that use the processors the most.
#[derive(Debug)]
pub struct TopCpuMonitor {
    pub io: IoSampler,
}

/// The table of the processes that use memory the most.
#[derive(Debug)]
pub struct TopMemMonitor {
    pub io: IoSampler,
}

/// The rows of a table of processes.
pub open spec fn process_rows(r: Seq<TableRow>, ps: Seq<Proc>, limit: Option<usize>) -> bool {
    match limit {
        Some(n) => ({
            let v = by_weight(ps, own(ps, ps.len() as int));
            r.len() == capped(v.len(), Some(n)) && forall|i: int|
                0 <= i < r.len() ==> is_leaf(
                    #[trigger] r[i],
                    cells_of(ps[v[i]]),
                    ps[v[i]].pid,
                    Seq::empty(),
                )
        }),
        None => rows_of(r, ps, tree(ps)),
    }
}

impl TopCpuMonitor {
    /// A table that has read nothing.
    pub fn new() -> (r: TopCpuMonitor)
        ensures
            r.io.last is None,
    {
        TopCpuMonitor { io: IoSampler::new() }
    }

    /// The rows, by processes weighed by their use of the processors.
    pub fn sample(&self, ps: &Vec<Proc>, limit: Option<usize>) -> (r: Vec<TableRow>)
        requires
            countable(ps@),
        ensures
            process_rows(r@, ps@, limit),
    {
        sample_processes(ps, limit)
    }
}

impl TopMemMonitor {
    /// A table that has read nothing.
    pub fn new() -> (r: TopMemMonitor)
        ensures
            r.io.last is None,
    {
        TopMemMonitor { io: IoSampler::new() }
    }

    /// The rows, by processes weighed by their use of memory.
    pub fn sample(&self, ps: &Vec<Proc>, limit: Option<usize>) -> (r: Vec<TableRow>)
        requires
            countable(ps@),
        ensures
            process_rows(r@, ps@, limit),
    {
        sample_processes(ps, limit)
    }
}

// --- sessions ------------------------------------------------------------------------------------------------

/// The table of SSH sessions.
#[derive(Debug)]
pub struct SshSessionsMonitor;

impl SshSessionsMonitor {
    /// The rows of the sessions.
    pub fn sample(
        &self,
        ps: &Vec<Proc>,
        v: &Vec<Session<String>>,
        ages: &Vec<String>,
        stats: &Vec<(u32, String)>,
        limit: Option<usize>,
    ) -> (r: Vec<TableRow>)
        requires
            ps@.len() < usize::MAX,
            ages@.len() == v@.len(),
        ensures
            ({
                let o = latest_first(ps@, sessions_of(v@));
                r@.len() == capped(o.len(), limit) && forall|i: int|
                    0 <= i < r@.len() ==> session_row(
                        #[trigger] r@[i],
                        ps@,
                        v@[o[i]]@,
                        stats@,
                        ages@[o[i]]@,
                    )
            }),
    {
        sample_sessions(ps, v, ages, stats, limit)
    }
}

// --- modules -------------------------------------------------------------------------------------------------

/// The table of modules. Its rows come ready from outside: to sample it costs a copy.
#[derive(Debug)]
pub struct ModulesMonitor {
    pub linhas: Vec<TableRow>,
}

impl ModulesMonitor {
    /// A table without rows.
    pub fn new() -> (r: ModulesMonitor)
        ensures
            r.linhas@.len() == 0,
    {
        ModulesMonitor { linhas: Vec::new() }
    }

    /// Gives the table its rows.
    pub fn feed(&mut self, linhas: Vec<TableRow>)
        ensures
            final(self).linhas == linhas,
    {
        self.linhas = linhas;
    }

    /// The tab that the table is on.
    pub fn tab(&self) -> (r: Tab)
        ensures
            r == Panel::Modules.home(),
    {
        Panel::Modules.tab()
    }

    /// The rows, up to a limit.
    pub fn sample(&self, limit: Option<usize>) -> (r: Vec<TableRow>)
        ensures
            r@.len() == capped(self.linhas@.len(), limit),
            forall|i: int| 0 <= i < r@.len() ==> same_row(#[trigger] r@[i], self.linhas@[i]),
    {
        let n: usize = match limit {
            Some(l) => if l < self.linhas.len() {
                l
            } else {
                self.linhas.len()
            },
            None => self.linhas.len(),
        };
        let mut r: Vec<TableRow> = Vec::new();
        for i in 0..n
            invariant
                n <= self.linhas@.len(),
                r@.len() == i,
                forall|k: int| 0 <= k < i ==> same_row(#[trigger] r@[k], self.linhas@[k]),
        {
            r.push(self.linhas[i].copied());
        }
        r
    }
}

} // verus!
