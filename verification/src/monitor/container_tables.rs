//! What is behind a container, and the tables of volumes, images and networks beside it.

use vstd::prelude::*;
use crate::dict::{lemma_is_place, lemma_place, place, under, words_of};
use crate::number::{dec, decimal, human, human_bytes};
use crate::pick::{lemma_pick, lemma_pick_ends, picked};
use crate::text::{cat2, cat3, cat4, cat5, cat6, join, joined, maybe, same, views};
use crate::monitor::{
    is_leaf, offers_of, sections_of, with_each, with_field, with_some, Detail, DetailSection,
    Handoff, HandoffV, Rates, SectionV, TableRow,
};
use crate::monitor::containers::{
    age, age_text, container_place, find_container, or_dash, Container, Image, Network, PortMap,
    Pressure, Snapshot, Usage, Volume,
};
use crate::monitor::ports::capped;
use crate::monitor::process::as_place;

verus! {

// --- the detail of a container -------------------------------------------------------------------------------

/// The lines that say which container it is.
pub open spec fn container_identity(c: Container, now: i64) -> Seq<(Seq<char>, Seq<char>)> {
    let f = Seq::empty();
    let f = with_field(f, "Nome"@, c.name@);
    let f = with_field(f, "Id"@, c.short_id@);
    let f = with_field(f, "Imagem"@, c.image@);
    let f = with_field(f, "Comando"@, c.command@);
    let f = with_some(f, "Projeto"@, maybe(c.project));
    let f = with_some(f, "Serviço"@, maybe(c.service));
    with_field(f, "Criado há"@, age_text(c.created, now, c.ago@))
}

/// The lines about its state.
pub open spec fn container_state(c: Container) -> Seq<(Seq<char>, Seq<char>)> {
    let f = Seq::empty();
    let f = with_field(f, "Situação"@, c.state_label@);
    let f = with_field(f, "Por extenso"@, c.status@);
    let f = with_field(f, "Subiu em"@, c.started_at@);
    let f = if !c.live {
        with_field(f, "Terminou em"@, c.finished_at@)
    } else {
        f
    };
    let f = if c.restart_count > 0 {
        with_field(f, "Reinícios"@, decimal(c.restart_count as nat))
    } else {
        f
    };
    let f = if c.oom_killed {
        with_field(f, "Morto por falta de memória"@, "sim"@)
    } else {
        f
    };
    if c.pid != 0 {
        with_field(f, "Pid no host"@, decimal(c.pid as nat))
    } else {
        f
    }
}

/// A size, as it reads.
pub open spec fn size_text(n: Option<u64>) -> Option<Seq<char>> {
    match n {
        Some(k) => Some(human(k as nat)),
        None => None,
    }
}

/// A pressure, as it reads: three windows, as one alone does not tell a peak from a problem that
/// lasts.
pub open spec fn pressure_of(p: Option<Pressure>) -> Option<Seq<char>> {
    match p {
        Some(x) => Some(
            x.avg10@ + "% (10s) · "@ + x.avg60@ + "% (1min) · "@ + x.avg300@ + "% (5min)"@,
        ),
        None => None,
    }
}

/// The lines about limits and pressure.
pub open spec fn container_limits(c: Container) -> Seq<(Seq<char>, Seq<char>)> {
    let f = Seq::empty();
    let f = with_some(f, "Teto de CPU"@, maybe(c.cpu_quota));
    let f = with_some(f, "Teto de memória"@, size_text(c.memory_limit));
    let f = with_some(f, "Pico de memória"@, size_text(c.memory_peak));
    let f = match c.throttled {
        Some(t) => if t.0 > 0 {
            with_field(
                f,
                "Freado no teto de CPU"@,
                decimal(t.0 as nat) + "x, "@ + t.1@ + "s parado"@,
            )
        } else {
            f
        },
        None => f,
    };
    let f = match c.oom_kills {
        Some(n) => if n > 0 {
            with_field(f, "Processos mortos por memória"@, decimal(n as nat))
        } else {
            f
        },
        None => f,
    };
    let f = with_some(f, "Pressão de CPU"@, pressure_of(c.cpu_pressure));
    let f = with_some(f, "Pressão de memória"@, pressure_of(c.memory_pressure));
    with_some(f, "Pressão de disco"@, pressure_of(c.io_pressure))
}

/// The lines about the network.
pub open spec fn container_network(c: Container) -> Seq<(Seq<char>, Seq<char>)> {
    let f = Seq::empty();
    let f = with_some(f, "Endereço"@, maybe(c.ip));
    let f = with_field(f, "Redes"@, joined(views(c.networks@), ", "@));
    with_field(
        f,
        "Portas"@,
        joined(Seq::new(c.ports@.len(), |i: int| c.ports@[i].text()), "  "@),
    )
}

/// The lines about storage and log.
pub open spec fn container_storage(c: Container) -> Seq<(Seq<char>, Seq<char>)> {
    let f = with_field(Seq::empty(), "Volumes"@, joined(views(c.volumes@), ", "@));
    match maybe(c.log_path) {
        Some(path) => with_some(
            with_field(f, "Log"@, path),
            "Tamanho do log"@,
            size_text(c.log_size),
        ),
        None => f,
    }
}

/// Sections with one more, where it has something to say.
pub open spec fn with_section(
    v: Seq<SectionV>,
    title: Seq<char>,
    fields: Seq<(Seq<char>, Seq<char>)>,
) -> Seq<SectionV> {
    if fields.len() == 0 {
        v
    } else {
        v.push(SectionV { title, fields })
    }
}

/// The sections of the detail of a container.
pub open spec fn container_sections(c: Container, s: Snapshot) -> Seq<SectionV> {
    let v = seq![
        SectionV { title: "Identidade"@, fields: container_identity(c, s.now) },
        SectionV { title: "Estado"@, fields: container_state(c) },
    ];
    let v = with_section(v, "Limites e pressão"@, container_limits(c));
    let v = with_section(v, "Rede"@, container_network(c));
    let v = with_section(v, "Armazenamento e log"@, container_storage(c));
    match s.outcome {
        Some(x) => v.push(
            SectionV {
                title: "Última ação"@,
                fields: with_field(
                    Seq::empty(),
                    if x.1 {
                        "Resultado"@
                    } else {
                        "Falhou"@
                    },
                    x.0@,
                ),
            },
        ),
        None => v,
    }
}

fn copied(t: &Option<String>) -> (r: Option<String>)
    ensures
        maybe(r) == maybe(*t),
{
    match t {
        Some(s) => Some(s.clone()),
        None => None,
    }
}

fn push_size(s: &mut DetailSection, label: &str, n: Option<u64>)
    ensures
        final(s)@.title == old(s)@.title,
        final(s)@.fields == with_some(old(s)@.fields, label@, size_text(n)),
{
    match n {
        Some(k) => {
            s.push(label, human_bytes(k));
        },
        None => {},
    }
}

/// A pressure, as it reads.
pub fn pressure_text(p: &Pressure) -> (r: String)
    ensures
        Some(r@) == pressure_of(Some(*p)),
{
    cat6(
        p.avg10.as_str(),
        "% (10s) · ",
        p.avg60.as_str(),
        "% (1min) · ",
        p.avg300.as_str(),
        "% (5min)",
    )
}

fn push_pressure(s: &mut DetailSection, label: &str, p: &Option<Pressure>)
    ensures
        final(s)@.title == old(s)@.title,
        final(s)@.fields == with_some(old(s)@.fields, label@, pressure_of(*p)),
{
    match p {
        Some(x) => {
            s.push(label, pressure_text(x));
        },
        None => {},
    }
}

fn identity_section(c: &Container, now: i64) -> (r: DetailSection)
    ensures
        r@ == (SectionV { title: "Identidade"@, fields: container_identity(*c, now) }),
{
    let mut s = DetailSection::new("Identidade");
    s.push("Nome", c.name.clone());
    s.push("Id", c.short_id.clone());
    s.push("Imagem", c.image.clone());
    s.push("Comando", c.command.clone());
    s.push_some("Projeto", copied(&c.project));
    s.push_some("Serviço", copied(&c.service));
    s.push("Criado há", age(c.created, now, c.ago.as_str()));
    s
}

fn state_section(c: &Container) -> (r: DetailSection)
    ensures
        r@ == (SectionV { title: "Estado"@, fields: container_state(*c) }),
{
    let mut s = DetailSection::new("Estado");
    s.push("Situação", c.state_label.clone());
    s.push("Por extenso", c.status.clone());
    s.push("Subiu em", c.started_at.clone());
    if !c.live {
        s.push("Terminou em", c.finished_at.clone());
    }
    if c.restart_count > 0 {
        s.push("Reinícios", dec(c.restart_count));
    }
    if c.oom_killed {
        s.push("Morto por falta de memória", "sim".to_owned());
    }
    if c.pid != 0 {
        s.push("Pid no host", dec(c.pid as u64));
    }
    s
}

fn limits_section(c: &Container) -> (r: DetailSection)
    ensures
        r@ == (SectionV { title: "Limites e pressão"@, fields: container_limits(*c) }),
{
    let mut s = DetailSection::new("Limites e pressão");
    s.push_some("Teto de CPU", copied(&c.cpu_quota));
    push_size(&mut s, "Teto de memória", c.memory_limit);
    push_size(&mut s, "Pico de memória", c.memory_peak);
    match &c.throttled {
        Some(t) => {
            if t.0 > 0 {
                let text = cat4(dec(t.0).as_str(), "x, ", t.1.as_str(), "s parado");
                s.push("Freado no teto de CPU", text);
            }
        },
        None => {},
    }
    match c.oom_kills {
        Some(n) => {
            if n > 0 {
                s.push("Processos mortos por memória", dec(n));
            }
        },
        None => {},
    }
    push_pressure(&mut s, "Pressão de CPU", &c.cpu_pressure);
    push_pressure(&mut s, "Pressão de memória", &c.memory_pressure);
    push_pressure(&mut s, "Pressão de disco", &c.io_pressure);
    s
}

fn list_ports(c: &Container) -> (r: Vec<String>)
    ensures
        views(r@) == Seq::new(c.ports@.len(), |i: int| c.ports@[i].text()),
{
    let mut v: Vec<String> = Vec::new();
    for i in 0..c.ports.len()
        invariant
            views(v@) =~= Seq::new(i as nat, |k: int| c.ports@[k].text()),
    {
        let t = c.ports[i].label();
        let ghost before = views(v@);
        let ghost y = t@;
        v.push(t);
        assert(views(v@) =~= before.push(y));
    }
    v
}

fn network_section(c: &Container) -> (r: DetailSection)
    ensures
        r@ == (SectionV { title: "Rede"@, fields: container_network(*c) }),
{
    let mut s = DetailSection::new("Rede");
    s.push_some("Endereço", copied(&c.ip));
    s.push("Redes", join(c.networks.as_slice(), ", "));
    s.push("Portas", join(list_ports(c).as_slice(), "  "));
    s
}

fn storage_section(c: &Container) -> (r: DetailSection)
    ensures
        r@ == (SectionV { title: "Armazenamento e log"@, fields: container_storage(*c) }),
{
    let mut s = DetailSection::new("Armazenamento e log");
    s.push("Volumes", join(c.volumes.as_slice(), ", "));
    match &c.log_path {
        Some(path) => {
            s.push("Log", path.clone());
            push_size(&mut s, "Tamanho do log", c.log_size);
        },
        None => {},
    }
    s
}

fn add_section(v: &mut Vec<DetailSection>, s: DetailSection)
    ensures
        sections_of(final(v)@) == with_section(sections_of(old(v)@), s@.title, s@.fields),
{
    assert(s@.fields.len() == s.fields@.len());
    if s.fields.len() > 0 {
        let ghost before = sections_of(v@);
        let ghost y = s@;
        v.push(s);
        assert(sections_of(v@) =~= before.push(y));
    }
}

fn outcome_section(message: &str, ok: bool) -> (r: DetailSection)
    ensures
        r@ == (SectionV {
            title: "Última ação"@,
            fields: with_field(
                Seq::empty(),
                if ok {
                    "Resultado"@
                } else {
                    "Falhou"@
                },
                message@,
            ),
        }),
{
    let mut s = DetailSection::new("Última ação");
    if ok {
        s.push("Resultado", message.to_owned());
    } else {
        s.push("Falhou", message.to_owned());
    }
    s
}

/// What other tools are asked for about a container: each published port of this machine, and
/// its address.
pub open spec fn asks_of(c: Container) -> Seq<(Seq<char>, Seq<char>)> {
    let v = picked(c.ports@, |p: PortMap| port_ask(p));
    match maybe(c.ip) {
        Some(ip) => v.push(("ip"@, ip)),
        None => v,
    }
}

/// What is asked about a published port.
pub open spec fn port_ask(p: PortMap) -> Option<(Seq<char>, Seq<char>)> {
    match p.host_port {
        Some(n) => Some(("porta"@, "127.0.0.1:"@ + decimal(n as nat))),
        None => None,
    }
}

/// What other tools are asked for about a container: a kind of finding, and the finding.
pub fn asks(c: &Container) -> (r: Vec<(String, String)>)
    ensures
        words_of(r@) == asks_of(*c),
{
    let ghost f = |p: PortMap| port_ask(p);
    let mut r: Vec<(String, String)> = Vec::new();
    proof {
        lemma_pick_ends(c.ports@, f);
        assert(words_of(r@) =~= Seq::empty());
    }
    for i in 0..c.ports.len()
        invariant
            f == (|p: PortMap| port_ask(p)),
            words_of(r@) == picked(c.ports@.take(i as int), f),
    {
        proof {
            lemma_pick(c.ports@, f, i as int);
        }
        match c.ports[i].host_port {
            Some(n) => {
                let t = cat2("127.0.0.1:", dec(n as u64).as_str());
                let ghost before = words_of(r@);
                let ghost y = t@;
                r.push(("porta".to_owned(), t));
                assert(words_of(r@) =~= before.push(("porta"@, y)));
            },
            None => {},
        }
    }
    match &c.ip {
        Some(ip) => {
            let ghost before = words_of(r@);
            r.push(("ip".to_owned(), ip.clone()));
            assert(words_of(r@) =~= before.push(("ip"@, ip@)));
        },
        None => {},
    }
    r
}

/// The offer to follow the log of a container.
pub open spec fn log_offer(c: Container) -> Option<HandoffV> {
    match maybe(c.log_path) {
        Some(path) => Some(
            HandoffV {
                label: "seguir os logs de "@ + c.name@,
                tool: "tail"@,
                params: seq![
                    ("caminho"@, path),
                    ("inicio"@, "fim do arquivo"@),
                    ("formato"@, "JSON por linha"@),
                ],
            },
        ),
        None => None,
    }
}

/// The offers about a container: to follow its log, and then what other tools answered.
pub open spec fn offers_with(first: Option<HandoffV>, rest: Seq<HandoffV>) -> Seq<HandoffV> {
    match first {
        Some(h) => seq![h] + rest,
        None => rest,
    }
}

/// What other tools can do with a container: follow its log, and what they answered about its
/// ports and its address.
pub fn container_handoffs(c: &Container, answered: Vec<Handoff>) -> (r: Vec<Handoff>)
    ensures
        offers_of(r@) == offers_with(log_offer(*c), offers_of(answered@)),
{
    let ghost rest = offers_of(answered@);
    match &c.log_path {
        Some(path) => {
            let mut params: Vec<(&'static str, String)> = Vec::new();
            params.push(("caminho", path.clone()));
            params.push(("inicio", "fim do arquivo".to_owned()));
            params.push(("formato", "JSON por linha".to_owned()));
            let h = Handoff {
                label: cat2("seguir os logs de ", c.name.as_str()),
                tool: "tail",
                params,
            };
            assert(h@.params =~= log_offer(*c)->0.params);
            let ghost y = h@;
            let mut r = answered;
            r.insert(0, h);
            assert(offers_of(r@) =~= seq![y] + rest);
            r
        },
        None => answered,
    }
}

/// All that is known about a container, with what other tools answered about it.
pub fn container_detail(c: &Container, s: &Snapshot, answered: Vec<Handoff>) -> (r: Detail)
    ensures
        r.title@ == c.name@ + " — "@ + c.image@,
        r.gone_note@ == "removido"@,
        sections_of(r.sections@) == container_sections(*c, *s),
        (match (c.net_rx_rate, c.net_tx_rate, r.rates) {
            (Some(rx), Some(tx), Some(x)) => x.values == (rx.bits, tx.bits) && x.labels.0@
                == "Recebido"@ && x.labels.1@ == "Enviado"@,
            (Some(_), Some(_), None) => false,
            (_, _, x) => x is None,
        }),
        offers_of(r.handoffs@) == offers_with(log_offer(*c), offers_of(answered@)),
        r.handoff_title@ == "O que apontar para este container"@,
{
    let mut sections: Vec<DetailSection> = Vec::new();
    sections.push(identity_section(c, s.now));
    sections.push(state_section(c));
    assert(sections_of(sections@) =~= seq![
        SectionV { title: "Identidade"@, fields: container_identity(*c, s.now) },
        SectionV { title: "Estado"@, fields: container_state(*c) },
    ]);
    add_section(&mut sections, limits_section(c));
    add_section(&mut sections, network_section(c));
    add_section(&mut sections, storage_section(c));
    match &s.outcome {
        Some(x) => {
            let ghost before = sections_of(sections@);
            let last = outcome_section(x.0.as_str(), x.1);
            let ghost y = last@;
            sections.push(last);
            assert(sections_of(sections@) =~= before.push(y));
        },
        None => {},
    }
    Detail {
        title: cat3(c.name.as_str(), " — ", c.image.as_str()),
        gone_note: "removido",
        sections,
        rates: match (&c.net_rx_rate, &c.net_tx_rate) {
            (Some(rx), Some(tx)) => Some(
                Rates { labels: ("Recebido", "Enviado"), values: (rx.bits, tx.bits) },
            ),
            _ => None,
        },
        handoffs: container_handoffs(c, answered),
        handoff_title: "O que apontar para este container",
    }
}

// --- tables of things with a key -----------------------------------------------------------------------------

/// Flat rows, each with its key and its cells.
pub open spec fn listed(rows: Seq<TableRow>, v: Seq<(Seq<char>, Seq<Seq<char>>)>) -> bool {
    rows.len() == v.len() && forall|i: int|
        0 <= i < rows.len() ==> is_leaf(#[trigger] rows[i], v[i].1, 0, v[i].0)
}

/// The cells of a row by its key, or those it had where its key is gone.
pub open spec fn cells_now(row: TableRow, v: Seq<(Seq<char>, Seq<Seq<char>>)>) -> Seq<Seq<char>> {
    match under(v, row.key@) {
        Some(c) => c,
        None => views(row.cells@),
    }
}

fn find_key(
    rows: &Vec<TableRow>,
    key: &str,
    Ghost(v): Ghost<Seq<(Seq<char>, Seq<Seq<char>>)>>,
) -> (r: Option<usize>)
    requires
        listed(rows@, v),
    ensures
        (match r {
            Some(i) => place(v, key@) == Some(i as int) && i < rows@.len(),
            None => place(v, key@) is None,
        }),
{
    for i in 0..rows.len()
        invariant
            listed(rows@, v),
            forall|j: int| 0 <= j < i ==> (#[trigger] v[j]).0 != key@,
    {
        assert(is_leaf(rows@[i as int], v[i as int].1, 0, v[i as int].0));
        if same(rows[i].key.as_str(), key) {
            proof {
                lemma_is_place(v, key@, i as int);
            }
            return Some(i);
        }
    }
    proof {
        lemma_place(v, key@);
    }
    None
}

fn copy_cells(v: &Vec<String>) -> (r: Vec<String>)
    ensures
        views(r@) == views(v@),
{
    let mut r: Vec<String> = Vec::new();
    for i in 0..v.len()
        invariant
            views(r@) =~= views(v@).take(i as int),
    {
        let ghost before = views(r@);
        r.push(v[i].clone());
        assert(views(r@) =~= before.push(views(v@)[i as int]));
    }
    assert(views(r@) =~= views(v@));
    r
}

/// Renews the cells of rows in place, each by its key.
fn renew(
    fresh: &Vec<TableRow>,
    rows: &mut Vec<TableRow>,
    Ghost(v): Ghost<Seq<(Seq<char>, Seq<Seq<char>>)>>,
)
    requires
        listed(fresh@, v),
    ensures
        final(rows)@.len() == old(rows)@.len(),
        forall|i: int|
            0 <= i < old(rows)@.len() ==> views((#[trigger] final(rows)@[i]).cells@) == cells_now(
                old(rows)@[i],
                v,
            ) && final(rows)@[i] == (TableRow { cells: final(rows)@[i].cells, ..old(rows)@[i] }),
{
    let n: usize = rows.len();
    for i in 0..n
        invariant
            listed(fresh@, v),
            n == rows@.len(),
            rows@.len() == old(rows)@.len(),
            forall|k: int|
                0 <= k < i ==> views((#[trigger] rows@[k]).cells@) == cells_now(old(rows)@[k], v)
                    && rows@[k] == (TableRow { cells: rows@[k].cells, ..old(rows)@[k] }),
            forall|k: int| i <= k < rows@.len() ==> #[trigger] rows@[k] == old(rows)@[k],
    {
        match find_key(fresh, rows[i].key.as_str(), Ghost(v)) {
            Some(k) => {
                proof {
                    lemma_place(v, rows@[i as int].key@);
                    assert(is_leaf(fresh@[k as int], v[k as int].1, 0, v[k as int].0));
                }
                let cells = copy_cells(&fresh[k].cells);
                let row = &mut rows[i];
                row.cells = cells;
            },
            None => {},
        }
    }
}

proof fn lemma_listed_push(
    rows: Seq<TableRow>,
    v: Seq<(Seq<char>, Seq<Seq<char>>)>,
    r: TableRow,
    x: (Seq<char>, Seq<Seq<char>>),
)
    requires
        listed(rows, v),
        is_leaf(r, x.1, 0, x.0),
    ensures
        listed(rows.push(r), v.push(x)),
{
    let a = rows.push(r);
    let b = v.push(x);
    assert forall|i: int| 0 <= i < a.len() implies is_leaf(#[trigger] a[i], b[i].1, 0, b[i].0) by {
        if i < rows.len() {
            assert(a[i] == rows[i]);
            assert(b[i] == v[i]);
        }
    }
}

fn cap(n: usize, limit: Option<usize>) -> (r: usize)
    ensures
        r == capped(n as nat, limit),
{
    match limit {
        Some(l) => if l < n {
            l
        } else {
            n
        },
        None => n,
    }
}

/// Who uses something, or a word for nobody.
pub open spec fn users_text(used_by: Seq<Seq<char>>, nobody: Seq<char>) -> Seq<char> {
    if used_by.len() == 0 {
        nobody
    } else {
        joined(used_by, ", "@)
    }
}

fn write_users(used_by: &Vec<String>, nobody: &str) -> (r: String)
    ensures
        r@ == users_text(views(used_by@), nobody@),
{
    assert(views(used_by@).len() == used_by@.len());
    if used_by.len() == 0 {
        nobody.to_owned()
    } else {
        join(used_by.as_slice(), ", ")
    }
}

/// Lines for each of those who use something, or one that nobody does.
pub open spec fn user_lines(used_by: Seq<Seq<char>>, nobody: Seq<char>) -> Seq<
    (Seq<char>, Seq<char>),
> {
    if used_by.len() == 0 {
        with_field(Seq::empty(), "Nenhum container"@, nobody)
    } else {
        with_each(Seq::empty(), "Container"@, used_by)
    }
}

fn users_section(title: &'static str, used_by: &Vec<String>, nobody: &str) -> (r: DetailSection)
    ensures
        r@ == (SectionV { title: title@, fields: user_lines(views(used_by@), nobody@) }),
{
    let mut s = DetailSection::new(title);
    assert(views(used_by@).len() == used_by@.len());
    if used_by.len() == 0 {
        s.push("Nenhum container", nobody.to_owned());
    } else {
        s.push_each("Container", used_by);
    }
    s
}

fn pair(a: DetailSection, b: DetailSection) -> (r: Vec<DetailSection>)
    ensures
        sections_of(r@) == seq![a@, b@],
{
    let ghost x = a@;
    let ghost y = b@;
    let mut r: Vec<DetailSection> = Vec::new();
    r.push(a);
    r.push(b);
    assert(sections_of(r@) =~= seq![x, y]);
    r
}

// --- volumes -------------------------------------------------------------------------------------------------

/// The cells of a volume. One that was not measured yet says so: a zero would be a lie.
pub open spec fn volume_cells(v: Volume, now: i64) -> Seq<Seq<char>> {
    seq![
        v.name@,
        users_text(views(v.used_by@), "— órfão"@),
        match v.size {
            Some(n) => human(n as nat),
            None => "medindo…"@,
        },
        age_text(v.created, now, v.ago@),
    ]
}

/// The volumes, each with its name for a key.
pub open spec fn volume_list(s: Snapshot) -> Seq<(Seq<char>, Seq<Seq<char>>)> {
    Seq::new(
        s.volumes@.len(),
        |i: int| (s.volumes@[i].name@, volume_cells(s.volumes@[i], s.now)),
    )
}

/// What the table of volumes says of itself, with the age of the measure: a number of a minute
/// ago is of use, and one that is passed off as now is not.
pub open spec fn volumes_note(s: Snapshot) -> Seq<char> {
    let head = decimal(s.volumes@.len()) + " volumes"@;
    match maybe(s.measured) {
        Some(ago) => head + " · "@ + human(s.totals.volumes_size as nat) + " · "@ + decimal(
            s.totals.orphan_volumes as nat,
        ) + " órfão(s) ("@ + human(s.totals.orphan_size as nat) + " recuperáveis) · medidos há "@
            + ago,
        None => head + " · medindo tamanhos…"@,
    }
}

/// The table of volumes.
#[derive(Debug)]
pub struct VolumesMonitor {
    pub note: Option<String>,
}

fn write_volume(v: &Volume, now: i64) -> (r: TableRow)
    ensures
        is_leaf(r, volume_cells(*v, now), 0, v.name@),
{
    let size = match v.size {
        Some(n) => human_bytes(n),
        None => "medindo…".to_owned(),
    };
    let mut cells: Vec<String> = Vec::new();
    cells.push(v.name.clone());
    cells.push(write_users(&v.used_by, "— órfão"));
    cells.push(size);
    cells.push(age(v.created, now, v.ago.as_str()));
    assert(views(cells@) =~= volume_cells(*v, now));
    TableRow::keyed(cells, 0, v.name.clone())
}

fn write_volumes_note(s: &Snapshot) -> (r: String)
    ensures
        r@ == volumes_note(*s),
{
    let head = cat2(dec(s.volumes.len() as u64).as_str(), " volumes");
    match &s.measured {
        Some(ago) => {
            let a = cat6(
                head.as_str(),
                " · ",
                human_bytes(s.totals.volumes_size).as_str(),
                " · ",
                dec(s.totals.orphan_volumes).as_str(),
                " órfão(s) (",
            );
            cat4(
                a.as_str(),
                human_bytes(s.totals.orphan_size).as_str(),
                " recuperáveis) · medidos há ",
                ago.as_str(),
            )
        },
        None => cat2(head.as_str(), " · medindo tamanhos…"),
    }
}

/// The volume with a name.
pub open spec fn volume_place(v: Seq<Volume>, name: Seq<char>) -> Option<int>
    decreases v.len(),
{
    if v.len() == 0 {
        None
    } else {
        match volume_place(v.drop_last(), name) {
            Some(i) => Some(i),
            None => if v.last().name@ == name {
                Some(v.len() - 1)
            } else {
                None
            },
        }
    }
}

fn find_volume(v: &Vec<Volume>, name: &str) -> (r: Option<usize>)
    ensures
        as_place(r) == volume_place(v@, name@),
        r is Some ==> r->0 < v@.len(),
{
    let mut r: Option<usize> = None;
    assert(v@.take(0) =~= Seq::empty());
    for i in 0..v.len()
        invariant
            as_place(r) == volume_place(v@.take(i as int), name@),
            r is Some ==> r->0 < v@.len(),
    {
        assert(v@.take(i + 1).drop_last() =~= v@.take(i as int));
        assert(v@.take(i + 1).last() == v@[i as int]);
        if r.is_none() && same(v[i].name.as_str(), name) {
            r = Some(i);
        }
    }
    assert(v@.take(v@.len() as int) =~= v@);
    r
}

/// The lines about a volume.
pub open spec fn volume_lines(v: Volume, now: i64) -> Seq<(Seq<char>, Seq<char>)> {
    let f = Seq::empty();
    let f = with_field(f, "Nome"@, v.name@);
    let f = with_field(f, "Driver"@, v.driver@);
    let f = with_field(f, "Caminho no disco"@, v.mountpoint@);
    let f = with_field(f, "Criado há"@, age_text(v.created, now, v.ago@));
    let f = with_some(f, "Projeto"@, maybe(v.project));
    with_some(f, "Tamanho"@, size_text(v.size))
}

fn volume_section(v: &Volume, now: i64) -> (r: DetailSection)
    ensures
        r@ == (SectionV { title: "Volume"@, fields: volume_lines(*v, now) }),
{
    let mut s = DetailSection::new("Volume");
    s.push("Nome", v.name.clone());
    s.push("Driver", v.driver.clone());
    s.push("Caminho no disco", v.mountpoint.clone());
    s.push("Criado há", age(v.created, now, v.ago.as_str()));
    s.push_some("Projeto", copied(&v.project));
    push_size(&mut s, "Tamanho", v.size);
    s
}

/// A detail without rates and offers.
pub open spec fn plain_detail(
    d: Detail,
    title: Seq<char>,
    gone: Seq<char>,
    sections: Seq<SectionV>,
    offers: Seq<char>,
) -> bool {
    &&& d.title@ == title
    &&& d.gone_note@ == gone
    &&& sections_of(d.sections@) == sections
    &&& d.rates is None
    &&& d.handoffs@.len() == 0
    &&& d.handoff_title@ == offers
}

impl VolumesMonitor {
    /// A table that has not been sampled.
    pub fn new() -> (r: VolumesMonitor)
        ensures
            r.note is None,
    {
        VolumesMonitor { note: None }
    }

    /// The rows of the volumes. Without an engine there is nothing.
    pub fn sample(&mut self, s: Option<&Snapshot>, limit: Option<usize>) -> (r: Vec<TableRow>)
        ensures
            (match s {
                None => r@.len() == 0 && *final(self) == *old(self),
                Some(s) => maybe(final(self).note) == Some(volumes_note(*s)) && listed(
                    r@,
                    volume_list(*s).take(capped(s.volumes@.len(), limit) as int),
                ),
            }),
    {
        let mut rows: Vec<TableRow> = Vec::new();
        match s {
            None => {},
            Some(s) => {
                self.note = Some(write_volumes_note(s));
                let n: usize = cap(s.volumes.len(), limit);
                let ghost all = volume_list(*s);
                for i in 0..n
                    invariant
                        n <= s.volumes@.len(),
                        all == volume_list(*s),
                        listed(rows@, all.take(i as int)),
                {
                    let row = write_volume(&s.volumes[i], s.now);
                    proof {
                        lemma_listed_push(rows@, all.take(i as int), row, all[i as int]);
                        assert(all.take(i as int).push(all[i as int]) =~= all.take(i + 1));
                    }
                    rows.push(row);
                }
            },
        }
        rows
    }

    /// Renews the cells of rows in place, each by the name of its volume.
    pub fn refresh_values(&mut self, s: &Snapshot, rows: &mut Vec<TableRow>)
        ensures
            maybe(final(self).note) == Some(volumes_note(*s)),
            final(rows)@.len() == old(rows)@.len(),
            forall|i: int|
                0 <= i < old(rows)@.len() ==> views((#[trigger] final(rows)@[i]).cells@)
                    == cells_now(old(rows)@[i], volume_list(*s)) && final(rows)@[i] == (TableRow {
                    cells: final(rows)@[i].cells,
                    ..old(rows)@[i]
                }),
    {
        let fresh = self.sample(Some(s), None);
        assert(volume_list(*s).take(s.volumes@.len() as int) =~= volume_list(*s));
        renew(&fresh, rows, Ghost(volume_list(*s)));
    }

    /// All that is known about the volume of a row.
    pub fn detail(&self, s: &Snapshot, row: &TableRow) -> (r: Option<Detail>)
        ensures
            (match (r, volume_place(s.volumes@, row.key@)) {
                (Some(d), Some(i)) => ({
                    let v = s.volumes@[i];
                    plain_detail(
                        d,
                        "volume "@ + v.name@,
                        "removido"@,
                        seq![
                            SectionV { title: "Volume"@, fields: volume_lines(v, s.now) },
                            SectionV {
                                title: "Quem usa"@,
                                fields: user_lines(
                                    views(v.used_by@),
                                    "órfão — nada o monta agora"@,
                                ),
                            },
                        ],
                        "O que apontar para este volume"@,
                    )
                }),
                (None, None) => true,
                _ => false,
            }),
    {
        match find_volume(&s.volumes, row.key.as_str()) {
            None => None,
            Some(i) => {
                let v = &s.volumes[i];
                Some(
                    Detail {
                        title: cat2("volume ", v.name.as_str()),
                        gone_note: "removido",
                        sections: pair(
                            volume_section(v, s.now),
                            users_section("Quem usa", &v.used_by, "órfão — nada o monta agora"),
                        ),
                        rates: None,
                        handoffs: Vec::new(),
                        handoff_title: "O que apontar para este volume",
                    },
                )
            },
        }
    }
}

// --- images --------------------------------------------------------------------------------------------------

/// The cells of an image.
pub open spec fn image_cells(m: Image, now: i64) -> Seq<Seq<char>> {
    seq![
        m.name@,
        human(m.size as nat),
        age_text(m.created, now, m.ago@),
        users_text(
            views(m.used_by@),
            if m.dangling {
                "— solta"@
            } else {
                "— sem uso"@
            },
        ),
    ]
}

/// The images, each with its id for a key.
pub open spec fn image_list(s: Snapshot) -> Seq<(Seq<char>, Seq<Seq<char>>)> {
    Seq::new(s.images@.len(), |i: int| (s.images@[i].id@, image_cells(s.images@[i], s.now)))
}

/// What the table of images says of itself.
pub open spec fn images_note(s: Snapshot) -> Seq<char> {
    decimal(s.images@.len()) + " imagens · "@ + human(s.totals.images_size as nat) + " · "@
        + decimal(s.totals.dangling as nat) + " solta(s)"@
}

/// The table of images.
#[derive(Debug)]
pub struct ImagesMonitor {
    pub note: Option<String>,
}

fn write_image(m: &Image, now: i64) -> (r: TableRow)
    ensures
        is_leaf(r, image_cells(*m, now), 0, m.id@),
{
    let nobody = if m.dangling {
        "— solta"
    } else {
        "— sem uso"
    };
    let mut cells: Vec<String> = Vec::new();
    cells.push(m.name.clone());
    cells.push(human_bytes(m.size));
    cells.push(age(m.created, now, m.ago.as_str()));
    cells.push(write_users(&m.used_by, nobody));
    assert(views(cells@) =~= image_cells(*m, now));
    TableRow::keyed(cells, 0, m.id.clone())
}

fn write_images_note(s: &Snapshot) -> (r: String)
    ensures
        r@ == images_note(*s),
{
    cat6(
        dec(s.images.len() as u64).as_str(),
        " imagens · ",
        human_bytes(s.totals.images_size).as_str(),
        " · ",
        dec(s.totals.dangling).as_str(),
        " solta(s)",
    )
}

/// The image with an id.
pub open spec fn image_place(v: Seq<Image>, id: Seq<char>) -> Option<int>
    decreases v.len(),
{
    if v.len() == 0 {
        None
    } else {
        match image_place(v.drop_last(), id) {
            Some(i) => Some(i),
            None => if v.last().id@ == id {
                Some(v.len() - 1)
            } else {
                None
            },
        }
    }
}

fn find_image(v: &Vec<Image>, id: &str) -> (r: Option<usize>)
    ensures
        as_place(r) == image_place(v@, id@),
        r is Some ==> r->0 < v@.len(),
{
    let mut r: Option<usize> = None;
    assert(v@.take(0) =~= Seq::empty());
    for i in 0..v.len()
        invariant
            as_place(r) == image_place(v@.take(i as int), id@),
            r is Some ==> r->0 < v@.len(),
    {
        assert(v@.take(i + 1).drop_last() =~= v@.take(i as int));
        assert(v@.take(i + 1).last() == v@[i as int]);
        if r.is_none() && same(v[i].id.as_str(), id) {
            r = Some(i);
        }
    }
    assert(v@.take(v@.len() as int) =~= v@);
    r
}

/// The lines about an image.
pub open spec fn image_lines(m: Image, now: i64) -> Seq<(Seq<char>, Seq<char>)> {
    let f = Seq::empty();
    let f = with_field(f, "Nome"@, m.name@);
    let f = with_field(f, "Id"@, m.short_id@);
    let f = with_field(f, "Tamanho"@, human(m.size as nat));
    let f = with_field(f, "Criada há"@, age_text(m.created, now, m.ago@));
    if m.tags@.len() > 1 {
        with_field(f, "Outras tags"@, joined(views(m.tags@).skip(1), ", "@))
    } else {
        f
    }
}

fn image_section(m: &Image, now: i64) -> (r: DetailSection)
    ensures
        r@ == (SectionV { title: "Imagem"@, fields: image_lines(*m, now) }),
{
    let mut s = DetailSection::new("Imagem");
    s.push("Nome", m.name.clone());
    s.push("Id", m.short_id.clone());
    s.push("Tamanho", human_bytes(m.size));
    s.push("Criada há", age(m.created, now, m.ago.as_str()));
    if m.tags.len() > 1 {
        let rest = vstd::slice::slice_subrange(m.tags.as_slice(), 1, m.tags.len());
        assert(views(rest@) =~= views(m.tags@).skip(1));
        s.push("Outras tags", join(rest, ", "));
    }
    s
}

impl ImagesMonitor {
    /// A table that has not been sampled.
    pub fn new() -> (r: ImagesMonitor)
        ensures
            r.note is None,
    {
        ImagesMonitor { note: None }
    }

    /// The rows of the images. Without an engine there is nothing.
    pub fn sample(&mut self, s: Option<&Snapshot>, limit: Option<usize>) -> (r: Vec<TableRow>)
        ensures
            (match s {
                None => r@.len() == 0 && *final(self) == *old(self),
                Some(s) => maybe(final(self).note) == Some(images_note(*s)) && listed(
                    r@,
                    image_list(*s).take(capped(s.images@.len(), limit) as int),
                ),
            }),
    {
        let mut rows: Vec<TableRow> = Vec::new();
        match s {
            None => {},
            Some(s) => {
                self.note = Some(write_images_note(s));
                let n: usize = cap(s.images.len(), limit);
                let ghost all = image_list(*s);
                for i in 0..n
                    invariant
                        n <= s.images@.len(),
                        all == image_list(*s),
                        listed(rows@, all.take(i as int)),
                {
                    let row = write_image(&s.images[i], s.now);
                    proof {
                        lemma_listed_push(rows@, all.take(i as int), row, all[i as int]);
                        assert(all.take(i as int).push(all[i as int]) =~= all.take(i + 1));
                    }
                    rows.push(row);
                }
            },
        }
        rows
    }

    /// Renews the cells of rows in place, each by the id of its image.
    pub fn refresh_values(&mut self, s: &Snapshot, rows: &mut Vec<TableRow>)
        ensures
            maybe(final(self).note) == Some(images_note(*s)),
            final(rows)@.len() == old(rows)@.len(),
            forall|i: int|
                0 <= i < old(rows)@.len() ==> views((#[trigger] final(rows)@[i]).cells@)
                    == cells_now(old(rows)@[i], image_list(*s)) && final(rows)@[i] == (TableRow {
                    cells: final(rows)@[i].cells,
                    ..old(rows)@[i]
                }),
    {
        let fresh = self.sample(Some(s), None);
        assert(image_list(*s).take(s.images@.len() as int) =~= image_list(*s));
        renew(&fresh, rows, Ghost(image_list(*s)));
    }

    /// All that is known about the image of a row.
    pub fn detail(&self, s: &Snapshot, row: &TableRow) -> (r: Option<Detail>)
        ensures
            (match (r, image_place(s.images@, row.key@)) {
                (Some(d), Some(i)) => ({
                    let m = s.images@[i];
                    plain_detail(
                        d,
                        "imagem "@ + m.name@,
                        "removida"@,
                        seq![
                            SectionV { title: "Imagem"@, fields: image_lines(m, s.now) },
                            SectionV {
                                title: "Quem usa"@,
                                fields: user_lines(
                                    views(m.used_by@),
                                    if m.dangling {
                                        "solta — sem tag nenhuma"@
                                    } else {
                                        "nada a usa agora, mas ela tem tag"@
                                    },
                                ),
                            },
                        ],
                        "O que apontar para esta imagem"@,
                    )
                }),
                (None, None) => true,
                _ => false,
            }),
    {
        match find_image(&s.images, row.key.as_str()) {
            None => None,
            Some(i) => {
                let m = &s.images[i];
                let nobody = if m.dangling {
                    "solta — sem tag nenhuma"
                } else {
                    "nada a usa agora, mas ela tem tag"
                };
                Some(
                    Detail {
                        title: cat2("imagem ", m.name.as_str()),
                        gone_note: "removida",
                        sections: pair(
                            image_section(m, s.now),
                            users_section("Quem usa", &m.used_by, nobody),
                        ),
                        rates: None,
                        handoffs: Vec::new(),
                        handoff_title: "O que apontar para esta imagem",
                    },
                )
            },
        }
    }
}

// --- networks ------------------------------------------------------------------------------------------------

/// The cells of a network. One that the engine made itself is no rubbish, and says so.
pub open spec fn network_cells(n: Network) -> Seq<Seq<char>> {
    seq![
        n.name@,
        if n.builtin {
            n.driver@ + " (embutida)"@
        } else {
            n.driver@
        },
        or_dash(maybe(n.subnet)),
        users_text(views(n.used_by@), "— vazia"@),
    ]
}

/// The networks, each with its id for a key.
pub open spec fn network_list(s: Snapshot) -> Seq<(Seq<char>, Seq<Seq<char>>)> {
    Seq::new(s.networks@.len(), |i: int| (s.networks@[i].id@, network_cells(s.networks@[i])))
}

/// How many of the first `n` networks the engine made itself.
pub open spec fn builtin_count(v: Seq<Network>, n: int) -> nat
    decreases n,
{
    if n <= 0 {
        0
    } else {
        builtin_count(v, n - 1) + (if v[n - 1].builtin {
            1nat
        } else {
            0nat
        })
    }
}

/// How many of the first `n` networks have nobody on them and were made by someone.
pub open spec fn empty_count(v: Seq<Network>, n: int) -> nat
    decreases n,
{
    if n <= 0 {
        0
    } else {
        empty_count(v, n - 1) + (if v[n - 1].used_by@.len() == 0 && !v[n - 1].builtin {
            1nat
        } else {
            0nat
        })
    }
}

/// What the table of networks says of itself.
pub open spec fn networks_note(s: Snapshot) -> Seq<char> {
    let n = s.networks@.len() as int;
    decimal(s.networks@.len()) + " redes · "@ + decimal(builtin_count(s.networks@, n))
        + " embutida(s) · "@ + decimal(empty_count(s.networks@, n)) + " vazia(s)"@
}

/// The table of networks.
#[derive(Debug)]
pub struct NetworksMonitor {
    pub note: Option<String>,
}

fn write_network(n: &Network) -> (r: TableRow)
    ensures
        is_leaf(r, network_cells(*n), 0, n.id@),
{
    let driver = if n.builtin {
        cat2(n.driver.as_str(), " (embutida)")
    } else {
        n.driver.clone()
    };
    let subnet = match &n.subnet {
        Some(t) => t.clone(),
        None => "-".to_owned(),
    };
    let mut cells: Vec<String> = Vec::new();
    cells.push(n.name.clone());
    cells.push(driver);
    cells.push(subnet);
    cells.push(write_users(&n.used_by, "— vazia"));
    assert(views(cells@) =~= network_cells(*n));
    TableRow::keyed(cells, 0, n.id.clone())
}

fn count_networks(v: &Vec<Network>) -> (r: (usize, usize))
    ensures
        r.0 == builtin_count(v@, v@.len() as int),
        r.1 == empty_count(v@, v@.len() as int),
{
    let mut builtin: usize = 0;
    let mut empty: usize = 0;
    for i in 0..v.len()
        invariant
            builtin == builtin_count(v@, i as int),
            empty == empty_count(v@, i as int),
            builtin <= i,
            empty <= i,
    {
        if v[i].builtin {
            builtin = builtin + 1;
        }
        if v[i].used_by.len() == 0 && !v[i].builtin {
            empty = empty + 1;
        }
    }
    (builtin, empty)
}

fn write_networks_note(s: &Snapshot) -> (r: String)
    ensures
        r@ == networks_note(*s),
{
    let (builtin, empty) = count_networks(&s.networks);
    cat6(
        dec(s.networks.len() as u64).as_str(),
        " redes · ",
        dec(builtin as u64).as_str(),
        " embutida(s) · ",
        dec(empty as u64).as_str(),
        " vazia(s)",
    )
}

/// The network with an id.
pub open spec fn network_place(v: Seq<Network>, id: Seq<char>) -> Option<int>
    decreases v.len(),
{
    if v.len() == 0 {
        None
    } else {
        match network_place(v.drop_last(), id) {
            Some(i) => Some(i),
            None => if v.last().id@ == id {
                Some(v.len() - 1)
            } else {
                None
            },
        }
    }
}

fn find_network(v: &Vec<Network>, id: &str) -> (r: Option<usize>)
    ensures
        as_place(r) == network_place(v@, id@),
        r is Some ==> r->0 < v@.len(),
{
    let mut r: Option<usize> = None;
    assert(v@.take(0) =~= Seq::empty());
    for i in 0..v.len()
        invariant
            as_place(r) == network_place(v@.take(i as int), id@),
            r is Some ==> r->0 < v@.len(),
    {
        assert(v@.take(i + 1).drop_last() =~= v@.take(i as int));
        assert(v@.take(i + 1).last() == v@[i as int]);
        if r.is_none() && same(v[i].id.as_str(), id) {
            r = Some(i);
        }
    }
    assert(v@.take(v@.len() as int) =~= v@);
    r
}

/// The lines about a network.
pub open spec fn network_lines(n: Network, now: i64) -> Seq<(Seq<char>, Seq<char>)> {
    let f = Seq::empty();
    let f = with_field(f, "Nome"@, n.name@);
    let f = with_field(f, "Driver"@, n.driver@);
    let f = with_field(f, "Escopo"@, n.scope@);
    let f = with_some(f, "Sub-rede"@, maybe(n.subnet));
    let f = if n.internal {
        with_field(f, "Interna"@, "sim — sem saída para fora"@)
    } else {
        f
    };
    let f = if n.builtin {
        with_field(f, "Embutida"@, "criada pela própria engine"@)
    } else {
        f
    };
    let f = with_some(f, "Projeto"@, maybe(n.project));
    with_field(f, "Criada há"@, age_text(n.created, now, n.ago@))
}

fn about_network(n: &Network, now: i64) -> (r: DetailSection)
    ensures
        r@ == (SectionV { title: "Rede"@, fields: network_lines(*n, now) }),
{
    let mut s = DetailSection::new("Rede");
    s.push("Nome", n.name.clone());
    s.push("Driver", n.driver.clone());
    s.push("Escopo", n.scope.clone());
    s.push_some("Sub-rede", copied(&n.subnet));
    if n.internal {
        s.push("Interna", "sim — sem saída para fora".to_owned());
    }
    if n.builtin {
        s.push("Embutida", "criada pela própria engine".to_owned());
    }
    s.push_some("Projeto", copied(&n.project));
    s.push("Criada há", age(n.created, now, n.ago.as_str()));
    s
}

impl NetworksMonitor {
    /// A table that has not been sampled.
    pub fn new() -> (r: NetworksMonitor)
        ensures
            r.note is None,
    {
        NetworksMonitor { note: None }
    }

    /// The rows of the networks. Without an engine there is nothing.
    pub fn sample(&mut self, s: Option<&Snapshot>, limit: Option<usize>) -> (r: Vec<TableRow>)
        ensures
            (match s {
                None => r@.len() == 0 && *final(self) == *old(self),
                Some(s) => maybe(final(self).note) == Some(networks_note(*s)) && listed(
                    r@,
                    network_list(*s).take(capped(s.networks@.len(), limit) as int),
                ),
            }),
    {
        let mut rows: Vec<TableRow> = Vec::new();
        match s {
            None => {},
            Some(s) => {
                self.note = Some(write_networks_note(s));
                let n: usize = cap(s.networks.len(), limit);
                let ghost all = network_list(*s);
                for i in 0..n
                    invariant
                        n <= s.networks@.len(),
                        all == network_list(*s),
                        listed(rows@, all.take(i as int)),
                {
                    let row = write_network(&s.networks[i]);
                    proof {
                        lemma_listed_push(rows@, all.take(i as int), row, all[i as int]);
                        assert(all.take(i as int).push(all[i as int]) =~= all.take(i + 1));
                    }
                    rows.push(row);
                }
            },
        }
        rows
    }

    /// Renews the cells of rows in place, each by the id of its network.
    pub fn refresh_values(&mut self, s: &Snapshot, rows: &mut Vec<TableRow>)
        ensures
            maybe(final(self).note) == Some(networks_note(*s)),
            final(rows)@.len() == old(rows)@.len(),
            forall|i: int|
                0 <= i < old(rows)@.len() ==> views((#[trigger] final(rows)@[i]).cells@)
                    == cells_now(old(rows)@[i], network_list(*s)) && final(rows)@[i] == (TableRow {
                    cells: final(rows)@[i].cells,
                    ..old(rows)@[i]
                }),
    {
        let fresh = self.sample(Some(s), None);
        assert(network_list(*s).take(s.networks@.len() as int) =~= network_list(*s));
        renew(&fresh, rows, Ghost(network_list(*s)));
    }

    /// All that is known about the network of a row.
    pub fn detail(&self, s: &Snapshot, row: &TableRow) -> (r: Option<Detail>)
        ensures
            (match (r, network_place(s.networks@, row.key@)) {
                (Some(d), Some(i)) => ({
                    let n = s.networks@[i];
                    plain_detail(
                        d,
                        "rede "@ + n.name@,
                        "removida"@,
                        seq![
                            SectionV { title: "Rede"@, fields: network_lines(n, s.now) },
                            SectionV {
                                title: "Quem está nela"@,
                                fields: user_lines(views(n.used_by@), "vazia"@),
                            },
                        ],
                        "O que apontar para esta rede"@,
                    )
                }),
                (None, None) => true,
                _ => false,
            }),
    {
        match find_network(&s.networks, row.key.as_str()) {
            None => None,
            Some(i) => {
                let n = &s.networks[i];
                Some(
                    Detail {
                        title: cat2("rede ", n.name.as_str()),
                        gone_note: "removida",
                        sections: pair(
                            about_network(n, s.now),
                            users_section("Quem está nela", &n.used_by, "vazia"),
                        ),
                        rates: None,
                        handoffs: Vec::new(),
                        handoff_title: "O que apontar para esta rede",
                    },
                )
            },
        }
    }
}

// --- the summary ---------------------------------------------------------------------------------------------

/// How many of the first `n` containers are paused.
pub open spec fn paused_count(v: Seq<Container>, n: int) -> nat
    decreases n,
{
    if n <= 0 {
        0
    } else {
        paused_count(v, n - 1) + (if v[n - 1].paused {
            1nat
        } else {
            0nat
        })
    }
}

/// The images in the summary: what their layers take, which they share, and the sum of their
/// sizes, which counts a shared layer more than once.
pub open spec fn images_line(s: Snapshot) -> Seq<char> {
    let n = decimal(s.images@.len());
    let size = human(s.totals.images_size as nat);
    let loose = decimal(s.totals.dangling as nat) + " solta(s)"@;
    let layers = match s.usage {
        Some(u) => u.images_size,
        None => 0,
    };
    if layers > 0 {
        n + " · "@ + human(layers as nat) + " em camadas ("@ + size + " somando) · "@ + loose
    } else {
        n + " · "@ + size + " · "@ + loose
    }
}

/// The volumes in the summary.
pub open spec fn volumes_line(s: Snapshot) -> Seq<char> {
    let n = decimal(s.volumes@.len());
    match s.measured {
        Some(_) => n + " · "@ + human(s.totals.volumes_size as nat) + " · "@ + decimal(
            s.totals.orphan_volumes as nat,
        ) + " órfão(s) ("@ + human(s.totals.orphan_size as nat) + ")"@,
        None => n + " · medindo tamanhos…"@,
    }
}

/// What else is on the disk.
pub open spec fn disk_parts(u: Usage) -> Seq<Seq<char>> {
    let v = Seq::empty();
    let v = if u.containers_size > 0 {
        v.push(human(u.containers_size as nat) + " escritos pelos containers"@)
    } else {
        v
    };
    if u.build_cache > 0 {
        v.push(human(u.build_cache as nat) + " de cache de build"@)
    } else {
        v
    }
}

/// The lines of the summary: each item and what is said of it.
pub open spec fn summary_lines(s: Snapshot) -> Seq<(Seq<char>, Seq<char>)> {
    let paused = decimal(paused_count(s.containers@, s.containers@.len() as int));
    let empty = decimal(empty_count(s.networks@, s.networks@.len() as int));
    let v = seq![
        (
            "Containers"@,
            decimal(s.totals.running as nat) + " em execução · "@ + decimal(
                s.totals.stopped as nat,
            ) + " parado(s) · "@ + paused + " pausado(s)"@,
        ),
        ("Imagens"@, images_line(s)),
        ("Volumes"@, volumes_line(s)),
        ("Redes"@, decimal(s.networks@.len()) + " · "@ + empty + " vazia(s)"@),
    ];
    let v = match s.usage {
        Some(u) => if disk_parts(u).len() > 0 {
            v.push(("Em disco"@, joined(disk_parts(u), " · "@)))
        } else {
            v
        },
        None => v,
    };
    let v = v.push(("Engine"@, s.engine_detail@));
    match s.outcome {
        Some(x) => v.push(
            (
                if x.1 {
                    "Última ação"@
                } else {
                    "Última ação falhou"@
                },
                x.0@,
            ),
        ),
        None => v,
    }
}

/// The key of a line of the summary: only that of the engine has one, as only it opens anything.
pub open spec fn summary_key(item: Seq<char>) -> Seq<char> {
    if item == "Engine"@ {
        "engine"@
    } else {
        Seq::empty()
    }
}

/// The rows of the summary.
pub open spec fn summary_rows(rows: Seq<TableRow>, v: Seq<(Seq<char>, Seq<char>)>) -> bool {
    rows.len() == v.len() && forall|i: int|
        0 <= i < rows.len() ==> is_leaf(
            #[trigger] rows[i],
            seq![v[i].0, v[i].1],
            0,
            summary_key(v[i].0),
        )
}

/// The table that sums the others up: counts, and not bytes.
#[derive(Debug)]
pub struct ContainerSummaryMonitor;

fn add_line(
    rows: &mut Vec<TableRow>,
    item: &str,
    value: String,
    Ghost(v): Ghost<Seq<(Seq<char>, Seq<char>)>>,
)
    requires
        summary_rows(old(rows)@, v),
    ensures
        summary_rows(final(rows)@, v.push((item@, value@))),
{
    let ghost before = rows@;
    let ghost y = value@;
    let key = if same(item, "Engine") {
        "engine".to_owned()
    } else {
        String::new()
    };
    assert(key@ =~= summary_key(item@));
    let mut cells: Vec<String> = Vec::new();
    cells.push(item.to_owned());
    cells.push(value);
    assert(views(cells@) =~= seq![item@, y]);
    rows.push(TableRow::keyed(cells, 0, key));
    proof {
        let w = v.push((item@, y));
        assert forall|i: int| 0 <= i < rows@.len() implies is_leaf(
            #[trigger] rows@[i],
            seq![w[i].0, w[i].1],
            0,
            summary_key(w[i].0),
        ) by {
            if i < before.len() {
                assert(rows@[i] == before[i]);
                assert(w[i] == v[i]);
            }
        }
    }
}

fn count_paused(v: &Vec<Container>) -> (r: usize)
    ensures
        r == paused_count(v@, v@.len() as int),
{
    let mut n: usize = 0;
    for i in 0..v.len()
        invariant
            n == paused_count(v@, i as int),
            n <= i,
    {
        if v[i].paused {
            n = n + 1;
        }
    }
    n
}

fn write_containers_line(s: &Snapshot) -> (r: String)
    ensures
        r@ == decimal(s.totals.running as nat) + " em execução · "@ + decimal(
            s.totals.stopped as nat,
        ) + " parado(s) · "@ + decimal(paused_count(s.containers@, s.containers@.len() as int))
            + " pausado(s)"@,
{
    cat6(
        dec(s.totals.running).as_str(),
        " em execução · ",
        dec(s.totals.stopped).as_str(),
        " parado(s) · ",
        dec(count_paused(&s.containers) as u64).as_str(),
        " pausado(s)",
    )
}

fn write_images_line(s: &Snapshot) -> (r: String)
    ensures
        r@ == images_line(*s),
{
    let n = dec(s.images.len() as u64);
    let size = human_bytes(s.totals.images_size);
    let loose = cat2(dec(s.totals.dangling).as_str(), " solta(s)");
    let layers: u64 = match &s.usage {
        Some(u) => u.images_size,
        None => 0,
    };
    if layers > 0 {
        let a = cat6(
            n.as_str(),
            " · ",
            human_bytes(layers).as_str(),
            " em camadas (",
            size.as_str(),
            " somando) · ",
        );
        cat2(a.as_str(), loose.as_str())
    } else {
        cat5(n.as_str(), " · ", size.as_str(), " · ", loose.as_str())
    }
}

fn write_volumes_line(s: &Snapshot) -> (r: String)
    ensures
        r@ == volumes_line(*s),
{
    let n = dec(s.volumes.len() as u64);
    match &s.measured {
        Some(_) => {
            let a = cat6(
                n.as_str(),
                " · ",
                human_bytes(s.totals.volumes_size).as_str(),
                " · ",
                dec(s.totals.orphan_volumes).as_str(),
                " órfão(s) (",
            );
            cat3(a.as_str(), human_bytes(s.totals.orphan_size).as_str(), ")")
        },
        None => cat2(n.as_str(), " · medindo tamanhos…"),
    }
}

fn write_disk(u: &Usage) -> (r: Vec<String>)
    ensures
        views(r@) == disk_parts(*u),
{
    let mut v: Vec<String> = Vec::new();
    assert(views(v@) =~= Seq::empty());
    if u.containers_size > 0 {
        let t = cat2(human_bytes(u.containers_size).as_str(), " escritos pelos containers");
        let ghost before = views(v@);
        let ghost y = t@;
        v.push(t);
        assert(views(v@) =~= before.push(y));
    }
    if u.build_cache > 0 {
        let t = cat2(human_bytes(u.build_cache).as_str(), " de cache de build");
        let ghost before = views(v@);
        let ghost y = t@;
        v.push(t);
        assert(views(v@) =~= before.push(y));
    }
    v
}

impl ContainerSummaryMonitor {
    /// The rows of the summary. Without an engine there is nothing.
    pub fn sample(&self, s: Option<&Snapshot>) -> (r: Vec<TableRow>)
        ensures
            (match s {
                None => r@.len() == 0,
                Some(s) => summary_rows(r@, summary_lines(*s)),
            }),
    {
        let mut rows: Vec<TableRow> = Vec::new();
        match s {
            None => {},
            Some(s) => {
                let ghost e = Seq::<(Seq<char>, Seq<char>)>::empty();
                let t = write_containers_line(s);
                let ghost a = e.push(("Containers"@, t@));
                add_line(&mut rows, "Containers", t, Ghost(e));
                let t = write_images_line(s);
                let ghost b = a.push(("Imagens"@, t@));
                add_line(&mut rows, "Imagens", t, Ghost(a));
                let t = write_volumes_line(s);
                let ghost c = b.push(("Volumes"@, t@));
                add_line(&mut rows, "Volumes", t, Ghost(b));
                let (_builtin, empty) = count_networks(&s.networks);
                let t = cat4(
                    dec(s.networks.len() as u64).as_str(),
                    " · ",
                    dec(empty as u64).as_str(),
                    " vazia(s)",
                );
                let ghost d = c.push(("Redes"@, t@));
                add_line(&mut rows, "Redes", t, Ghost(c));
                let ghost mut v = d;
                assert(d =~= seq![a[0], b[1], c[2], d[3]]);
                match &s.usage {
                    Some(u) => {
                        let parts = write_disk(u);
                        assert(views(parts@).len() == parts@.len());
                        if parts.len() > 0 {
                            let t = join(parts.as_slice(), " · ");
                            let ghost w = v;
                            proof {
                                v = v.push(("Em disco"@, t@));
                            }
                            add_line(&mut rows, "Em disco", t, Ghost(w));
                        }
                    },
                    None => {},
                }
                let ghost f = v.push(("Engine"@, s.engine_detail@));
                add_line(&mut rows, "Engine", s.engine_detail.clone(), Ghost(v));
                match &s.outcome {
                    Some(x) => {
                        if x.1 {
                            add_line(&mut rows, "Última ação", x.0.clone(), Ghost(f));
                        } else {
                            add_line(&mut rows, "Última ação falhou", x.0.clone(), Ghost(f));
                        }
                    },
                    None => {},
                }
            },
        }
        rows
    }
}

// --- what a row is about -------------------------------------------------------------------------------------

/// What a row of one of these tables is about: the place of a thing in what the engine told.
#[derive(Clone, Copy, PartialEq, Eq, Debug, Structural)]
pub enum Subject {
    Container(usize),
    Volume(usize),
    Image(usize),
    Network(usize),
}

/// What the row with a key of a table is about. Only the table knows what its key means.
pub fn subject_of(s: &Snapshot, table: &str, key: &str) -> (r: Option<Subject>)
    ensures
        (match r {
            Some(Subject::Container(i)) => table@ == "containers"@ && container_place(
                s.containers@,
                key@,
            ) == Some(i as int),
            Some(Subject::Volume(i)) => table@ == "volumes"@ && volume_place(s.volumes@, key@)
                == Some(i as int),
            Some(Subject::Image(i)) => table@ == "images"@ && image_place(s.images@, key@) == Some(
                i as int,
            ),
            Some(Subject::Network(i)) => table@ == "networks"@ && network_place(
                s.networks@,
                key@,
            ) == Some(i as int),
            None => (table@ == "containers"@ ==> container_place(s.containers@, key@) is None) && (
            table@ == "volumes"@ ==> volume_place(s.volumes@, key@) is None) && (table@
                == "images"@ ==> image_place(s.images@, key@) is None) && (table@ == "networks"@
                ==> network_place(s.networks@, key@) is None),
        }),
{
    proof {
        reveal_strlit("containers");
        reveal_strlit("volumes");
        reveal_strlit("images");
        reveal_strlit("networks");
        assert("volumes"@.len() == 7 && "containers"@.len() == 10);
        assert("images"@.len() == 6 && "networks"@.len() == 8);
    }
    if same(table, "containers") {
        match find_container(&s.containers, key) {
            Some(i) => Some(Subject::Container(i)),
            None => None,
        }
    } else if same(table, "volumes") {
        match find_volume(&s.volumes, key) {
            Some(i) => Some(Subject::Volume(i)),
            None => None,
        }
    } else if same(table, "images") {
        match find_image(&s.images, key) {
            Some(i) => Some(Subject::Image(i)),
            None => None,
        }
    } else if same(table, "networks") {
        match find_network(&s.networks, key) {
            Some(i) => Some(Subject::Network(i)),
            None => None,
        }
    } else {
        None
    }
}

} // verus!
