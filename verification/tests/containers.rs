use monitorzinho::monitor::container_tables::{
    asks, container_detail, subject_of, ContainerSummaryMonitor, ImagesMonitor, NetworksMonitor,
    Subject, VolumesMonitor,
};
use monitorzinho::monitor::containers::{
    age, cpu_cell, grouped_rows, memory_cell, net_cell, ports_cell, project_key, Container,
    ContainersMonitor, Image, Network, PortMap, Rate, Snapshot, Totals, Usage, Volume,
};

fn container() -> Container {
    Container {
        id: String::new(),
        short_id: String::new(),
        name: String::new(),
        image: String::new(),
        command: String::new(),
        project: None,
        service: None,
        created: 0,
        ago: String::new(),
        state_label: String::new(),
        status: String::new(),
        live: false,
        paused: false,
        started_at: String::new(),
        finished_at: String::new(),
        restart_count: 0,
        oom_killed: false,
        pid: 0,
        cpu_percent: None,
        cpu_quota: None,
        memory: None,
        memory_limit: None,
        memory_peak: None,
        throttled: None,
        oom_kills: None,
        cpu_pressure: None,
        memory_pressure: None,
        io_pressure: None,
        net_rx_rate: None,
        net_tx_rate: None,
        ip: None,
        networks: Vec::new(),
        ports: Vec::new(),
        volumes: Vec::new(),
        log_path: None,
        log_size: None,
    }
}

fn named(id: &str, name: &str, project: Option<&str>, live: bool) -> Container {
    Container {
        id: id.to_string(),
        name: name.to_string(),
        image: "postgres:16".to_string(),
        state_label: "rodando".to_string(),
        project: project.map(|p| p.to_string()),
        live,
        ..container()
    }
}

fn snapshot(containers: Vec<Container>) -> Snapshot {
    Snapshot {
        containers,
        volumes: Vec::new(),
        images: Vec::new(),
        networks: Vec::new(),
        running: Vec::new(),
        error: None,
        outcome: None,
        measured: None,
        usage: None,
        totals: Totals {
            running: 0,
            stopped: 0,
            orphan_volumes: 0,
            volumes_size: 0,
            orphan_size: 0,
            images_size: 0,
            dangling: 0,
        },
        engine_label: "Docker".to_string(),
        engine_detail: "Docker 27".to_string(),
        now: 1000,
    }
}

#[test]
fn project_rows_never_collide_with_a_real_pid() {
    assert!(project_key(0) > 10_000_000);
    assert_ne!(project_key(0), project_key(1));
}

#[test]
fn unmeasured_rates_read_as_a_dash_not_a_zero() {
    let container = container();
    assert_eq!(net_cell(&container), "-");
    assert_eq!(cpu_cell(&container), "-");
    assert_eq!(memory_cell(&container), "-");
}

#[test]
fn only_published_ports_reach_the_column() {
    let published = Container {
        ports: vec![
            PortMap {
                container_port: 5432,
                protocol: "tcp".to_string(),
                host_ip: Some("0.0.0.0".to_string()),
                host_port: Some(5433),
            },
            PortMap {
                container_port: 9000,
                protocol: "tcp".to_string(),
                host_ip: None,
                host_port: None,
            },
        ],
        ..container()
    };
    assert_eq!(ports_cell(&published), "5433→5432/tcp");
    assert_eq!(ports_cell(&container()), "-");
}

#[test]
fn memory_shows_the_limit_when_there_is_one() {
    let limited = Container {
        memory: Some(1024 * 1024),
        memory_limit: Some(10 * 1024 * 1024),
        ..container()
    };
    assert_eq!(memory_cell(&limited), "1.0 MB / 10.0 MB");
    let unlimited = Container { memory_limit: None, ..limited };
    assert_eq!(memory_cell(&unlimited), "1.0 MB");
}

#[test]
fn a_port_bound_to_one_address_says_which() {
    let p = PortMap {
        container_port: 80,
        protocol: "tcp".to_string(),
        host_ip: Some("127.0.0.1".to_string()),
        host_port: Some(8080),
    };
    assert_eq!(p.label(), "127.0.0.1:8080→80/tcp");
}

#[test]
fn the_tree_has_a_row_for_each_project_and_each_container() {
    let mut web = named("a", "loja-web", Some("loja"), true);
    web.service = Some("web".to_string());
    let s = snapshot(vec![
        web,
        named("b", "avulso", None, true),
        named("c", "loja-db", Some("loja"), false),
        named("d", "blog-db", Some("blog"), true),
    ]);
    let rows = grouped_rows(&s);
    assert_eq!(rows.len(), 6);
    assert_eq!(rows[0].cells[0], "loja");
    assert_eq!(rows[0].cells[1], "2 serviço(s)");
    assert_eq!(rows[0].cells[2], "1/2 no ar");
    assert_eq!(rows[0].child_count, 2);
    assert_eq!(rows[0].pid, project_key(0));
    assert_eq!(rows[1].cells[0], "web", "o serviço, e não o nome inteiro");
    assert!(!rows[1].is_last_sibling);
    assert_eq!(rows[2].cells[0], "loja-db");
    assert!(rows[2].is_last_sibling);
    assert_eq!(rows[3].cells[0], "blog");
    assert_eq!(rows[5].cells[0], "avulso");
    assert_eq!(rows[5].depth, 0);
}

#[test]
fn a_container_that_something_is_done_to_says_what() {
    let mut s = snapshot(vec![named("a", "web", None, true)]);
    s.running.push(("a".to_string(), "parando".to_string()));
    let mut m = ContainersMonitor::new();
    let mut rows = m.sample(Some(&s), Some(10));
    assert_eq!(rows[0].cells[2], "parando…");
    assert_eq!(m.note.as_deref(), Some("Docker · 0 em execução, 0 parado(s)"));
    s.running.clear();
    m.refresh_values(&s, &mut rows);
    assert_eq!(rows[0].cells[2], "rodando");
    assert!(m.sample(None, None).is_empty());
}

#[test]
fn the_detail_leaves_out_what_nobody_measured() {
    let mut c = named("a", "web", None, true);
    c.created = 900;
    c.ago = "1m".to_string();
    c.log_path = Some("/log".to_string());
    c.log_size = Some(2048);
    c.ip = Some("172.17.0.2".to_string());
    c.ports.push(PortMap {
        container_port: 80,
        protocol: "tcp".to_string(),
        host_ip: None,
        host_port: Some(8080),
    });
    let s = snapshot(Vec::new());
    let d = container_detail(&c, &s, Vec::new());
    let titles: Vec<&str> = d.sections.iter().map(|x| x.title).collect();
    assert_eq!(titles, vec!["Identidade", "Estado", "Rede", "Armazenamento e log"]);
    assert!(d.rates.is_none());
    assert_eq!(d.handoffs[0].tool, "tail");
    assert_eq!(
        asks(&c),
        vec![
            ("porta".to_string(), "127.0.0.1:8080".to_string()),
            ("ip".to_string(), "172.17.0.2".to_string()),
        ]
    );
    c.net_rx_rate = Some(Rate { bits: 1, text: "1 B/s".to_string() });
    c.net_tx_rate = Some(Rate { bits: 2, text: "2 B/s".to_string() });
    assert_eq!(net_cell(&c), "1 B/s ↓ 2 B/s ↑");
    assert_eq!(container_detail(&c, &s, Vec::new()).rates.unwrap().values, (1, 2));
}

#[test]
fn an_age_is_not_made_up() {
    assert_eq!(age(0, 100, "1m"), "-");
    assert_eq!(age(200, 100, "1m"), "agora");
    assert_eq!(age(40, 100, "1m"), "1m");
}

fn volume(name: &str, used_by: &[&str], size: Option<u64>) -> Volume {
    Volume {
        name: name.to_string(),
        driver: "local".to_string(),
        mountpoint: "/v".to_string(),
        created: 0,
        ago: String::new(),
        project: None,
        size,
        used_by: used_by.iter().map(|u| u.to_string()).collect(),
    }
}

#[test]
fn a_volume_nobody_uses_is_an_orphan() {
    let mut s = snapshot(Vec::new());
    s.volumes = vec![volume("dados", &["web", "db"], Some(2048)), volume("velho", &[], None)];
    let mut m = VolumesMonitor::new();
    let mut rows = m.sample(Some(&s), None);
    assert_eq!(rows[0].cells, vec!["dados", "web, db", "2.0 KB", "-"]);
    assert_eq!(rows[1].cells[1], "— órfão");
    assert_eq!(rows[1].cells[2], "medindo…");
    assert_eq!(m.note.as_deref(), Some("2 volumes · medindo tamanhos…"));
    s.volumes[1].size = Some(1024);
    m.refresh_values(&s, &mut rows);
    assert_eq!(rows[1].cells[2], "1.0 KB");
    assert_eq!(m.detail(&s, &rows[1]).unwrap().title, "volume velho");
    assert_eq!(m.sample(Some(&s), Some(1)).len(), 1);
}

#[test]
fn an_image_says_why_nobody_uses_it() {
    let mut s = snapshot(Vec::new());
    let image = |id: &str, dangling: bool| Image {
        id: id.to_string(),
        short_id: id.to_string(),
        name: "nginx".to_string(),
        tags: vec!["nginx:1".to_string(), "nginx:2".to_string()],
        dangling,
        size: 1024,
        created: 0,
        ago: String::new(),
        used_by: Vec::new(),
    };
    s.images = vec![image("a", true), image("b", false)];
    let mut m = ImagesMonitor::new();
    let rows = m.sample(Some(&s), None);
    assert_eq!(rows[0].cells[3], "— solta");
    assert_eq!(rows[1].cells[3], "— sem uso");
    let d = m.detail(&s, &rows[1]).unwrap();
    assert!(d.sections[0].fields.contains(&("Outras tags".to_string(), "nginx:2".to_string())));
}

#[test]
fn a_network_of_the_engine_is_no_rubbish() {
    let mut s = snapshot(Vec::new());
    let network = |id: &str, builtin: bool| Network {
        id: id.to_string(),
        name: "bridge".to_string(),
        driver: "bridge".to_string(),
        scope: "local".to_string(),
        subnet: None,
        internal: false,
        builtin,
        project: None,
        created: 0,
        ago: String::new(),
        used_by: Vec::new(),
    };
    s.networks = vec![network("a", true), network("b", false)];
    let mut m = NetworksMonitor::new();
    let rows = m.sample(Some(&s), None);
    assert_eq!(rows[0].cells, vec!["bridge", "bridge (embutida)", "-", "— vazia"]);
    assert_eq!(m.note.as_deref(), Some("2 redes · 1 embutida(s) · 1 vazia(s)"));
}

#[test]
fn the_summary_counts_and_only_the_engine_opens() {
    let mut s = snapshot(vec![named("a", "web", None, true)]);
    s.usage = Some(Usage { images_size: 2048, containers_size: 1024, build_cache: 0 });
    s.outcome = Some(("feito".to_string(), true));
    let rows = ContainerSummaryMonitor.sample(Some(&s));
    let items: Vec<&str> = rows.iter().map(|r| r.cells[0].as_str()).collect();
    assert_eq!(
        items,
        vec!["Containers", "Imagens", "Volumes", "Redes", "Em disco", "Engine", "Última ação"]
    );
    assert_eq!(rows[1].cells[1], "0 · 2.0 KB em camadas (0.0 B somando) · 0 solta(s)");
    let keyed: Vec<&str> =
        rows.iter().filter(|r| !r.key.is_empty()).map(|r| r.key.as_str()).collect();
    assert_eq!(keyed, vec!["engine"]);
}

#[test]
fn a_row_is_about_one_thing() {
    let mut s = snapshot(vec![named("a", "web", None, true)]);
    s.volumes = vec![volume("a", &[], None)];
    assert_eq!(subject_of(&s, "containers", "a"), Some(Subject::Container(0)));
    assert_eq!(subject_of(&s, "volumes", "a"), Some(Subject::Volume(0)));
    assert_eq!(subject_of(&s, "images", "a"), None);
    assert_eq!(subject_of(&s, "outra", "a"), None);
}
