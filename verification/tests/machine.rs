use monitorzinho::legado::{conteudo, existe_algo, importar, Achado, Conteudo, ARQUIVOS};
use monitorzinho::monitor::owner::Proc;
use monitorzinho::monitor::ports::{Family, Proto, SocketRow};
use monitorzinho::monitor::process::{danger, refresh_rows, sample_processes};
use monitorzinho::monitor::process_detail::{
    build_detail, disk_io, family, sockets_section, state_name, Facts, IoSampler, ProcStatus,
};
use monitorzinho::monitor::summary::{
    board_summary, chassis, current_user, default_gateway, distribution, dns_servers, iso_date,
    machine_summary, os_summary, virtualization,
};
use monitorzinho::monitor::summary_detail::{
    arp_mac, cpuinfo, default_routes, detail_for, groups_of, meminfo, passwd_entry, resolv_conf,
    GpuFacts, Machine, Mount, SummaryMonitor,
};
use monitorzinho::number::{dec, human_bytes, human_bytes_per_sec};

fn proc(pid: u32, parent: Option<u32>, weight: u64, cpu: u32) -> Proc {
    Proc {
        pid,
        parent,
        thread: false,
        name: format!("p{pid}"),
        command: format!("/bin/p{pid}"),
        run_time: 0,
        age: "1m".to_string(),
        usage: format!("{weight}"),
        weight,
        cpu,
        load: "0.0%".to_string(),
        start: 0,
        cwd: None,
    }
}

fn forest() -> Vec<Proc> {
    let mut thread = proc(99, Some(1), 1000, 0);
    thread.thread = true;
    vec![
        proc(1, None, 0, 0),
        proc(2, Some(1), 5, 1),
        proc(3, Some(1), 1, 9),
        proc(4, Some(3), 50, 0),
        proc(5, Some(77), 10, 0),
        thread,
    ]
}

#[test]
fn the_compact_panel_is_flat_and_the_full_one_is_a_tree() {
    let ps = forest();
    let flat = sample_processes(&ps, Some(3));
    assert_eq!(flat.iter().map(|r| r.pid).collect::<Vec<_>>(), vec![4, 5, 2]);
    let tree = sample_processes(&ps, None);
    assert_eq!(tree.iter().map(|r| r.pid).collect::<Vec<_>>(), vec![1, 3, 4, 2, 5]);
    assert_eq!(tree.iter().map(|r| r.depth).collect::<Vec<_>>(), vec![0, 1, 2, 1, 0]);
    assert_eq!(tree[0].child_count, 2);
    assert_eq!(tree[0].descendant_pids, vec![2, 3, 4]);
    assert!(!tree[1].is_last_sibling && tree[3].is_last_sibling && tree[4].is_last_sibling);
    assert_eq!(tree[2].guides, vec![false, false]);
}

#[test]
fn renewing_rows_keeps_their_order() {
    let mut ps = forest();
    let mut rows = sample_processes(&ps, None);
    ps[1].usage = "999".to_string();
    refresh_rows(&ps, &mut rows);
    assert_eq!(rows[3].cells, vec!["/bin/p2", "1m", "999"]);
    assert_eq!(rows.iter().map(|r| r.pid).collect::<Vec<_>>(), vec![1, 3, 4, 2, 5]);
    let d = danger(&ps, &rows[0]).unwrap();
    assert_eq!(d.title, "Matar este processo: p1 (pid 1)?");
    assert!(d.lines[2].contains("p2 (2), p3 (3), p4 (4)"));
    rows[0].pid = 12345;
    assert!(danger(&ps, &rows[0]).is_none());
}

#[test]
fn the_family_of_a_process() {
    let (children, below) = family(&forest(), 1);
    assert_eq!(children, vec![2, 1], "o mais ocupado primeiro");
    assert_eq!(below, 3);
}

#[test]
fn the_status_of_a_process_is_read() {
    let s = ProcStatus::read("Name:\tx\nUid:\t1000\t0\t0\t0\nVmHWM:\t  12 kB\nState:\tD (disk)\n");
    assert_eq!(s.get("Name").as_deref(), Some("x"));
    assert_eq!(s.bytes("VmHWM"), Some(12 * 1024));
    assert_eq!(s.bytes("VmSwap"), None);
    assert_eq!(s.uid(), Some(1000));
    assert_eq!(s.described_user("maria:x:1000:1000::/:/\n"), "maria (uid 1000)");
    assert_eq!(ProcStatus::read("").described_user(""), "");
    assert_eq!(state_name("D (disk)"), "espera ininterrompível (D) — travado em I/O");
    assert_eq!(state_name("?"), "?");
}

#[test]
fn disk_counters_become_what_was_moved() {
    let io = disk_io("rchar: 1\nread_bytes: 100\nwrite_bytes: 50\n");
    assert_eq!(io, Some((100, 50)));
    assert_eq!(disk_io("read_bytes: 100\n"), None);
    let mut s = IoSampler::new();
    assert_eq!(s.rate(1, io, 0).unwrap().ms, 0);
    let d = s.rate(1, Some((300, 40)), 2000).unwrap();
    assert_eq!((d.rx, d.tx, d.ms), (200, 0, 2000));
    assert_eq!(s.rate(2, Some((300, 40)), 3000).unwrap().ms, 0, "outro processo é outra leitura");
    assert!(s.rate(2, None, 4000).is_none());
}

fn socket(port: u16, listens: bool, remote: u16, inode: u64) -> SocketRow<String> {
    SocketRow {
        proto: Proto::Tcp,
        family: Family::V4,
        local_ip: "127.0.0.1".to_string(),
        local_port: port,
        remote_ip: "10.0.0.1".to_string(),
        remote_port: remote,
        state: if listens { 0x0a } else { 0x01 },
        uid: 0,
        inode,
        rx_queue: 0,
        tx_queue: 0,
    }
}

#[test]
fn the_sockets_of_a_process() {
    let mut table = vec![socket(80, true, 0, 1), socket(80, true, 0, 2), socket(81, true, 0, 3)];
    for i in 0..14 {
        table.push(socket(80, false, 5000 + i, 10 + i as u64));
    }
    let mine: Vec<u64> = (1..3).chain(10..24).collect();
    let (s, offers) = sockets_section(&mine, &table).unwrap();
    assert_eq!(s.fields[0], ("Escutando".to_string(), "TCP 127.0.0.1:80".to_string()));
    assert_eq!(s.fields[1].1, "14");
    assert_eq!(s.fields.len(), 2 + 12 + 1);
    assert_eq!(s.fields[14].1, "2 conexão(ões) — veja o painel Connections");
    assert_eq!(offers.len(), 1);
    assert_eq!(offers[0].params[1].1, "127.0.0.1:82");
    assert!(sockets_section(&Vec::new(), &table).is_none());
}

#[test]
fn the_detail_of_a_process() {
    let facts = Facts {
        status: ProcStatus::read("State:\tS\nThreads:\t4\nVmSwap:\t0 kB\n"),
        users: String::new(),
        fds: Some(9),
        oom: Some("300\n".to_string()),
        exe: Some("/bin/p3".to_string()),
        total_memory: 4096,
        share: "25.0%".to_string(),
        memory: 1024,
        virtual_memory: 2048,
        io: None,
        inodes: Vec::new(),
    };
    let d = build_detail(&forest(), 3, &facts, &Vec::new(), Some((1, 2))).unwrap();
    assert_eq!(d.title, "p3 · pid 3");
    assert_eq!(
        d.sections.iter().map(|s| s.title).collect::<Vec<_>>(),
        vec!["Processo", "Comando", "Recursos", "Árvore"]
    );
    let field = |s: usize, l: &str| {
        d.sections[s].fields.iter().find(|f| f.0 == l).map(|f| f.1.clone())
    };
    assert_eq!(field(0, "Pai").as_deref(), Some("1 · /bin/p1"));
    assert_eq!(field(0, "Estado").as_deref(), Some("dormindo"));
    assert_eq!(field(2, "Memória residente").as_deref(), Some("1.0 KB  (25.0% da máquina)"));
    assert_eq!(field(2, "Em swap"), None);
    assert!(field(2, "Disco").unwrap().contains("ilegíveis"));
    assert_eq!(field(3, "4").as_deref(), Some("/bin/p4"));
    assert!(build_detail(&forest(), 1234, &facts, &Vec::new(), None).is_none());
}

fn dmi(pairs: &[(&str, &str)]) -> Vec<(String, String)> {
    pairs.iter().map(|(k, v)| (k.to_string(), v.to_string())).collect()
}

#[test]
fn the_firmware_says_what_the_machine_is() {
    let d = dmi(&[
        ("sys_vendor", "LENOVO\n"),
        ("product_name", "20XW\n"),
        ("chassis_type", "10\n"),
        ("bios_version", "N32\n"),
        ("bios_date", "3/7/2024\n"),
        ("board_name", "To Be Filled By O.E.M.\n"),
    ]);
    assert_eq!(
        machine_summary(&d).as_deref(),
        Some("LENOVO 20XW  ·  notebook  ·  BIOS N32 (2024-03-07)")
    );
    assert_eq!(board_summary(&d), None);
    assert_eq!(chassis(&d).as_deref(), Some("notebook"));
    assert_eq!(machine_summary(&Vec::new()), None);
    let b = dmi(&[("board_name", "X570"), ("board_vendor", "ASUS"), ("product_name", "PC")]);
    assert_eq!(board_summary(&b).as_deref(), Some("ASUS X570"));
    assert_eq!(iso_date("12/31/1999"), "1999-12-31");
    assert_eq!(iso_date("31.12.1999"), "31.12.1999");
    assert_eq!(virtualization(false, &None, &dmi(&[("sys_vendor", "QEMU")])).as_deref(), Some("QEMU"));
    assert_eq!(
        virtualization(false, &Some("0::/kubepods/x".to_string()), &Vec::new()).as_deref(),
        Some("pod Kubernetes")
    );
    assert_eq!(virtualization(false, &None, &d), None);
}

const OS: &str = "NAME=\"Linux Mint\"\nVERSION=\"22.1 (Xia)\"\nID=linuxmint\n";

#[test]
fn the_system_says_what_it_is() {
    let os = Some(OS.to_string());
    assert_eq!(distribution(&os, &None).as_deref(), Some("Linux Mint 22.1 (Xia)"));
    assert_eq!(
        os_summary(&os, &None, &Some("6.8".to_string()), "x86_64"),
        "Linux Mint 22.1 (Xia)  ·  kernel 6.8  ·  x86_64"
    );
    assert_eq!(os_summary(&None, &None, &None, "arm"), "Linux  ·  arm");
}

const ROUTE: &str = "Iface\tDestination\tGateway\tFlags\tRefCnt\tUse\tMetric\n\
wlan0\t00000000\t0101A8C0\t0003\t0\t0\t600\n\
tun0\t00000000\t0100000A\t0003\t0\t0\t50\n\
eth0\t0000A8C0\t00000000\t0001\t0\t0\t100\n";

#[test]
fn the_network_files_are_read() {
    let route = Some(ROUTE.to_string());
    assert_eq!(default_gateway(&route).as_deref(), Some("192.168.1.1"));
    let r = default_routes(&route);
    assert_eq!(r.len(), 2);
    assert_eq!((r[0].interface.as_str(), r[0].gateway.as_str(), r[0].metric), ("tun0", "10.0.0.1", 50));
    let arp = Some("IP HW Flags MAC\n192.168.1.1 0x1 0x2 aa:bb:cc:dd:ee:ff * wlan0\n".to_string());
    assert_eq!(arp_mac(&arp, "192.168.1.1").as_deref(), Some("aa:bb:cc:dd:ee:ff"));
    assert_eq!(arp_mac(&arp, "10.0.0.1"), None);
    let resolv = Some("nameserver 127.0.0.53 # stub\nsearch casa.local\nnameserver 1.1.1.1\n".to_string());
    assert_eq!(resolv_conf(&resolv, "nameserver"), vec!["127.0.0.53", "1.1.1.1"]);
    assert_eq!(resolv_conf(&resolv, "options"), Vec::<String>::new());
    assert_eq!(dns_servers(&None), "?");
    assert_eq!(dns_servers(&resolv), "127.0.0.53 # stub, 1.1.1.1");
}

#[test]
fn the_user_is_the_one_that_logged_in() {
    let passwd = Some("maria:x:1000:1000:Maria:/home/maria:/bin/zsh\n".to_string());
    let env = Some("root".to_string());
    assert_eq!(current_user(&Some("1000\n".to_string()), &passwd, &env, &None), "maria");
    assert_eq!(current_user(&Some("4294967295".to_string()), &passwd, &env, &None), "root");
    assert_eq!(current_user(&None, &passwd, &None, &None), "?");
    assert_eq!(passwd_entry(&passwd, "maria").unwrap()[5], "/home/maria");
    let group = Some("sudo:x:27:joao,maria\nwheel:x:10:joao\n".to_string());
    assert_eq!(groups_of(&group, "maria"), vec!["sudo"]);
}

fn machine() -> Machine {
    let s = |t: &str| Some(t.to_string());
    Machine {
        hostname: s("caixa\n"),
        loginuid: s("1000"),
        passwd: s("maria:x:1000:1000:Maria:/home/maria:/bin/zsh\n"),
        group: s("maria:x:1000:\nsudo:x:27:maria\n"),
        user: s("root"),
        logname: None,
        resolv: s("nameserver 127.0.0.53\n"),
        upstream: s("nameserver 9.9.9.9\n"),
        route: s(ROUTE),
        arp: None,
        dmi: Vec::new(),
        os_release: s(OS),
        system: None,
        kernel: s("6.8"),
        kernel_long: "Linux 6.8".to_string(),
        arch: "x86_64".to_string(),
        dockerenv: false,
        cgroup: None,
        init: s("systemd\n"),
        cmdline: None,
        machine_id: None,
        boot_id: None,
        loadavg: s("0.1 0.2 0.3 1/400 999\n"),
        load: "0.10 · 0.20 · 0.30".to_string(),
        uptime: "3d".to_string(),
        outbound: None,
        held: Vec::new(),
        interfaces: Vec::new(),
        cpus: 4,
        brand: s("Ryzen"),
        physical: Some(2),
        cpuinfo: s("model name : Ryzen\nflags : aes avx foo\n\nmodel name : Ryzen\n"),
        clocks: None,
        range: None,
        governor: None,
        caches: Vec::new(),
        memory: 4096,
        meminfo: s("MemTotal: 8 kB\nMemAvailable: 6 kB\n"),
        memory_share: "25.0%".to_string(),
        disk: None,
        mounts: vec![Mount {
            point: "/".to_string(),
            total: 4096,
            free: 1024,
            percent: "75%".to_string(),
            file_system: "ext4".to_string(),
            removable: false,
        }],
        gpu: Some(GpuFacts {
            driver: s("550"),
            opened: true,
            name: None,
            memory: Some((1024, 2048)),
            utilization: Some((3, 4)),
            temperature: Some(50),
            power: None,
        }),
    }
}

#[test]
fn every_row_about_the_machine_opens() {
    let m = machine();
    let t = SummaryMonitor::new(&m);
    let mut rows = t.rows(&m);
    for r in &rows {
        assert!(detail_for(&r.key, &m).is_some(), "{}", r.key);
    }
    let value = |rows: &Vec<monitorzinho::monitor::TableRow>, f: &str| {
        rows.iter().find(|r| r.cells[0] == f).unwrap().cells[1].clone()
    };
    assert_eq!(value(&rows, "Host"), "caixa");
    assert_eq!(value(&rows, "User"), "maria");
    assert_eq!(value(&rows, "IP"), "sem rota de saída");
    assert_eq!(value(&rows, "CPU"), "4 cores · Ryzen");
    assert_eq!(value(&rows, "GPU"), "GPU · 2.0 KB");
    let mut later = machine();
    later.uptime = "4d".to_string();
    t.refresh_values(&later, &mut rows);
    assert_eq!(value(&rows, "Uptime"), "4d");
    assert!(detail_for("Outra", &m).is_none());
}

#[test]
fn the_details_about_the_machine() {
    let m = machine();
    let field = |f: &str, s: usize, l: &str| {
        detail_for(f, &m).unwrap().sections[s].fields.iter().find(|x| x.0 == l).map(|x| x.1.clone())
    };
    assert_eq!(field("DNS", 0, "Encaminha para").as_deref(), Some("9.9.9.9"));
    assert_eq!(field("User", 0, "Grupo primário").as_deref(), Some("maria (gid 1000)"));
    assert_eq!(field("User", 0, "Outros grupos").as_deref(), Some("sudo"));
    assert_eq!(field("User", 0, "Processo rodando como").as_deref(), Some("root"));
    assert_eq!(field("CPU", 0, "Núcleos").as_deref(), Some("2 físicos · 4 lógicos"));
    assert_eq!(field("CPU", 0, "Recursos").as_deref(), Some("avx, aes"));
    assert_eq!(field("CPU", 1, "Tarefas").as_deref(), Some("1/400  (executando/total)"));
    assert_eq!(field("Memory", 0, "Em uso").as_deref(), Some("2.0 KB  (25.0%)"));
    assert_eq!(
        field("Disk", 0, "/").as_deref(),
        Some("3.0 KB de 4.0 KB (75%) · livre 1.0 KB · ext4")
    );
    assert_eq!(field("Gateway", 0, "Via tun0").as_deref(), Some("10.0.0.1  ·  métrica 50"));
    assert_eq!(field("GPU", 0, "Temperatura").as_deref(), Some("50 °C"));
    assert!(field("Machine", 0, "DMI").unwrap().starts_with("nenhum"));
    assert_eq!(meminfo(&m.meminfo), vec![("MemTotal".to_string(), 8192), ("MemAvailable".to_string(), 6144)]);
    assert_eq!(cpuinfo(&m.cpuinfo).len(), 2);
}

#[test]
fn numbers_read_as_people_write_them() {
    assert_eq!(dec(0), "0");
    assert_eq!(dec(18446744073709551615), "18446744073709551615");
    assert_eq!(human_bytes(5 * 1024 * 1024 * 1024 + 644245094), "5.6 GB");
    assert_eq!(human_bytes_per_sec(1363149), "1.3 MB/s");
}

#[test]
fn what_an_older_version_left_is_read_or_put_aside() {
    assert!(matches!(conteudo("marks.json"), Some(Conteudo::Marcas)));
    assert!(conteudo("outro.json").is_none());
    assert!(!existe_algo(&[false; 12]));
    let achados: Vec<Achado> = ARQUIVOS
        .iter()
        .map(|n| match *n {
            "marks.json" => Achado::Lido,
            "tools.json" => Achado::Ilegivel,
            _ => Achado::Ausente,
        })
        .collect();
    let r = importar(&achados);
    assert!(r.houve_algo());
    assert_eq!(r.importados, vec!["marks.json"]);
    assert_eq!(r.ilegiveis, vec!["tools.json"]);
    assert_eq!(r.a_guardar(), vec!["marks.json", "invest.json.bak"]);
}
