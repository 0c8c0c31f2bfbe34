use monitorzinho::bytes::Endian;
use monitorzinho::monitor::connections::{
    build_request, build_row as conn_row, conn_key, format_ip, millis_since, parse_dump,
    path_section, sample as sample_conns, state_name, timer_name, tunnels, ConnectionsMonitor,
    Moved, RawConn, Shown, AF_INET, AF_INET6, BODY_LEN, HEADER_LEN, INET_DIAG_INFO, IPPROTO_TCP,
    NLMSG_DONE, SOCK_DIAG_BY_FAMILY,
};
use monitorzinho::monitor::iface::{
    addressed_summary, addresses_of, describe, interface_of, interfaces, kind_of, refresh_values,
    routes_of, sample as sample_ifaces, sweepable, uevent, wireless_signal, Delta, Files, Held,
    Interface, InterfacesMonitor,
};
use monitorzinho::monitor::ip::{hex_ipv4, ipv4, ipv6};
use monitorzinho::monitor::netns::{
    container_id, container_name, inode_of, label_for, namespaces, Namespace, Seen,
};
use monitorzinho::monitor::owner::Proc;
use monitorzinho::monitor::ports::{
    clients, endpoint, listening_ports, parse_table, pid_of, read_key, record_traffic,
    sample_ports, socket_inode, Family, Proto,
};
use monitorzinho::monitor::resolve::{owner_label, user_name, Lookup, Resolver, Services};

#[test]
fn addresses_read_as_they_are_written_everywhere() {
    assert_eq!(ipv4(127, 0, 0, 1), "127.0.0.1");
    assert_eq!(ipv6(&[0, 0, 0, 0, 0, 0, 0, 1]), "::1");
    assert_eq!(ipv6(&[0x2001, 0xdb8, 0, 0, 1, 0, 0, 1]), "2001:db8::1:0:0:1");
    assert_eq!(ipv6(&[0, 0, 0, 0, 0, 0xffff, 0x7f00, 1]), "::ffff:127.0.0.1");
    assert_eq!(hex_ipv4("0101A8C0").unwrap().text(), "192.168.1.1");
    assert!(hex_ipv4("zz").is_none());
    assert_eq!(endpoint("::1", 80), "[::1]:80");
    assert_eq!(format_ip(AF_INET, &[10, 0, 0, 5, 0, 0, 0, 0, 0, 0, 0, 0, 0, 0, 0, 0]), "10.0.0.5");
    assert_eq!(format_ip(AF_INET6, &[0; 16]), "::");
}

const TCP: &str = "  sl  local_address rem_address   st tx_queue rx_queue tr tm->when retrnsmt   uid  timeout inode
   0: 0100007F:1538 00000000:0000 0A 00000000:00000000 00:00000000 00000000   999        0 111 1 0000
   1: 00000000:0016 00000000:0000 0A 00000000:00000003 00:00000000 00000000     0        0 222 1 0000
   2: 0500000A:0016 0600000A:C350 01 00000010:00000020 00:00000000 00000000     0        0 333 1 0000
   curta
";

#[test]
fn a_socket_table_is_read_row_by_row() {
    let v = parse_table(TCP, Proto::Tcp, Family::V4);
    assert_eq!(v.len(), 3);
    assert_eq!(v[0].local(), "127.0.0.1:5432");
    assert!(v[0].is_listening() && v[1].is_listening() && !v[2].is_listening());
    assert_eq!(v[1].rx_queue, 3);
    assert_eq!(v[2].remote(), "10.0.0.6:50000");
    assert_eq!((v[2].inode, v[2].uid), (333, 0));
    let ports = listening_ports(&v);
    assert_eq!(ports.len(), 2);
    assert_eq!(ports[0].port, 5432);
    assert_eq!(socket_inode("socket:[333]"), Some(333));
    assert_eq!(socket_inode("pipe:[333]"), None);
    assert_eq!(pid_of(&vec![(1, 10), (333, 20)], 333), 20);
    assert_eq!(pid_of(&Vec::new(), 333), 0);
}

fn proc(pid: u32, name: &str, run_time: u64) -> Proc {
    Proc {
        pid,
        parent: None,
        thread: false,
        name: name.to_string(),
        command: format!("{name} --x"),
        run_time,
        age: format!("{run_time}s"),
        usage: String::new(),
        weight: 0,
        cpu: 0,
        load: String::new(),
        start: 0,
        cwd: None,
    }
}

#[test]
fn the_newest_port_comes_first_and_an_owner_may_be_missing() {
    let v = parse_table(TCP, Proto::Tcp, Family::V4);
    let ps = vec![proc(10, "postgres", 500), proc(20, "sshd", 100)];
    let rows = sample_ports(&v, &ps, &vec![(111, 10), (222, 20)], None);
    assert_eq!(rows[0].cells, vec!["TCP", "22", "sshd --x", "100s"]);
    assert_eq!(rows[1].cells[1], "5432");
    assert_eq!(read_key(&rows[1].key), Some((Proto::Tcp, 5432)));
    let rows = sample_ports(&v, &ps, &Vec::new(), Some(1));
    assert_eq!(rows.len(), 1);
    assert_eq!(rows[0].cells[2], "?");
    assert!(clients(&v, 22).fields.iter().any(|(l, _)| l.contains("10.0.0.6")
        || l == "10.0.0.6"));
}

#[test]
fn no_two_recorders_listen_on_one_port() {
    let mut taken = vec![81, 82];
    let a = record_traffic(Proto::Tcp, 80, &mut taken).unwrap();
    let b = record_traffic(Proto::Tcp, 80, &mut taken).unwrap();
    assert_eq!(a.params[1].1, "127.0.0.1:83");
    assert_eq!(b.params[1].1, "127.0.0.1:84");
    let mut full: Vec<u16> = (0..=65535).collect();
    assert!(record_traffic(Proto::Udp, 80, &mut full).is_none());
}

fn message(kind: u16, body: &[u8]) -> Vec<u8> {
    let len = (HEADER_LEN + body.len()) as u32;
    let mut m = len.to_le_bytes().to_vec();
    m.extend(kind.to_le_bytes());
    m.extend([0; 10]);
    m.extend(body);
    while m.len() % 4 != 0 {
        m.push(0);
    }
    m
}

fn body(port: u16) -> Vec<u8> {
    let mut b = vec![0u8; BODY_LEN];
    b[0] = AF_INET;
    b[1] = 1;
    b[4..6].copy_from_slice(&port.to_be_bytes());
    b[6..8].copy_from_slice(&443u16.to_be_bytes());
    b[8..12].copy_from_slice(&[10, 0, 0, 5]);
    b[24..28].copy_from_slice(&[1, 1, 1, 1]);
    b[68..72].copy_from_slice(&77u32.to_le_bytes());
    b
}

#[test]
fn a_dump_is_read_until_it_says_that_it_is_done() {
    let mut data = message(SOCK_DIAG_BY_FAMILY, &body(5000));
    data.extend(message(SOCK_DIAG_BY_FAMILY, &[1, 2, 3]));
    data.extend(message(SOCK_DIAG_BY_FAMILY, &body(5001)));
    let mut out = Vec::new();
    assert!(!parse_dump(&data, IPPROTO_TCP, Endian::Little, &mut out));
    assert_eq!(out.len(), 2);
    assert_eq!(out[0].local(), "10.0.0.5:5000");
    assert_eq!(out[1].remote(), "1.1.1.1:443");
    assert_eq!(out[1].inode, 77);
    data.extend(message(NLMSG_DONE, &[0; 4]));
    data.extend(message(SOCK_DIAG_BY_FAMILY, &body(5002)));
    let mut out = Vec::new();
    assert!(parse_dump(&data, IPPROTO_TCP, Endian::Little, &mut out));
    assert_eq!(out.len(), 2);
    let mut cut = Vec::new();
    assert!(!parse_dump(&data[..50], IPPROTO_TCP, Endian::Little, &mut cut));
    assert!(cut.is_empty());
}

fn with_counters(port: u16, acked: u64, received: u64) -> RawConn<String> {
    let mut b = body(port);
    let mut info = vec![0u8; 136];
    info[120..128].copy_from_slice(&acked.to_le_bytes());
    info[128..136].copy_from_slice(&received.to_le_bytes());
    b.extend(((info.len() + 4) as u16).to_le_bytes());
    b.extend(INET_DIAG_INFO.to_le_bytes());
    b.extend(&info);
    let mut out = Vec::new();
    parse_dump(&message(SOCK_DIAG_BY_FAMILY, &b), IPPROTO_TCP, Endian::Little, &mut out);
    out.remove(0)
}

#[test]
fn what_moved_is_the_difference_between_two_dumps() {
    let mut m = ConnectionsMonitor::new();
    let first = m.refresh_snapshot(vec![with_counters(5000, 100, 200)], 1000);
    assert_eq!(first[0].1.moved, None);
    let second = m.refresh_snapshot(vec![with_counters(5000, 150, 900)], 3000);
    assert_eq!(second[0].1.moved, Some(Moved { down: 700, up: 50, ms: 2000 }));
    assert_eq!(second[0].1.conn.total_bytes(), 1050);
    m.refresh_snapshot(Vec::new(), 4000);
    assert!(m.history.is_empty(), "uma conexão fechada não fica na memória");
}

#[test]
fn the_connection_that_moves_the_most_comes_first() {
    let shown = |port: u16, weight: i64| Shown {
        conn: with_counters(port, 0, 0),
        down: "1 B/s".to_string(),
        up: "2 B/s".to_string(),
        weight,
    };
    let rows =
        sample_conns(&vec![shown(1, 5), shown(2, 50)], &Vec::new(), &Vec::new(), None);
    assert!(rows[0].cells[2].contains(":2 "), "{}", rows[0].cells[2]);
    let c = with_counters(7, 0, 0);
    let row = conn_row(&Vec::new(), &Vec::new(), &c, "a", "b");
    assert_eq!(row.key, conn_key(IPPROTO_TCP, "10.0.0.5:7", "1.1.1.1:443"));
    assert_eq!(row.cells[0], "TCP");
    assert!(!tunnels(&c, "TCP").is_empty());
    assert_eq!(path_section(&c.info).title, "Caminho");
}

#[test]
fn states_and_timers_have_names() {
    assert_eq!(state_name(1), "ESTABLISHED");
    assert_eq!(state_name(99), "?");
    assert_eq!(timer_name(2), Some("keepalive"));
    assert_eq!(timer_name(0), None);
    assert_eq!(millis_since(250, "x"), "250 ms");
    let r = build_request(AF_INET, IPPROTO_TCP, 2, Endian::Little);
    assert_eq!(r.len(), 72);
    assert_eq!(&r[..4], &72u32.to_le_bytes());
}

fn iface(name: &str, kind: &'static str, addresses: &[&str]) -> Interface {
    let none = || None;
    let files = Files {
        operstate: Some("up\n".to_string()),
        carrier: Some("1\n".to_string()),
        address: Some("aa:bb:cc:dd:ee:ff\n".to_string()),
        mtu: Some("1500\n".to_string()),
        speed: none(),
        duplex: none(),
        driver: none(),
        rx_bytes: Some("100\n".to_string()),
        tx_bytes: Some("50\n".to_string()),
        rx_packets: none(),
        tx_packets: none(),
        rx_errors: none(),
        tx_errors: none(),
        rx_dropped: none(),
        tx_dropped: none(),
    };
    let a: Vec<String> = addresses.iter().map(|x| x.to_string()).collect();
    describe(name.to_string(), kind, &files, &addresses_of(&a))
}

#[test]
fn an_interface_is_described_by_its_files() {
    let i = iface("eth0", "ethernet", &["10.0.0.5/24"]);
    assert!(i.is_up());
    assert_eq!(i.mtu, Some(1500));
    assert_eq!(i.ipv4().as_deref(), Some("10.0.0.5"));
    assert_eq!(i.address_summary(), "10.0.0.5/24");
    assert_eq!(iface("x", "ethernet", &[]).address_summary(), "sem endereço");
    assert_eq!(uevent("INTERFACE=wl\nDEVTYPE=wlan\n", "DEVTYPE").as_deref(), Some("wlan"));
    assert_ne!(kind_of(true, &None, None, false), kind_of(false, &None, None, true));
    assert!(wireless_signal("", "wlan0").is_none());
    assert!(!sweepable(&i).is_empty());
}

#[test]
fn interfaces_have_an_order_and_rates() {
    let list = vec![iface("lo", "loopback", &["127.0.0.1/8"]), iface("eth0", "ethernet", &["10.0.0.5/24"])];
    let order = interfaces(&list);
    assert_eq!(order.len(), 2);
    assert_ne!(order[0], order[1]);
    let mut m = InterfacesMonitor::new();
    m.measure(&list, 1000);
    assert_eq!(m.rate("eth0"), None);
    let mut later = iface("eth0", "ethernet", &[]);
    later.rx_bytes = 1100;
    later.tx_bytes = 10;
    m.measure(&vec![later], 3000);
    assert_eq!(m.rate("eth0"), Some(Delta { rx: 1000, tx: 0, ms: 2000 }));
    let held = vec![Held { name: "eth0".to_string(), addresses: vec!["10.0.0.5".to_string()] }];
    assert_eq!(interface_of(&held, "10.0.0.5").as_deref(), Some("eth0"));
    assert_eq!(interface_of(&held, "0.0.0.0"), None);
    assert!(addressed_summary(&list).contains("eth0"));
    let rates = vec![None, Some(("1 B/s".to_string(), "2 B/s".to_string()))];
    let mut rows = sample_ifaces(&list, &rates, None);
    assert_eq!(rows[1].cells[3], "↓1 B/s ↑2 B/s");
    refresh_values(&list, &vec![None, None], &mut rows);
    assert_eq!(rows[1].cells[3], "-");
    let route = "Iface\tDestination\tGateway\nlixo\n";
    assert!(routes_of(route, "eth0").is_empty());
}

#[test]
fn a_namespace_is_named_after_its_container() {
    assert_eq!(inode_of("net:[4026531840]"), Some(4026531840));
    assert_eq!(inode_of("net:4026531840"), None);
    let id = "a".repeat(64);
    assert_eq!(container_id(&format!("0::/system.slice/docker-{id}.scope\n")), Some(id.clone()));
    assert_eq!(container_id("0::/user.slice\n"), None);
    let texts = vec!["não é json".to_string(), r#"{"Name":"/banco"}"#.to_string()];
    assert_eq!(container_name(&texts).as_deref(), Some("banco"));
    assert_eq!(container_name(&vec![r#"{"Name":7}"#.to_string()]), None);
    assert_eq!(label_for(&Some(id.clone()), None, &None, &None, 9), "a".repeat(12));
    assert_eq!(label_for(&None, None, &None, &None, 9), "pid 9");
    let ns = |id: u64, label: &str, pid: u32| {
        Seen::Open(Namespace { id, label: label.to_string(), pid })
    };
    let (v, unread) = namespaces(&vec![
        ns(2, "b", 20),
        Seen::Own,
        ns(2, "c", 21),
        ns(1, "a", 10),
        Seen::Closed { container: Some("x".to_string()) },
        Seen::Closed { container: Some("x".to_string()) },
        Seen::Other,
    ]);
    assert_eq!(v.iter().map(|n| (n.id, n.pid)).collect::<Vec<_>>(), vec![(1, 10), (2, 20)]);
    assert_eq!(unread, 1);
}

#[test]
fn a_name_is_asked_for_once() {
    let mut r = Resolver::new();
    let (a, start) = r.reverse("1.1.1.1", true);
    assert!(matches!(a, Lookup::Pending) && start);
    let (a, start) = r.reverse("1.1.1.1", true);
    assert!(matches!(a, Lookup::Pending) && !start);
    r.receive("1.1.1.1", Some("one.one".to_string()));
    match r.reverse("1.1.1.1", true).0 {
        Lookup::Name(n) => assert_eq!(n, "one.one"),
        _ => panic!("já respondeu"),
    }
    let (a, start) = r.reverse("não é endereço", false);
    assert!(matches!(a, Lookup::Unnamed) && !start);
}

#[test]
fn services_and_users_come_from_their_files() {
    let s = Services::load("# x\nhttps 443/tcp # web\nhttps-alt 443/tcp\ndomain 53/udp\nsctp 9/sctp\n");
    assert_eq!(s.name(true, 443), Some("https"));
    assert_eq!(s.name(false, 443), None);
    assert_eq!(s.name(false, 53), Some("domain"));
    let passwd = "root:x:0:0::/root:/bin/bash\nmaria:x:1000:1000::/home/maria:/bin/zsh\n";
    assert_eq!(user_name(passwd, 1000).as_deref(), Some("maria"));
    assert_eq!(user_name(passwd, 7), None);
    assert_eq!(owner_label(7, &None), "uid 7");
    assert_eq!(owner_label(0, &Some("root".to_string())), "root (uid 0)");
}

#[test]
fn the_detail_of_an_interface() {
    let list = vec![iface("eth0", "ethernet", &["10.0.0.5/24", "fe80::1/64"])];
    let rows = sample_ifaces(&list, &vec![None], None);
    let m = InterfacesMonitor::new();
    let route = "Iface\tDestination\tGateway\tFlags\tRefCnt\tUse\tMetric\tMask\n\
                 eth0\t00000000\t0100000A\t0003\t0\t0\t100\t00000000\n";
    let d = m
        .detail(&list, &rows[0], "", route, (1, 2), "1 B/s", "2 B/s", Vec::new())
        .unwrap();
    assert_eq!(d.title, "eth0 · ethernet");
    assert_eq!(d.rates.as_ref().map(|r| r.values), Some((1, 2)));
    let field = |s: usize, l: &str| {
        d.sections[s].fields.iter().find(|f| f.0 == l).map(|f| f.1.clone())
    };
    assert_eq!(field(0, "MTU").as_deref(), Some("1500 bytes"));
    assert_eq!(field(0, "Link").as_deref(), Some("presente"));
    assert_eq!(field(1, "IPv6").as_deref(), Some("fe80::1/64"));
    assert!(field(1, "Rota").unwrap().contains("10.0.0.1"));
    assert_eq!(field(2, "Taxa atual").as_deref(), Some("↓ 1 B/s · ↑ 2 B/s"));
    assert!(m.detail(&Vec::new(), &rows[0], "", route, (0, 0), "", "", Vec::new()).is_none());
}
