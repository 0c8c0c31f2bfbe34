use monitorzinho::bytes::Endian;
use monitorzinho::monitor::owner::Proc;
use monitorzinho::monitor::ssh::{
    build_row, danger, is_ssh_session, kill_targets, parse_logind_session, read_utmp,
    sample_sessions, sessions, sshd_ancestor, subtree_pids, tty_from_dev, tty_name, Session,
    RECORD_SIZE,
};

const SSH_SESSION: &str = "\
# This is private data. Do not parse.
UID=0
USER=root
ACTIVE=1
STATE=active
REMOTE=1
TYPE=tty
CLASS=user
SCOPE=session-9.scope
REMOTE_HOST=187.116.88.134
SERVICE=sshd
LEADER=2805
REALTIME=1787699034767096
MONOTONIC=903506521
";

#[test]
fn an_ssh_login_reads_back_off_a_logind_session_file() {
    let session = parse_logind_session(SSH_SESSION).expect("uma sessão SSH");
    assert_eq!(session.user, "root");
    assert_eq!(session.host, "187.116.88.134");
    assert_eq!(session.pid, 2805);
    assert_eq!(session.login_time, 1_787_699_034);
    assert!(session.line.is_empty(), "o terminal vem dos processos");
    assert!(session.vouched_ssh, "o próprio logind disse que é sshd");
}

#[test]
fn logind_bookkeeping_is_not_a_login() {
    let manager = SSH_SESSION
        .replace("CLASS=user", "CLASS=manager-early")
        .replace("SERVICE=sshd", "SERVICE=systemd-user");
    assert!(parse_logind_session(&manager).is_none());
    let console = SSH_SESSION.replace("SERVICE=sshd", "SERVICE=login");
    assert!(parse_logind_session(&console).is_none());
}

#[test]
fn a_session_missing_what_a_row_needs_is_dropped() {
    for field in ["LEADER=2805", "USER=root", "REALTIME=1787699034767096"] {
        let without = SSH_SESSION.replace(field, "");
        assert!(
            parse_logind_session(&without).is_none(),
            "sem {field} não dá para montar a linha"
        );
    }
}

#[test]
fn a_terminal_is_named_the_way_everything_else_names_it() {
    assert_eq!(tty_from_dev(34820).as_deref(), Some("pts/4"));
    assert_eq!(tty_from_dev((137 << 8) | 1).as_deref(), Some("pts/257"));
    assert_eq!(tty_from_dev((4 << 8) | 1).as_deref(), Some("tty1"));
    assert_eq!(tty_from_dev((4 << 8) | 64).as_deref(), Some("ttyS0"));
    assert_eq!(tty_from_dev(0), None, "processo sem terminal de controle");
}

#[test]
fn the_terminal_is_counted_from_the_last_bracket() {
    assert_eq!(tty_name("12 (a) b) S 1 2 3 34820 5").as_deref(), Some("pts/4"));
    assert_eq!(tty_name("12 a S 1 2 3 34820 5"), None);
    assert_eq!(tty_name("12 (a) S 1 2"), None);
}

fn record(kind: u16, pid: i32, line: &str, user: &[u8], host: &str, time: i32) -> Vec<u8> {
    let mut r = vec![0u8; RECORD_SIZE];
    r[0..2].copy_from_slice(&kind.to_le_bytes());
    r[4..8].copy_from_slice(&pid.to_le_bytes());
    r[8..8 + line.len()].copy_from_slice(line.as_bytes());
    r[44..44 + user.len()].copy_from_slice(user);
    r[76..76 + host.len()].copy_from_slice(host.as_bytes());
    r[340..344].copy_from_slice(&time.to_le_bytes());
    r
}

#[test]
fn the_record_of_logins_is_read_record_by_record() {
    let mut data = record(7, 42, "pts/0", b"maria", "10.0.0.9", 1000);
    data.extend(record(8, 43, "pts/1", b"morto", "", 1000));
    data.extend(record(7, -1, "pts/2", b"ninguem", "", 1000));
    data.extend(record(7, 44, "pts/3", "joão\u{0}lixo".as_bytes(), "", -5));
    data.extend(record(7, 45, "pts/4", b"ana\xff", "", 7));
    data.extend([1, 2, 3]);
    let v = read_utmp(&data, Endian::Little);
    assert_eq!(v.len(), 3);
    assert_eq!((v[0].pid, v[0].line.as_str(), v[0].user.as_str()), (42, "pts/0", "maria"));
    assert_eq!((v[0].host.as_str(), v[0].login_time), ("10.0.0.9", 1000));
    assert_eq!((v[1].user.as_str(), v[1].login_time), ("joão", 0));
    assert_eq!(v[2].user, "ana\u{fffd}", "o que não é texto vira uma marca");
    assert!(!v[0].vouched_ssh);
}

#[test]
fn without_a_record_the_files_of_sessions_tell() {
    let files = vec![SSH_SESSION.to_string(), "CLASS=user\n".to_string()];
    assert_eq!(sessions(&None, &files, Endian::Little).len(), 1);
    assert!(sessions(&Some(Vec::new()), &files, Endian::Little).is_empty());
}

fn proc(pid: u32, parent: Option<u32>, name: &str, command: &str, cpu: u32, start: u64) -> Proc {
    Proc {
        pid,
        parent,
        thread: false,
        name: name.to_string(),
        command: command.to_string(),
        run_time: 0,
        age: "1m".to_string(),
        usage: String::new(),
        weight: 0,
        cpu,
        load: "0.0%".to_string(),
        start,
        cwd: Some(format!("/home/{pid}")),
    }
}

fn machine() -> Vec<Proc> {
    vec![
        proc(1, None, "init", "init", 0, 0),
        proc(10, Some(1), "sshd", "sshd", 0, 1),
        proc(20, Some(10), "sshd-session", "sshd: maria [priv]", 0, 2),
        proc(21, Some(20), "sshd-session", "sshd: maria@pts/0", 0, 3),
        proc(22, Some(21), "bash", "-bash", 0, 4),
        proc(23, Some(22), "make", "make -j8", 5, 5),
        proc(24, Some(22), "vim", "vim x", 5, 6),
        proc(30, Some(1), "tmux", "tmux", 0, 7),
        proc(40, Some(10), "sshd-session", "sshd: outra", 0, 8),
    ]
}

fn session(pid: u32, vouched_ssh: bool, login_time: u64) -> Session<String> {
    Session {
        pid,
        line: String::new(),
        user: "maria".to_string(),
        host: "10.0.0.9".to_string(),
        login_time,
        vouched_ssh,
    }
}

#[test]
fn a_session_is_one_that_hangs_below_a_server() {
    let ps = machine();
    assert_eq!(sshd_ancestor(&ps, 24), Some(21));
    assert_eq!(sshd_ancestor(&ps, 10), Some(10));
    assert!(!is_ssh_session(&ps, 30));
    assert!(!is_ssh_session(&ps, 999));
}

#[test]
fn ending_a_session_takes_the_server_of_it_alone() {
    let ps = machine();
    let below = subtree_pids(&ps, 21);
    assert_eq!(below, vec![22, 23, 24]);
    assert_eq!(kill_targets(&ps, 21, &below), vec![22, 23, 24, 20]);
    let other = subtree_pids(&ps, 40);
    assert!(kill_targets(&ps, 40, &other).is_empty(), "o sshd que escuta tem outros filhos");
}

#[test]
fn the_row_shows_what_the_session_is_doing() {
    let ps = machine();
    let stats = vec![(22, "22 (bash) S 1 2 3 34816 5".to_string())];
    let row = build_row(&ps, &session(21, true, 50), &stats, "2h");
    assert_eq!(row.cells, vec!["maria", "10.0.0.9", "pts/0", "2h", "/home/24", "vim x"]);
    let d = danger(&ps, &row).unwrap();
    assert_eq!(d.title, "Desconectar a sessão de maria em pts/0: sshd-session (pid 21)?");
    assert!(d.lines.last().unwrap().starts_with("Vão junto 4 processo(s) abaixo dele: bash (22)"));
}

#[test]
fn the_last_to_connect_comes_first_and_the_dead_do_not_come() {
    let ps = machine();
    let v = vec![
        session(21, false, 50),
        session(30, false, 60),
        session(999, true, 70),
        session(40, true, 80),
    ];
    let ages: Vec<String> = (0..4).map(|i| i.to_string()).collect();
    let rows = sample_sessions(&ps, &v, &ages, &Vec::new(), None);
    assert_eq!(rows.iter().map(|r| r.pid).collect::<Vec<_>>(), vec![40, 21]);
    assert_eq!(rows[0].cells[3], "3");
    assert_eq!(sample_sessions(&ps, &v, &ages, &Vec::new(), Some(1)).len(), 1);
}
