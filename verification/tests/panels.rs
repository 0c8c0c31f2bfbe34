use monitorzinho::flags::{handle_flags, refusal, Flag, Pedido};
use monitorzinho::keys::{
    duty, noticed, press, route, wait, Action, Duty, Focus, Key, Opened, Overlay, Press, Screen,
};
use monitorzinho::monitor::charts::{
    all_monitors, busiest, primary_disk, Chart, CpuMonitor, DiskFacts, DiskMonitor,
    DiskReadMonitor, DiskWriteMonitor, GpuMonitor, LiveMonitor, LiveSeries, MemoryMonitor,
    NetRxMonitor,
};
use monitorzinho::monitor::panels::{all_table_monitors, ModulesMonitor, Panel, Tab};
use monitorzinho::monitor::steal::Share;
use monitorzinho::monitor::TableRow;

#[test]
fn as_linhas_vem_de_fora_e_o_limite_e_respeitado() {
    let mut m = ModulesMonitor::new();
    m.feed((0..5).map(|i| TableRow::leaf(vec![format!("m{i}"), String::new()], 0)).collect());
    assert_eq!(m.sample(None).len(), 5);
    assert_eq!(m.sample(Some(2)).len(), 2);
    assert_eq!(m.sample(Some(2))[1].cells[0], "m1");
}

#[test]
fn mora_na_aba_invest() {
    assert!(ModulesMonitor::new().tab() == Tab::Invest);
}

#[test]
fn the_marks_of_each_table_are_stored_apart() {
    let all = all_table_monitors();
    for i in 0..all.len() {
        for j in 0..i {
            assert_ne!(all[i].id(), all[j].id());
        }
    }
    assert_eq!(Panel::Ports.id(), "ports");
    assert!(Panel::Ports.mark_kinds()[0].numeric);
    assert_eq!(Panel::Volumes.title(), "Volumes");
    assert!(Panel::TopCpu.tree() && !Panel::Ssh.tree());
    assert!(Panel::Images.actions_on_enter());
    assert!(!Panel::Modules.has_detail());
    for p in &all {
        for k in p.mark_kinds() {
            assert!(!k.help.is_empty());
        }
    }
}

#[test]
fn a_chart_is_there_only_where_something_answers() {
    let few = all_monitors(false, false, false);
    assert_eq!(few.len(), 7);
    let all = all_monitors(true, true, true);
    assert_eq!(all[1], Chart::Temperature);
    assert_eq!(all[9].id(), "gpu");
    assert_eq!(Chart::Disk.limit(), Some(100));
    assert_eq!(Chart::NetRx.limit(), None);
    assert_eq!(Chart::DiskRead.group(), "Disk");
    assert_eq!(Chart::NetTx.title(), "Net up");
}

fn disk(point: &str, total: u64, available: u64) -> DiskFacts {
    DiskFacts { mount_point: point.to_string(), total, available, read: 3, written: 4 }
}

#[test]
fn the_disk_is_the_one_at_the_root() {
    let v = vec![disk("/home", 10, 1), disk("/", 4096, 1024)];
    assert_eq!(primary_disk(&v), Some(1));
    assert_eq!(DiskMonitor.sample(&v), Share { part: 3072, whole: 4096 });
    assert_eq!(DiskMonitor.extra(&v).as_deref(), Some("3.0 KB / 4.0 KB"));
    assert_eq!((DiskReadMonitor.sample(&v), DiskWriteMonitor.sample(&v)), (3, 4));
    assert_eq!(primary_disk(&v[..1].iter().map(|_| disk("/x", 1, 1)).collect()), Some(0));
    assert_eq!(DiskMonitor.sample(&Vec::new()), Share { part: 0, whole: 0 });
}

#[test]
fn the_busiest_interface_is_named() {
    let v = vec![("lo".to_string(), 10), ("eth0".to_string(), 30), ("wlan0".to_string(), 20)];
    assert_eq!(busiest(&v), Some((1, 30, 60)));
    assert_eq!(NetRxMonitor.sample(&v), 60);
    assert_eq!(busiest(&vec![("lo".to_string(), 0)]), None);
    assert_eq!(busiest(&Vec::new()), None);
}

#[test]
fn the_charts_say_more_than_their_number() {
    assert_eq!(CpuMonitor.extra(8), "8 cores");
    assert_eq!(MemoryMonitor.extra(1024, 2048), "1.0 KB / 2.0 KB");
    assert_eq!(MemoryMonitor.sample(1, 0), Share { part: 0, whole: 0 });
    assert_eq!(MemoryMonitor.capacity(7), Some(7));
    assert!(GpuMonitor::probe(false).is_none());
    let g = GpuMonitor::probe(true).unwrap();
    assert_eq!((g.sample(None), g.sample(Some(40))), (0, 40));
    assert_eq!(g.extra(Some((1024, 2048))).as_deref(), Some("1.0 KB / 2.0 KB"));
    let mut s = LiveSeries::new();
    assert_eq!(f64::from_bits(s.latest()), 0.0);
    s.publish(12.5f64.to_bits());
    let m = LiveMonitor::new("ping:1", "Ping", "Tools", s);
    assert_eq!(f64::from_bits(m.sample()), 12.5);
}

fn closed() -> Opened {
    Opened {
        confirm: false,
        mark_editor: false,
        endpoint_editor: false,
        session_editor: false,
        marks: false,
        rules: false,
        handoffs: false,
        actions: false,
        text: false,
    }
}

fn screen(focus: Focus, tab: Tab) -> Screen {
    Screen { opened: closed(), focus, tab }
}

fn plain(key: Key) -> Press {
    Press { key, ctrl: false }
}

fn ctrl(c: char) -> Press {
    Press { key: Key::Char(c), ctrl: true }
}

#[test]
fn ctrl_c_twice_is_the_one_way_out() {
    let s = screen(Focus::Panels, Tab::Overview);
    let mut armed = false;
    assert_eq!(press(&mut armed, ctrl('c'), &s), Action::ArmQuit);
    assert_eq!(press(&mut armed, plain(Key::Char('x')), &s), Action::Shortcut('x'));
    assert_eq!(press(&mut armed, ctrl('c'), &s), Action::ArmQuit);
    assert_eq!(press(&mut armed, ctrl('c'), &s), Action::Quit);
}

#[test]
fn a_question_takes_every_key() {
    let mut s = screen(Focus::Table { searching: true }, Tab::Processes);
    s.opened.marks = true;
    s.opened.confirm = true;
    assert_eq!(route(plain(Key::Esc), &s), Action::Overlay(Overlay::Confirm));
    assert_eq!(route(ctrl('g'), &s), Action::Overlay(Overlay::Confirm));
}

#[test]
fn escape_undoes_one_layer() {
    let esc = plain(Key::Esc);
    let on = |f: Focus| route(esc, &screen(f, Tab::Processes));
    assert_eq!(on(Focus::Table { searching: true }), Action::ClearSearch);
    assert_eq!(on(Focus::Table { searching: false }), Action::ExitFocus);
    assert_eq!(on(Focus::Detail), Action::CloseDetail);
    assert_eq!(on(Focus::Module), Action::ModuleEscape);
    assert_eq!(on(Focus::Wizard), Action::WizardBack);
    assert_eq!(on(Focus::Board), Action::BoardEscape);
    assert_eq!(on(Focus::ToolMonitor), Action::ToolEscape);
    assert_eq!(on(Focus::Chart), Action::ExitFocus);
    assert_eq!(on(Focus::Panels), Action::Nothing);
}

#[test]
fn the_keys_of_each_screen() {
    let table = screen(Focus::Table { searching: false }, Tab::Tmux);
    assert_eq!(route(plain(Key::Char('q')), &table), Action::SearchPush('q'));
    assert_eq!(route(ctrl('e'), &table), Action::ToggleMark);
    assert_eq!(route(ctrl('n'), &table), Action::OpenSessionEditor);
    assert_eq!(route(plain(Key::Delete), &table), Action::RequestKill);
    assert_eq!(route(plain(Key::PageUp), &table), Action::PageSelection(-1));
    let tools = screen(Focus::Panels, Tab::Tools);
    assert_eq!(route(plain(Key::Char('e')), &tools), Action::EditExecution);
    assert_eq!(route(plain(Key::Char(' ')), &tools), Action::ToggleExecution);
    assert_eq!(route(plain(Key::Tab), &tools), Action::NextTab);
    let panels = screen(Focus::Panels, Tab::Overview);
    assert_eq!(route(plain(Key::Char(' ')), &panels), Action::RefreshNow);
    assert_eq!(route(plain(Key::Enter), &panels), Action::OpenModuleList);
    let log = screen(Focus::ToolMonitor, Tab::Tools);
    assert_eq!(route(ctrl('l'), &log), Action::ToolClear);
    assert_eq!(route(plain(Key::PageDown), &log), Action::ToolScroll(15));
    let board = screen(Focus::Board, Tab::Tools);
    assert_eq!(route(plain(Key::Char('7')), &board), Action::BoardOpenCard('7'));
    assert_eq!(route(ctrl('r'), &board), Action::BoardRefresh);
    assert_eq!(route(ctrl('g'), &board), Action::OpenMarks);
    let detail = screen(Focus::Detail, Tab::Processes);
    assert_eq!(route(ctrl('p'), &detail), Action::OpenHandoffs);
    assert_eq!(route(plain(Key::Char('q')), &detail), Action::CloseDetail);
    let module = screen(Focus::Module, Tab::Invest);
    assert_eq!(route(plain(Key::Char('q')), &module), Action::ModuleKey);
    let wizard = screen(Focus::Wizard, Tab::Tools);
    assert_eq!(route(plain(Key::Left), &wizard), Action::WizardCycle(-1));
    assert_eq!(route(plain(Key::Char('a')), &wizard), Action::WizardType('a'));
}

#[test]
fn the_loop_waits_in_slices_and_draws_what_shows() {
    assert_eq!(wait(2000, 10), 60);
    assert_eq!(wait(2000, 1990), 10);
    assert_eq!(wait(2000, 3000), 0);
    assert_eq!(duty(true, true, true), Duty::Shell);
    assert_eq!(duty(false, true, true), Duty::Attach);
    assert_eq!(duty(false, false, true), Duty::Sample);
    assert_eq!(duty(false, false, false), Duty::Wait);
    let mut drawn = 1;
    assert!(!noticed(&mut drawn, 1, true));
    assert!(!noticed(&mut drawn, 2, false));
    assert!(!noticed(&mut drawn, 2, true), "já foi visto");
    assert!(noticed(&mut drawn, 3, true));
}

#[test]
fn the_command_line_is_read() {
    let ask = |f: Option<&str>, n: Option<&str>| {
        handle_flags(f.map(|x| x.to_string()), n.map(|x| x.to_string()))
    };
    assert!(matches!(ask(None, None), Flag::Run(Pedido::Automatico)));
    assert!(matches!(ask(Some("-p"), None), Flag::Run(Pedido::Escolher)));
    match ask(Some("--perfil"), Some("casa")) {
        Flag::Run(Pedido::Nomeado(n)) => assert_eq!(n, "casa"),
        other => panic!("{other:?}"),
    }
    assert!(matches!(ask(Some("--perfis"), None), Flag::Perfis));
    assert!(matches!(ask(Some("-V"), None), Flag::Version));
    assert!(matches!(ask(Some("--bench"), None), Flag::Bench));
    assert!(matches!(ask(Some("-h"), None), Flag::Help));
    match ask(Some("--x"), None) {
        Flag::Unknown(f) => {
            assert_eq!(refusal(&f), "monitorzinho: opção desconhecida «--x» — tente --help")
        }
        other => panic!("{other:?}"),
    }
}
