use monitorzinho::monitor::steal::{read_jiffies, Share, StealMonitor, CONCERNING};
use monitorzinho::monitor::temperature::{
    best_sensor, millidegrees, with_suffix, zone_critical, Folder, Spot, TemperatureMonitor,
};

fn number(text: &str) -> Option<u64> {
    text.trim().parse::<f64>().ok().map(f64::to_bits)
}

fn folder(files: &[(&str, &str)]) -> Folder {
    Folder {
        files: files.iter().map(|(n, c)| (n.to_string(), c.to_string())).collect(),
        numbers: files.iter().filter_map(|(n, c)| Some((n.to_string(), number(c)?))).collect(),
    }
}

fn degrees(m: u64) -> f64 {
    f64::from_bits(m) / 1000.0
}

#[test]
fn prefers_the_package_sensor_over_a_single_core() {
    let dir = folder(&[
        ("temp1_input", "45000\n"),
        ("temp1_label", "Core 0\n"),
        ("temp2_input", "73000\n"),
        ("temp2_label", "Package id 0\n"),
        ("temp2_crit", "100000\n"),
    ]);
    let sensor = best_sensor(&dir, "coretemp").unwrap();
    assert!(sensor.source.contains("Package id 0"));
    assert_eq!(sensor.critical.map(degrees), Some(100.0));
    assert_eq!(degrees(sensor.last), 73.0);
}

#[test]
fn falls_back_to_the_first_sensor_when_nothing_is_labelled() {
    let dir = folder(&[("temp2_input", "49000\n"), ("temp1_input", "51000\n")]);
    let sensor = best_sensor(&dir, "k10temp").unwrap();
    assert_eq!(degrees(sensor.last), 51.0);
    assert_eq!(sensor.source, "k10temp");
    assert_eq!(sensor.critical, None);
}

#[test]
fn a_sensor_that_reads_zero_is_not_a_sensor() {
    let dir = folder(&[("temp1_input", "0\n")]);
    assert!(best_sensor(&dir, "coretemp").is_none());
}

#[test]
fn a_gap_in_the_trip_points_does_not_hide_the_critical_one() {
    let dir = folder(&[
        ("trip_point_1_type", "passive\n"),
        ("trip_point_1_temp", "80000\n"),
        ("trip_point_2_type", "critical\n"),
        ("trip_point_2_temp", "105000\n"),
    ]);
    assert_eq!(zone_critical(&dir).map(degrees), Some(105.0));
}

#[test]
fn the_critical_threshold_comes_from_the_matching_sensor() {
    let dir = folder(&[("temp3_input", "60000\n"), ("temp3_max", "95000\n")]);
    let sensor = best_sensor(&dir, "coretemp").unwrap();
    assert_eq!(sensor.critical.map(degrees), Some(95.0));
}

#[test]
fn a_sensor_that_stops_answering_stays_where_it_was() {
    let chips = vec![
        folder(&[("name", "acpitz\n"), ("temp1_input", "20000")]),
        folder(&[("name", "K10temp\n"), ("temp1_input", "50500"), ("temp1_max", "95000")]),
    ];
    let (spot, mut m) = TemperatureMonitor::probe(&chips, &Vec::new()).unwrap();
    assert_eq!(spot, Spot::Chip(1));
    assert_eq!(m.limit().map(degrees), Some(95.0));
    assert_eq!(m.extra("95"), "k10temp · crítico a 95 °C");
    assert_eq!(m.format("50"), "50 °C");
    assert_eq!(degrees(m.sample(number("61000\n"))), 61.0);
    assert_eq!(degrees(m.sample(None)), 61.0);
    assert_eq!(degrees(m.sample(number("0"))), 61.0);
    assert_eq!(degrees(m.sample(number("-3000"))), 61.0);
    assert_eq!(degrees(m.sample(number("48000.5"))), 48.0005);
    assert_eq!(millidegrees(number("x")), None);
    assert_eq!(millidegrees(number("-0.0")), None);
    assert_eq!(millidegrees(number("nan")), None, "o que não é um número não é uma leitura");
    assert_eq!(millidegrees(number("inf")), number("inf"));
    assert_eq!(with_suffix("temp1_input", "crit").as_deref(), Some("temp1_crit"));
    let zones = vec![folder(&[("type", "x86_pkg_temp\n"), ("temp", "40000")])];
    let (spot, m) = TemperatureMonitor::probe(&Vec::new(), &zones).unwrap();
    assert_eq!((spot, degrees(m.last)), (Spot::Zone(0), 40.0));
    assert_eq!(m.extra(""), "x86_pkg_temp");
    assert!(TemperatureMonitor::probe(&chips[..1].iter().map(|_| folder(&[])).collect(), &Vec::new()).is_none());
}

fn with_previous(steal: u64, total: u64) -> StealMonitor {
    StealMonitor { previous: Some((steal, total)), last: Share { part: 0, whole: 0 }, vcpus: 2 }
}

fn rate(monitor: &mut StealMonitor, steal: u64, total: u64) -> f64 {
    let s = monitor.rate(Some((steal, total)));
    if s.whole == 0 {
        0.0
    } else {
        s.part as f64 * 100.0 / s.whole as f64
    }
}

#[test]
fn the_rate_is_the_difference_between_two_readings() {
    let mut monitor = with_previous(100, 10_000);
    assert!((rate(&mut monitor, 105, 11_000) - 0.5).abs() < 0.001);
}

#[test]
fn a_counter_that_did_not_move_reads_as_zero() {
    let mut monitor = with_previous(100, 10_000);
    assert_eq!(rate(&mut monitor, 100, 11_000), 0.0);
}

#[test]
fn two_readings_in_the_same_jiffy_keep_the_last_value() {
    let mut monitor = with_previous(100, 10_000);
    rate(&mut monitor, 200, 20_000);
    let held = monitor.last;
    rate(&mut monitor, 300, 20_000);
    assert_eq!(monitor.last, held);
}

#[test]
fn the_chart_is_taller_than_the_threshold_that_colours_it() {
    let monitor = with_previous(0, 0);
    assert_eq!(monitor.scale(), 100);
    assert_eq!(monitor.limit(), CONCERNING);
    assert!(monitor.scale() > monitor.limit());
}

#[test]
fn a_bad_reading_is_still_far_past_the_colour_threshold() {
    let limit = CONCERNING as f64;
    assert!(30.0 / limit >= 0.9);
    assert!(0.8 / limit < 0.7);
}

#[test]
fn the_total_stops_at_steal_so_guest_is_not_counted_twice() {
    let line = "cpu 100 20 30 800 10 5 5 30 999 999";
    assert_eq!(read_jiffies(line), Some((30, 1000)));
}

#[test]
fn a_machine_of_its_own_has_nobody_to_wait_for() {
    let stat = "cpu 100 20 30 800 10 5 5 30 0 0\ncpu0 1\n";
    let guest = "processor : 0\nflags : fpu hypervisor sse\n\nprocessor : 1\nflags : fpu hypervisor\n";
    let m = StealMonitor::probe(guest, stat).unwrap();
    assert_eq!(m.vcpus, 2);
    assert_eq!(m.extra(), "2 vCPUs · ruim acima de 10%");
    assert!(StealMonitor::probe("flags : fpu sse\n", stat).is_none());
    assert!(StealMonitor::probe(guest, "cpu 1 2 3\n").is_none());
    assert_eq!(read_jiffies("intr 1 2 3 4 5 6 7 8 9"), None);
    assert_eq!(read_jiffies(""), None);
}
