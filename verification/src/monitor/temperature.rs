//! How warm the processor is, where the machine has a sensor that is known to be the processor's.

use vstd::prelude::*;
use crate::dict::{find_pair, find_word, lemma_place, pairs, under, words_of};
use crate::number::{dec, decimal};
use crate::order::{sort_texts, sorted_texts};
use crate::pick::{lemma_pick, lemma_pick_ends, picked};
use crate::text::{
    ascii_lower, begins, cat2, cat3, cat4, ends_with, finishes, lower_ascii, maybe, same,
    starts_with, strip_suffix, trim, trimmed, upto, views,
};
use crate::monitor::summary::{line_of, read_line};

verus! {

/// How many trip points a zone is asked for.
pub const TRIP_POINTS: u64 = 8;

/// A chip whose sensor is that of the processor.
pub open spec fn is_cpu_chip(name: Seq<char>) -> bool {
    name == "coretemp"@ || name == "k10temp"@ || name == "zenpower"@ || name == "cpu_thermal"@ || name
        == "soc_thermal"@
}

/// A zone that is the processor. Any other may be the case, and is not guessed at.
pub open spec fn is_cpu_zone(kind: Seq<char>) -> bool {
    kind == "x86_pkg_temp"@ || kind == "cpu-thermal"@ || kind == "cpu_thermal"@
}

/// A label of the sensor of a whole processor, rather than that of one core.
pub open spec fn is_package(label: Seq<char>) -> bool {
    begins(label, "package id 0"@) || begins(label, "tctl"@) || begins(label, "tdie"@) || begins(
        label,
        "cpu"@,
    )
}

/// A directory of sensors: the names of its files and what is in them, and the double that each
/// reads as, by its bit pattern, where it does.
#[derive(Debug)]
pub struct Folder {
    pub files: Vec<(String, String)>,
    pub numbers: Vec<(String, u64)>,
}

impl Folder {
    /// What is in a file.
    pub open spec fn has(self, name: Seq<char>) -> Option<Seq<char>> {
        under(words_of(self.files@), name)
    }

    /// What is in a file.
    pub fn get(&self, name: &str) -> (r: Option<String>)
        ensures
            maybe(r) == self.has(name@),
    {
        match find_word(&self.files, name) {
            Some(i) => {
                proof {
                    lemma_place(words_of(self.files@), name@);
                }
                Some(self.files[i].1.clone())
            },
            None => None,
        }
    }

    /// The double that a file reads as.
    pub open spec fn number(self, name: Seq<char>) -> Option<u64> {
        if self.has(name) is Some {
            under(pairs(self.numbers@), name)
        } else {
            None
        }
    }

    /// The double that a file reads as.
    pub fn number_in(&self, name: &str) -> (r: Option<u64>)
        ensures
            r == self.number(name@),
    {
        if self.get(name).is_none() {
            return None;
        }
        match find_pair(&self.numbers, name) {
            Some(i) => Some(self.numbers[i].1),
            None => None,
        }
    }

    /// What is in a file, in small letters and without spaces around it; nothing where there is no
    /// such file.
    pub open spec fn word(self, name: Seq<char>) -> Seq<char> {
        match self.has(name) {
            Some(c) => ascii_lower(trimmed(c)),
            None => Seq::empty(),
        }
    }

    /// What is in a file, in small letters and without spaces around it.
    pub fn word_in(&self, name: &str) -> (r: String)
        ensures
            r@ == self.word(name@),
    {
        match self.get(name) {
            Some(c) => lower_ascii(trim(c.as_str()).as_str()),
            None => {
                let r = String::new();
                assert(r@ =~= Seq::empty());
                r
            },
        }
    }
}

/// The bit pattern of the infinite double: those from 1 to it are the doubles above zero.
pub const INFINITE: u64 = 0x7ff0_0000_0000_0000;

/// A reading, in thousandths of a degree: a double above zero. A sensor that is off reads 0, which
/// is no reading.
pub open spec fn reading(number: Option<u64>) -> Option<u64> {
    match number {
        Some(b) => if 0 < b <= INFINITE {
            Some(b)
        } else {
            None
        },
        None => None,
    }
}

/// The reading that a double is, in thousandths of a degree.
pub fn millidegrees(number: Option<u64>) -> (r: Option<u64>)
    ensures
        r == reading(number),
{
    match number {
        Some(b) => if 0 < b && b <= INFINITE {
            Some(b)
        } else {
            None
        },
        None => None,
    }
}

/// The file beside that of a sensor which has another thing of it.
pub open spec fn beside(input: Seq<char>, suffix: Seq<char>) -> Option<Seq<char>> {
    match upto(input, "_input"@) {
        Some(stem) => Some(stem + "_"@ + suffix),
        None => None,
    }
}

/// The file beside that of a sensor which has another thing of it.
pub fn with_suffix(input: &str, suffix: &str) -> (r: Option<String>)
    ensures
        maybe(r) == beside(input@, suffix@),
{
    match strip_suffix(input, "_input") {
        Some(stem) => Some(cat3(stem.as_str(), "_", suffix)),
        None => None,
    }
}

/// What is in the file beside that of a sensor.
pub open spec fn has_beside(f: Folder, input: Seq<char>, suffix: Seq<char>) -> Option<Seq<char>> {
    match beside(input, suffix) {
        Some(name) => f.has(name),
        None => None,
    }
}

fn get_beside(f: &Folder, input: &str, suffix: &str) -> (r: Option<String>)
    ensures
        maybe(r) == has_beside(*f, input@, suffix@),
{
    match with_suffix(input, suffix) {
        Some(name) => f.get(name.as_str()),
        None => None,
    }
}

/// The label of a sensor.
pub open spec fn label_of(f: Folder, input: Seq<char>) -> Option<Seq<char>> {
    line_of(has_beside(f, input, "label"@))
}

/// The label of a sensor.
pub fn read_label(f: &Folder, input: &str) -> (r: Option<String>)
    ensures
        maybe(r) == label_of(*f, input@),
{
    read_line(&get_beside(f, input, "label"))
}

/// A limit of a sensor, by the suffix of its file.
pub open spec fn limit_beside(f: Folder, input: Seq<char>, suffix: Seq<char>) -> Option<u64> {
    match beside(input, suffix) {
        Some(name) => reading(f.number(name)),
        None => None,
    }
}

/// A limit of a sensor, by the suffix of its file.
pub fn sibling(f: &Folder, input: &str, suffix: &str) -> (r: Option<u64>)
    ensures
        r == limit_beside(*f, input@, suffix@),
{
    match with_suffix(input, suffix) {
        Some(name) => millidegrees(f.number_in(name.as_str())),
        None => None,
    }
}

/// The name of a file with a sensor's reading.
pub open spec fn input_name(x: (Seq<char>, Seq<char>)) -> Option<Seq<char>> {
    if begins(x.0, "temp"@) && finishes(x.0, "_input"@) {
        Some(x.0)
    } else {
        None
    }
}

/// The files with readings, in their order.
pub open spec fn inputs(f: Folder) -> Seq<Seq<char>> {
    sorted_texts(picked(words_of(f.files@), |x: (Seq<char>, Seq<char>)| input_name(x)))
}

fn list_inputs(f: &Folder) -> (r: Vec<String>)
    ensures
        views(r@) == inputs(*f),
{
    let ghost vs = words_of(f.files@);
    let ghost g = |x: (Seq<char>, Seq<char>)| input_name(x);
    let mut names: Vec<String> = Vec::new();
    proof {
        lemma_pick_ends(vs, g);
        assert(views(names@) =~= Seq::empty());
    }
    for i in 0..f.files.len()
        invariant
            vs == words_of(f.files@),
            g == (|x: (Seq<char>, Seq<char>)| input_name(x)),
            views(names@) == picked(vs.take(i as int), g),
    {
        proof {
            lemma_pick(vs, g, i as int);
        }
        let n = f.files[i].0.as_str();
        if starts_with(n, "temp") && ends_with(n, "_input") {
            let ghost before = views(names@);
            names.push(f.files[i].0.clone());
            assert(views(names@) =~= before.push(vs[i as int].0));
        }
    }
    sort_texts(&names)
}

/// A sensor that says it is that of the whole processor.
pub open spec fn labelled(f: Folder, input: Seq<char>) -> bool {
    match label_of(f, input) {
        Some(l) => is_package(ascii_lower(l)),
        None => false,
    }
}

/// The first sensor that says it is that of the whole processor.
pub open spec fn first_labelled(f: Folder, v: Seq<Seq<char>>) -> Option<Seq<char>>
    decreases v.len(),
{
    if v.len() == 0 {
        None
    } else if labelled(f, v[0]) {
        Some(v[0])
    } else {
        first_labelled(f, v.skip(1))
    }
}

/// The sensor that is read: the one of the whole processor, or the first where none says so.
pub open spec fn chosen(f: Folder) -> Option<Seq<char>> {
    let v = inputs(f);
    match first_labelled(f, v) {
        Some(n) => Some(n),
        None => if v.len() > 0 {
            Some(v[0])
        } else {
            None
        },
    }
}

/// The sensor of a processor.
#[derive(Debug)]
pub struct TemperatureMonitor {
    /// The file it is read from.
    pub input: String,
    /// What it is called.
    pub source: String,
    /// From which reading on the chip itself says that it is in danger, as the bit pattern of a
    /// double.
    pub critical: Option<u64>,
    /// The last good reading, in thousandths of a degree, as the bit pattern of a double.
    pub last: u64,
}

/// The limit of a sensor: its critical one, or else its highest.
pub open spec fn limit_of(f: Folder, input: Seq<char>) -> Option<u64> {
    match limit_beside(f, input, "crit"@) {
        Some(n) => Some(n),
        None => limit_beside(f, input, "max"@),
    }
}

/// The name of a sensor, as it reads.
pub open spec fn source_text(name: Seq<char>, label: Option<Seq<char>>) -> Seq<char> {
    match label {
        Some(l) => name + " · "@ + l,
        None => name,
    }
}

/// The sensor of a chip.
pub open spec fn is_sensor_of(s: TemperatureMonitor, f: Folder, name: Seq<char>) -> bool {
    chosen(f) is Some && ({
        let input = chosen(f)->0;
        &&& s.input@ == input
        &&& reading(f.number(input)) == Some(s.last)
        &&& s.source@ == source_text(name, label_of(f, input))
        &&& s.critical == limit_of(f, input)
    })
}

/// A chip has a sensor that answers.
pub open spec fn answers(f: Folder) -> bool {
    chosen(f) is Some && reading(f.number(chosen(f)->0)) is Some
}

fn choose_input(f: &Folder) -> (r: Option<String>)
    ensures
        maybe(r) == chosen(*f),
{
    let v = list_inputs(f);
    let ghost vs = views(v@);
    assert(vs.len() == v@.len());
    assert(vs.skip(0) =~= vs);
    for i in 0..v.len()
        invariant
            vs == views(v@),
            vs == inputs(*f),
            first_labelled(*f, vs.skip(i as int)) == first_labelled(*f, vs),
    {
        assert(vs.skip(i as int)[0] == v@[i as int]@);
        assert(vs.skip(i as int).skip(1) =~= vs.skip(i + 1));
        match read_label(f, v[i].as_str()) {
            Some(label) => {
                let t = lower_ascii(label.as_str());
                let l = t.as_str();
                if starts_with(l, "package id 0") || starts_with(l, "tctl") || starts_with(l, "tdie")
                    || starts_with(l, "cpu") {
                    return Some(v[i].clone());
                }
            },
            None => {},
        }
    }
    if v.len() > 0 {
        assert(vs[0] == v@[0]@);
        Some(v[0].clone())
    } else {
        None
    }
}

/// The sensor of a chip: that of the whole processor, or the first where none says that it is.
/// One that does not answer is no sensor.
pub fn best_sensor(f: &Folder, name: &str) -> (r: Option<TemperatureMonitor>)
    ensures
        (match r {
            Some(s) => answers(*f) && is_sensor_of(s, *f, name@),
            None => !answers(*f),
        }),
{
    match choose_input(f) {
        None => None,
        Some(input) => match millidegrees(f.number_in(input.as_str())) {
            None => None,
            Some(last) => {
                let source = match read_label(f, input.as_str()) {
                    Some(l) => cat3(name, " · ", l.as_str()),
                    None => name.to_owned(),
                };
                let critical = match sibling(f, input.as_str(), "crit") {
                    Some(n) => Some(n),
                    None => sibling(f, input.as_str(), "max"),
                };
                Some(TemperatureMonitor { input, source, critical, last })
            },
        },
    }
}

/// The names of the files of a trip point.
pub open spec fn trip_type(i: nat) -> Seq<char> {
    "trip_point_"@ + decimal(i) + "_type"@
}

pub open spec fn trip_temp(i: nat) -> Seq<char> {
    "trip_point_"@ + decimal(i) + "_temp"@
}

/// A trip point is where the machine turns itself off.
pub open spec fn is_critical(f: Folder, i: nat) -> bool {
    match f.has(trip_type(i)) {
        Some(c) => trimmed(c) == "critical"@,
        None => false,
    }
}

/// The first critical trip point, from one on.
pub open spec fn critical_from(f: Folder, i: nat) -> Option<u64>
    decreases TRIP_POINTS - i,
{
    if i >= TRIP_POINTS {
        None
    } else if is_critical(f, i) {
        reading(f.number(trip_temp(i)))
    } else {
        critical_from(f, i + 1)
    }
}

/// Where a zone says that the machine turns itself off. A number that is missing among the trip
/// points is not the end of them.
pub fn zone_critical(f: &Folder) -> (r: Option<u64>)
    ensures
        r == critical_from(*f, 0),
{
    for i in 0..TRIP_POINTS
        invariant
            critical_from(*f, i as nat) == critical_from(*f, 0),
    {
        let n = dec(i);
        let kind = f.get(cat3("trip_point_", n.as_str(), "_type").as_str());
        match kind {
            Some(c) => {
                if same(trim(c.as_str()).as_str(), "critical") {
                    let temp = cat3("trip_point_", n.as_str(), "_temp");
                    return millidegrees(f.number_in(temp.as_str()));
                }
            },
            None => {},
        }
    }
    None
}

/// The first critical trip point decides, whatever numbers are missing before it.
pub proof fn lemma_gap_hides_nothing(f: Folder, i: nat, k: nat)
    requires
        i <= k < TRIP_POINTS,
        is_critical(f, k),
        forall|j: nat| i <= j < k ==> !#[trigger] is_critical(f, j),
    ensures
        critical_from(f, i) == reading(f.number(trip_temp(k))),
    decreases k - i,
{
    if i < k {
        assert(!is_critical(f, i));
        lemma_gap_hides_nothing(f, i + 1, k);
    }
}

/// A chip that is the processor's and has a sensor that answers.
pub open spec fn good_chip(f: Folder) -> bool {
    is_cpu_chip(f.word("name"@)) && answers(f)
}

/// The first chip that is the processor's and has a sensor that answers.
pub open spec fn first_chip(v: Seq<Folder>) -> Option<int>
    decreases v.len(),
{
    if v.len() == 0 {
        None
    } else {
        match first_chip(v.drop_last()) {
            Some(i) => Some(i),
            None => if good_chip(v.last()) {
                Some(v.len() - 1)
            } else {
                None
            },
        }
    }
}

/// A zone that is the processor and answers.
pub open spec fn good_zone(f: Folder) -> bool {
    is_cpu_zone(f.word("type"@)) && reading(f.number("temp"@)) is Some
}

/// The first zone that is the processor and answers.
pub open spec fn first_zone(v: Seq<Folder>) -> Option<int>
    decreases v.len(),
{
    if v.len() == 0 {
        None
    } else {
        match first_zone(v.drop_last()) {
            Some(i) => Some(i),
            None => if good_zone(v.last()) {
                Some(v.len() - 1)
            } else {
                None
            },
        }
    }
}

/// Where a sensor was found.
#[derive(Clone, Copy, PartialEq, Eq, Debug, Structural)]
pub enum Spot {
    Chip(usize),
    Zone(usize),
}

/// The sensor of a zone.
pub open spec fn is_zone_sensor(s: TemperatureMonitor, f: Folder) -> bool {
    &&& s.input@ == "temp"@
    &&& s.source@ == f.word("type"@)
    &&& s.critical == critical_from(f, 0)
    &&& reading(f.number("temp"@)) == Some(s.last)
}

fn check_chip(name: &str) -> (r: bool)
    ensures
        r == is_cpu_chip(name@),
{
    same(name, "coretemp") || same(name, "k10temp") || same(name, "zenpower") || same(
        name,
        "cpu_thermal",
    ) || same(name, "soc_thermal")
}

fn check_zone(kind: &str) -> (r: bool)
    ensures
        r == is_cpu_zone(kind@),
{
    same(kind, "x86_pkg_temp") || same(kind, "cpu-thermal") || same(kind, "cpu_thermal")
}

/// The sensor of the processor among the chips.
pub fn hwmon_sensor(chips: &Vec<Folder>) -> (r: Option<(usize, TemperatureMonitor)>)
    ensures
        (match r {
            Some((i, s)) => first_chip(chips@) == Some(i as int) && i < chips@.len()
                && is_sensor_of(s, chips@[i as int], chips@[i as int].word("name"@)),
            None => first_chip(chips@) is None,
        }),
{
    assert(chips@.take(0) =~= Seq::empty());
    for i in 0..chips.len()
        invariant
            first_chip(chips@.take(i as int)) is None,
    {
        proof {
            assert(chips@.take(i + 1).drop_last() =~= chips@.take(i as int));
            assert(chips@.take(i + 1).last() == chips@[i as int]);
        }
        let name = chips[i].word_in("name");
        if check_chip(name.as_str()) {
            match best_sensor(&chips[i], name.as_str()) {
                Some(s) => {
                    proof {
                        lemma_first_chip(chips@, i as int);
                    }
                    return Some((i, s));
                },
                None => {},
            }
        }
    }
    assert(chips@.take(chips@.len() as int) =~= chips@);
    None
}

proof fn lemma_first_chip(v: Seq<Folder>, i: int)
    requires
        0 <= i < v.len(),
        first_chip(v.take(i + 1)) == Some(i),
    ensures
        first_chip(v) == Some(i),
    decreases v.len() - i,
{
    if i + 1 == v.len() {
        assert(v.take(i + 1) =~= v);
    } else {
        assert(v.drop_last().take(i + 1) =~= v.take(i + 1));
        lemma_first_chip(v.drop_last(), i);
    }
}

proof fn lemma_first_zone(v: Seq<Folder>, i: int)
    requires
        0 <= i < v.len(),
        first_zone(v.take(i + 1)) == Some(i),
    ensures
        first_zone(v) == Some(i),
    decreases v.len() - i,
{
    if i + 1 == v.len() {
        assert(v.take(i + 1) =~= v);
    } else {
        assert(v.drop_last().take(i + 1) =~= v.take(i + 1));
        lemma_first_zone(v.drop_last(), i);
    }
}

/// The processor among the zones, for machines that have no chips to ask.
pub fn thermal_zone_sensor(zones: &Vec<Folder>) -> (r: Option<(usize, TemperatureMonitor)>)
    ensures
        (match r {
            Some((i, s)) => first_zone(zones@) == Some(i as int) && i < zones@.len()
                && is_zone_sensor(s, zones@[i as int]),
            None => first_zone(zones@) is None,
        }),
{
    assert(zones@.take(0) =~= Seq::empty());
    for i in 0..zones.len()
        invariant
            first_zone(zones@.take(i as int)) is None,
    {
        proof {
            assert(zones@.take(i + 1).drop_last() =~= zones@.take(i as int));
            assert(zones@.take(i + 1).last() == zones@[i as int]);
        }
        let kind = zones[i].word_in("type");
        if check_zone(kind.as_str()) {
            match millidegrees(zones[i].number_in("temp")) {
                Some(last) => {
                    proof {
                        lemma_first_zone(zones@, i as int);
                    }
                    let critical = zone_critical(&zones[i]);
                    return Some(
                        (
                            i,
                            TemperatureMonitor {
                                input: "temp".to_owned(),
                                source: kind,
                                critical,
                                last,
                            },
                        ),
                    );
                },
                None => {},
            }
        }
    }
    assert(zones@.take(zones@.len() as int) =~= zones@);
    None
}

impl TemperatureMonitor {
    /// Looks for a sensor of the processor: among the chips first, and then among the zones. A
    /// machine may have none.
    pub fn probe(chips: &Vec<Folder>, zones: &Vec<Folder>) -> (r: Option<(Spot, TemperatureMonitor)>)
        ensures
            (match r {
                Some((Spot::Chip(i), s)) => first_chip(chips@) == Some(i as int) && i
                    < chips@.len() && is_sensor_of(
                    s,
                    chips@[i as int],
                    chips@[i as int].word("name"@),
                ),
                Some((Spot::Zone(i), s)) => first_chip(chips@) is None && first_zone(zones@)
                    == Some(i as int) && i < zones@.len() && is_zone_sensor(s, zones@[i as int]),
                None => first_chip(chips@) is None && first_zone(zones@) is None,
            }),
    {
        match hwmon_sensor(chips) {
            Some((i, s)) => Some((Spot::Chip(i), s)),
            None => match thermal_zone_sensor(zones) {
                Some((i, s)) => Some((Spot::Zone(i), s)),
                None => None,
            },
        }
    }

    /// The reading now, in thousandths of a degree, given the double that its file reads as. A
    /// sensor that stops answering stays where it was.
    pub fn sample(&mut self, number: Option<u64>) -> (r: u64)
        ensures
            r == (match reading(number) {
                Some(b) => b,
                None => old(self).last,
            }),
            *final(self) == (TemperatureMonitor { last: r, ..*old(self) }),
    {
        match millidegrees(number) {
            Some(b) => {
                self.last = b;
            },
            None => {},
        }
        self.last
    }

    /// The reading from which on the sensor is in danger, where it says one.
    pub fn limit(&self) -> (r: Option<u64>)
        ensures
            r == self.critical,
    {
        self.critical
    }

    /// A reading as it reads, given its whole degrees.
    pub fn format(&self, degrees: &str) -> (r: String)
        ensures
            r@ == degrees@ + " °C"@,
    {
        cat2(degrees, " °C")
    }

    /// The name of the sensor, with its limit where it has one, given the whole degrees of that.
    pub fn extra(&self, degrees: &str) -> (r: String)
        ensures
            r@ == (match self.critical {
                Some(_) => self.source@ + " · crítico a "@ + degrees@ + " °C"@,
                None => self.source@,
            }),
    {
        match self.critical {
            Some(_) => cat4(self.source.as_str(), " · crítico a ", degrees, " °C"),
            None => self.source.clone(),
        }
    }
}

/// The sensor that is followed is of the first chip that is a processor's and answers.
pub proof fn lemma_chip_is_first(v: Seq<Folder>)
    ensures
        (match first_chip(v) {
            Some(k) => 0 <= k < v.len() && good_chip(v[k]) && forall|j: int|
                0 <= j < k ==> !good_chip(#[trigger] v[j]),
            None => forall|j: int| 0 <= j < v.len() ==> !good_chip(#[trigger] v[j]),
        }),
    decreases v.len(),
{
    if v.len() > 0 {
        let t = v.drop_last();
        lemma_chip_is_first(t);
        assert forall|j: int| 0 <= j < t.len() implies #[trigger] v[j] == t[j] by {}
    }
}

/// Or of the first zone that is a processor's and answers.
pub proof fn lemma_zone_is_first(v: Seq<Folder>)
    ensures
        (match first_zone(v) {
            Some(k) => 0 <= k < v.len() && good_zone(v[k]) && forall|j: int|
                0 <= j < k ==> !good_zone(#[trigger] v[j]),
            None => forall|j: int| 0 <= j < v.len() ==> !good_zone(#[trigger] v[j]),
        }),
    decreases v.len(),
{
    if v.len() > 0 {
        let t = v.drop_last();
        lemma_zone_is_first(t);
        assert forall|j: int| 0 <= j < t.len() implies #[trigger] v[j] == t[j] by {}
    }
}

/// Of the inputs of a chip the one of the whole package is read, the first of such; where none is
/// so named, the first of all.
pub proof fn lemma_chosen(f: Folder)
    ensures
        (match chosen(f) {
            Some(n) => {
                let v = inputs(f);
                ||| exists|k: int|
                    0 <= k < v.len() && #[trigger] v[k] == n && labelled(f, n) && forall|j: int|
                        0 <= j < k ==> !labelled(f, #[trigger] v[j])
                ||| v.len() > 0 && n == v[0] && forall|j: int|
                    0 <= j < v.len() ==> !labelled(f, #[trigger] v[j])
            },
            None => inputs(f).len() == 0,
        }),
{
    lemma_first_labelled(f, inputs(f));
}

proof fn lemma_first_labelled(f: Folder, v: Seq<Seq<char>>)
    ensures
        (match first_labelled(f, v) {
            Some(n) => exists|k: int|
                0 <= k < v.len() && #[trigger] v[k] == n && labelled(f, n) && forall|j: int|
                    0 <= j < k ==> !labelled(f, #[trigger] v[j]),
            None => forall|j: int| 0 <= j < v.len() ==> !labelled(f, #[trigger] v[j]),
        }),
    decreases v.len(),
{
    if v.len() > 0 && !labelled(f, v[0]) {
        let t = v.skip(1);
        lemma_first_labelled(f, t);
        match first_labelled(f, t) {
            Some(n) => {
                let k = choose|k: int|
                    0 <= k < t.len() && #[trigger] t[k] == n && labelled(f, n) && forall|j: int|
                        0 <= j < k ==> !labelled(f, #[trigger] t[j]);
                assert(v[k + 1] == n);
                assert forall|j: int| 0 <= j < k + 1 implies !labelled(f, #[trigger] v[j]) by {
                    if j > 0 {
                        assert(t[j - 1] == v[j]);
                    }
                }
            },
            None => {
                assert forall|j: int| 0 <= j < v.len() implies !labelled(f, #[trigger] v[j]) by {
                    if j > 0 {
                        assert(t[j - 1] == v[j]);
                    }
                }
            },
        }
    } else if v.len() > 0 {
        assert(v[0] == first_labelled(f, v)->0);
    }
}

/// A limit that is called critical goes before one that is called a maximum.
pub proof fn lemma_limit_of(f: Folder, input: Seq<char>)
    ensures
        limit_beside(f, input, "crit"@) is Some ==> limit_of(f, input) == limit_beside(
            f,
            input,
            "crit"@,
        ),
        limit_beside(f, input, "crit"@) is None ==> limit_of(f, input) == limit_beside(
            f,
            input,
            "max"@,
        ),
        limit_of(f, input) is Some ==> 0 < limit_of(f, input)->0 <= INFINITE,
{
}

/// What stands beside an input bears its name, with its last word changed.
pub proof fn lemma_beside(stem: Seq<char>, suffix: Seq<char>)
    ensures
        beside(stem + "_input"@, suffix) == Some(stem + seq!['_'] + suffix),
{
    reveal_strlit("_input");
    reveal_strlit("_");
    let s = stem + "_input"@;
    let n = stem.len() as int;
    assert(s.subrange(n, s.len() as int) =~= "_input"@);
    assert(s.take(n) =~= stem);
    assert("_"@ =~= seq!['_']);
}

} // verus!
