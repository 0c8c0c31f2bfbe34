//! The charts of the screen: one number over time each.

use vstd::prelude::*;
use crate::number::{dec, decimal, human, human_bytes};
use crate::text::{cat2, cat3, maybe, same};
use crate::monitor::process::as_place;
use crate::monitor::steal::Share;

verus! {

/// What a chart is of.
#[derive(Clone, Copy, PartialEq, Eq, Debug, Structural)]
pub enum Chart {
    Cpu,
    Temperature,
    Steal,
    Memory,
    Disk,
    NetRx,
    NetTx,
    DiskRead,
    DiskWrite,
    Gpu,
}

impl Chart {
    /// The name that a chart is stored under, which never changes.
    pub open spec fn key(self) -> Seq<char> {
        match self {
            Chart::Cpu => "cpu"@,
            Chart::Temperature => "cpu-temp"@,
            Chart::Steal => "cpu-steal"@,
            Chart::Memory => "memory"@,
            Chart::Disk => "disk"@,
            Chart::NetRx => "net_rx"@,
            Chart::NetTx => "net_tx"@,
            Chart::DiskRead => "disk_read"@,
            Chart::DiskWrite => "disk_write"@,
            Chart::Gpu => "gpu"@,
        }
    }

    /// The name that a chart is stored under.
    pub fn id(self) -> (r: &'static str)
        ensures
            r@ == self.key(),
    {
        match self {
            Chart::Cpu => "cpu",
            Chart::Temperature => "cpu-temp",
            Chart::Steal => "cpu-steal",
            Chart::Memory => "memory",
            Chart::Disk => "disk",
            Chart::NetRx => "net_rx",
            Chart::NetTx => "net_tx",
            Chart::DiskRead => "disk_read",
            Chart::DiskWrite => "disk_write",
            Chart::Gpu => "gpu",
        }
    }

    /// The heading of a chart.
    pub open spec fn heading(self) -> Seq<char> {
        match self {
            Chart::Cpu => "CPU"@,
            Chart::Temperature => "CPU temp"@,
            Chart::Steal => "CPU steal"@,
            Chart::Memory => "Memory"@,
            Chart::Disk => "Disk (/)"@,
            Chart::NetRx => "Net down"@,
            Chart::NetTx => "Net up"@,
            Chart::DiskRead => "Disk read"@,
            Chart::DiskWrite => "Disk write"@,
            Chart::Gpu => "GPU"@,
        }
    }

    /// The heading of a chart.
    pub fn title(self) -> (r: &'static str)
        ensures
            r@ == self.heading(),
    {
        match self {
            Chart::Cpu => "CPU",
            Chart::Temperature => "CPU temp",
            Chart::Steal => "CPU steal",
            Chart::Memory => "Memory",
            Chart::Disk => "Disk (/)",
            Chart::NetRx => "Net down",
            Chart::NetTx => "Net up",
            Chart::DiskRead => "Disk read",
            Chart::DiskWrite => "Disk write",
            Chart::Gpu => "GPU",
        }
    }

    /// The group that a chart is shown in.
    pub open spec fn family(self) -> Seq<char> {
        match self {
            Chart::Cpu | Chart::Temperature | Chart::Steal | Chart::Memory => "System"@,
            Chart::Disk | Chart::DiskRead | Chart::DiskWrite => "Disk"@,
            Chart::NetRx | Chart::NetTx => "Network"@,
            Chart::Gpu => "GPU"@,
        }
    }

    /// The group that a chart is shown in, which keeps what belongs together side by side.
    pub fn group(self) -> (r: &'static str)
        ensures
            r@ == self.family(),
    {
        match self {
            Chart::Cpu => "System",
            Chart::Temperature => "System",
            Chart::Steal => "System",
            Chart::Memory => "System",
            Chart::Disk => "Disk",
            Chart::DiskRead => "Disk",
            Chart::DiskWrite => "Disk",
            Chart::NetRx => "Network",
            Chart::NetTx => "Network",
            Chart::Gpu => "GPU",
        }
    }

    /// The chart is of a percentage of something.
    pub open spec fn is_share(self) -> bool {
        self is Cpu || self is Memory || self is Disk || self is Gpu
    }

    /// How high the numbers of a chart can go, in percent; nothing for one without a bound.
    pub fn limit(self) -> (r: Option<u64>)
        ensures
            r == (if self.is_share() {
                Some(100u64)
            } else {
                None
            }),
    {
        match self {
            Chart::Cpu => Some(100),
            Chart::Memory => Some(100),
            Chart::Disk => Some(100),
            Chart::Gpu => Some(100),
            _ => None,
        }
    }
}

/// No two charts are stored under one name.
pub proof fn lemma_one_key_each(a: Chart, b: Chart)
    requires
        a != b,
    ensures
        a.key() != b.key(),
{
    reveal_strlit("cpu");
    reveal_strlit("cpu-temp");
    reveal_strlit("cpu-steal");
    reveal_strlit("memory");
    reveal_strlit("disk");
    reveal_strlit("net_rx");
    reveal_strlit("net_tx");
    reveal_strlit("disk_read");
    reveal_strlit("disk_write");
    reveal_strlit("gpu");
    assert("cpu"@[0] == 'c' && "gpu"@[0] == 'g');
    assert("net_rx"@[4] == 'r' && "net_tx"@[4] == 't' && "memory"@[4] == 'r' && "memory"@[0] == 'm'
        && "net_rx"@[0] == 'n');
    assert("cpu-steal"@[0] == 'c' && "disk_read"@[0] == 'd');
    assert(a.key().len() == b.key().len() ==> a.key()[0] != b.key()[0] || a.key()[4] != b.key()[4]);
}

/// The charts of a machine, those that it can have only where something answers.
pub open spec fn charts_of(temperature: bool, steal: bool, gpu: bool) -> Seq<Chart> {
    let v = seq![Chart::Cpu];
    let v = if temperature {
        v.push(Chart::Temperature)
    } else {
        v
    };
    let v = if steal {
        v.push(Chart::Steal)
    } else {
        v
    };
    let v = v.push(Chart::Memory).push(Chart::Disk).push(Chart::NetRx).push(Chart::NetTx).push(
        Chart::DiskRead,
    ).push(Chart::DiskWrite);
    if gpu {
        v.push(Chart::Gpu)
    } else {
        v
    }
}

/// The charts of a machine: a sensor, a hypervisor or a graphics card that is not there has
/// none.
pub fn all_monitors(temperature: bool, steal: bool, gpu: bool) -> (r: Vec<Chart>)
    ensures
        r@ == charts_of(temperature, steal, gpu),
{
    let mut v: Vec<Chart> = Vec::new();
    v.push(Chart::Cpu);
    assert(v@ =~= seq![Chart::Cpu]);
    if temperature {
        v.push(Chart::Temperature);
    }
    if steal {
        v.push(Chart::Steal);
    }
    v.push(Chart::Memory);
    v.push(Chart::Disk);
    v.push(Chart::NetRx);
    v.push(Chart::NetTx);
    v.push(Chart::DiskRead);
    v.push(Chart::DiskWrite);
    if gpu {
        v.push(Chart::Gpu);
    }
    v
}

/// What a chart of a capacity says beside its number.
pub open spec fn capacity_text(used: u64, total: u64) -> Seq<char> {
    human(used as nat) + " / "@ + human(total as nat)
}

/// What a chart of a capacity says beside its number.
pub fn write_capacity(used: u64, total: u64) -> (r: String)
    ensures
        r@ == capacity_text(used, total),
{
    cat3(human_bytes(used).as_str(), " / ", human_bytes(total).as_str())
}

/// The chart of the processors.
#[derive(Debug)]
pub struct CpuMonitor;

impl CpuMonitor {
    /// How many processors there are.
    pub fn extra(&self, cpus: usize) -> (r: String)
        ensures
            r@ == decimal(cpus as nat) + " cores"@,
    {
        cat2(dec(cpus as u64).as_str(), " cores")
    }
}

/// The chart of memory.
#[derive(Debug)]
pub struct MemoryMonitor;

impl MemoryMonitor {
    /// The share of memory in use; none of none.
    pub fn sample(&self, used: u64, total: u64) -> (r: Share)
        ensures
            r == (if total == 0 {
                Share { part: 0, whole: 0 }
            } else {
                Share { part: used, whole: total }
            }),
    {
        if total == 0 {
            Share { part: 0, whole: 0 }
        } else {
            Share { part: used, whole: total }
        }
    }

    /// What is in use, and all of it.
    pub fn extra(&self, used: u64, total: u64) -> (r: String)
        ensures
            r@ == capacity_text(used, total),
    {
        write_capacity(used, total)
    }

    /// All of the memory.
    pub fn capacity(&self, total: u64) -> (r: Option<u64>)
        ensures
            r == Some(total),
    {
        Some(total)
    }
}

/// A disk, as the charts see it.
#[derive(Debug)]
pub struct DiskFacts {
    pub mount_point: String,
    pub total: u64,
    pub available: u64,
    /// What was read from and written to it since the sample before.
    pub read: u64,
    pub written: u64,
}

/// The first disk that is mounted at the root.
pub open spec fn root_disk(v: Seq<DiskFacts>) -> Option<int>
    decreases v.len(),
{
    if v.len() == 0 {
        None
    } else {
        match root_disk(v.drop_last()) {
            Some(i) => Some(i),
            None => if v.last().mount_point@ == "/"@ {
                Some(v.len() - 1)
            } else {
                None
            },
        }
    }
}

/// The disk that the charts are of: the one at the root, or the first where none is.
pub open spec fn main_disk(v: Seq<DiskFacts>) -> Option<int> {
    match root_disk(v) {
        Some(i) => Some(i),
        None => if v.len() > 0 {
            Some(0)
        } else {
            None
        },
    }
}

/// The disk that the charts are of.
pub fn primary_disk(v: &Vec<DiskFacts>) -> (r: Option<usize>)
    ensures
        as_place(r) == main_disk(v@),
        r is Some ==> r->0 < v@.len(),
{
    let mut r: Option<usize> = None;
    assert(v@.take(0) =~= Seq::empty());
    for i in 0..v.len()
        invariant
            as_place(r) == root_disk(v@.take(i as int)),
            r is Some ==> r->0 < v@.len(),
    {
        assert(v@.take(i + 1).drop_last() =~= v@.take(i as int));
        assert(v@.take(i + 1).last() == v@[i as int]);
        if r.is_none() && same(v[i].mount_point.as_str(), "/") {
            r = Some(i);
        }
    }
    assert(v@.take(v@.len() as int) =~= v@);
    match r {
        Some(i) => Some(i),
        None => if v.len() > 0 {
            Some(0)
        } else {
            None
        },
    }
}

/// What is in use on a disk.
pub open spec fn used_on(d: DiskFacts) -> u64 {
    if d.total >= d.available {
        (d.total - d.available) as u64
    } else {
        0
    }
}

fn count_used(d: &DiskFacts) -> (r: u64)
    ensures
        r == used_on(*d),
{
    if d.total >= d.available {
        d.total - d.available
    } else {
        0
    }
}

/// The chart of the main disk.
#[derive(Debug)]
pub struct DiskMonitor;

impl DiskMonitor {
    /// The share of the main disk in use; none where there is no disk.
    pub fn sample(&self, v: &Vec<DiskFacts>) -> (r: Share)
        ensures
            r == (match main_disk(v@) {
                Some(i) => if v@[i].total == 0 {
                    Share { part: 0, whole: 0 }
                } else {
                    Share { part: used_on(v@[i]), whole: v@[i].total }
                },
                None => Share { part: 0, whole: 0 },
            }),
    {
        match primary_disk(v) {
            Some(i) => if v[i].total == 0 {
                Share { part: 0, whole: 0 }
            } else {
                Share { part: count_used(&v[i]), whole: v[i].total }
            },
            None => Share { part: 0, whole: 0 },
        }
    }

    /// What is in use on the main disk, and all of it.
    pub fn extra(&self, v: &Vec<DiskFacts>) -> (r: Option<String>)
        ensures
            maybe(r) == (match main_disk(v@) {
                Some(i) => Some(capacity_text(used_on(v@[i]), v@[i].total)),
                None => None,
            }),
    {
        match primary_disk(v) {
            Some(i) => Some(write_capacity(count_used(&v[i]), v[i].total)),
            None => None,
        }
    }

    /// The chart shows its number alone.
    pub fn numeric_only(&self) -> (r: bool)
        ensures
            r,
    {
        true
    }
}

/// The chart of what is read from the main disk.
#[derive(Debug)]
pub struct DiskReadMonitor;

impl DiskReadMonitor {
    /// What was read since the sample before.
    pub fn sample(&self, v: &Vec<DiskFacts>) -> (r: u64)
        ensures
            r == (match main_disk(v@) {
                Some(i) => v@[i].read,
                None => 0,
            }),
    {
        match primary_disk(v) {
            Some(i) => v[i].read,
            None => 0,
        }
    }
}

/// The chart of what is written to the main disk.
#[derive(Debug)]
pub struct DiskWriteMonitor;

impl DiskWriteMonitor {
    /// What was written since the sample before.
    pub fn sample(&self, v: &Vec<DiskFacts>) -> (r: u64)
        ensures
            r == (match main_disk(v@) {
                Some(i) => v@[i].written,
                None => 0,
            }),
    {
        match primary_disk(v) {
            Some(i) => v[i].written,
            None => 0,
        }
    }
}

/// The sum of what the first `n` interfaces moved.
pub open spec fn moved_by(v: Seq<(String, u64)>, n: int) -> nat
    decreases n,
{
    if n <= 0 {
        0
    } else {
        moved_by(v, n - 1) + v[n - 1].1 as nat
    }
}

/// The one of the first `n` interfaces that moved the most, the last of equal ones.
pub open spec fn heaviest(v: Seq<(String, u64)>, n: int) -> int
    decreases n,
{
    if n <= 1 {
        0
    } else if v[n - 1].1 >= v[heaviest(v, n - 1)].1 {
        n - 1
    } else {
        heaviest(v, n - 1)
    }
}

proof fn lemma_moved_bound(v: Seq<(String, u64)>, n: int)
    requires
        0 <= n,
    ensures
        moved_by(v, n) <= n * 0xffff_ffff_ffff_ffff,
    decreases n,
{
    if n > 0 {
        lemma_moved_bound(v, n - 1);
        assert((n - 1) * 0xffff_ffff_ffff_ffff + 0xffff_ffff_ffff_ffff == n
            * 0xffff_ffff_ffff_ffff) by (nonlinear_arith);
    }
}

/// What all interfaces moved together.
pub fn total_moved(v: &Vec<(String, u64)>) -> (r: u128)
    ensures
        r == moved_by(v@, v@.len() as int),
{
    let total: usize = v.len();
    let mut n: u128 = 0;
    for i in 0..total
        invariant
            total == v@.len(),
            n == moved_by(v@, i as int),
    {
        proof {
            lemma_moved_bound(v@, i as int);
            assert(i * 0xffff_ffff_ffff_ffff <= 0xffff_ffff_ffff_ffff * 0xffff_ffff_ffff_ffff)
                by (nonlinear_arith)
                requires
                    i <= 0xffff_ffff_ffff_ffff,
            ;
            assert(0xffff_ffff_ffff_ffff * 0xffff_ffff_ffff_ffff + 0xffff_ffff_ffff_ffff
                <= u128::MAX);
        }
        n = n + v[i].1 as u128;
    }
    n
}

/// The interface that moved the most, what it moved, and what all moved together. The sum alone
/// says how much moves, and not over what. There is nothing where nothing moved.
pub fn busiest(v: &Vec<(String, u64)>) -> (r: Option<(usize, u64, u128)>)
    ensures
        (match r {
            Some((i, moved, total)) => total == moved_by(v@, v@.len() as int) && total > 0 && i
                == heaviest(v@, v@.len() as int) && i < v@.len() && moved == v@[i as int].1,
            None => moved_by(v@, v@.len() as int) == 0,
        }),
{
    let total = total_moved(v);
    if total == 0 {
        return None;
    }
    let mut best: usize = 0;
    for i in 1..v.len()
        invariant
            best == heaviest(v@, i as int),
            best < i || v@.len() == 0,
            v@.len() > 0 ==> best < v@.len(),
    {
        if v[i].1 >= v[best].1 {
            best = i;
        }
    }
    proof {
        if v@.len() == 0 {
            assert(moved_by(v@, 0) == 0);
        }
    }
    Some((best, v[best].1, total))
}

/// The chart of what comes in over the network.
#[derive(Debug)]
pub struct NetRxMonitor;

impl NetRxMonitor {
    /// What all interfaces received since the sample before.
    pub fn sample(&self, v: &Vec<(String, u64)>) -> (r: u128)
        ensures
            r == moved_by(v@, v@.len() as int),
    {
        total_moved(v)
    }
}

/// The chart of what goes out over the network.
#[derive(Debug)]
pub struct NetTxMonitor;

impl NetTxMonitor {
    /// What all interfaces sent since the sample before.
    pub fn sample(&self, v: &Vec<(String, u64)>) -> (r: u128)
        ensures
            r == moved_by(v@, v@.len() as int),
    {
        total_moved(v)
    }
}

/// The chart of a graphics card.
#[derive(Debug)]
pub struct GpuMonitor;

impl GpuMonitor {
    /// A chart, where a driver answers.
    pub fn probe(answers: bool) -> (r: Option<GpuMonitor>)
        ensures
            r is Some <==> answers,
    {
        if answers {
            Some(GpuMonitor)
        } else {
            None
        }
    }

    /// The share of the core in use, in percent; 0 where the card does not answer.
    pub fn sample(&self, core: Option<u32>) -> (r: u32)
        ensures
            r == (match core {
                Some(n) => n,
                None => 0,
            }),
    {
        match core {
            Some(n) => n,
            None => 0,
        }
    }

    /// The memory in use, and all of it.
    pub fn extra(&self, memory: Option<(u64, u64)>) -> (r: Option<String>)
        ensures
            maybe(r) == (match memory {
                Some(m) => Some(capacity_text(m.0, m.1)),
                None => None,
            }),
    {
        match memory {
            Some((used, total)) => Some(write_capacity(used, total)),
            None => None,
        }
    }
}

/// The last value that a tool published, as a bit pattern of a double.
#[derive(Debug)]
pub struct LiveSeries {
    pub bits: u64,
}

impl LiveSeries {
    /// A series that nothing was published to: it reads as zero.
    pub fn new() -> (r: LiveSeries)
        ensures
            r.bits == 0,
    {
        LiveSeries { bits: 0 }
    }

    /// Publishes a value, which takes the place of the one before.
    pub fn publish(&mut self, bits: u64)
        ensures
            final(self).bits == bits,
    {
        self.bits = bits;
    }

    /// The last value that was published.
    pub fn latest(&self) -> (r: u64)
        ensures
            r == self.bits,
    {
        self.bits
    }
}

/// A chart that a tool feeds, named after what the tool was pointed at.
#[derive(Debug)]
pub struct LiveMonitor {
    pub key: String,
    pub title: String,
    pub group: &'static str,
    pub series: LiveSeries,
}

impl LiveMonitor {
    /// A chart over a series.
    pub fn new(key: &str, title: &str, group: &'static str, series: LiveSeries) -> (r: LiveMonitor)
        ensures
            r.key@ == key@,
            r.title@ == title@,
            r.group@ == group@,
            r.series == series,
    {
        LiveMonitor { key: key.to_owned(), title: title.to_owned(), group, series }
    }

    /// The last value of the series: the chart samples the stream, and is not the stream.
    pub fn sample(&self) -> (r: u64)
        ensures
            r == self.series.bits,
    {
        self.series.latest()
    }
}

/// What is used on a disk and what is free make up the whole of it.
pub proof fn lemma_used_on(d: DiskFacts)
    requires
        d.available <= d.total,
    ensures
        used_on(d) + d.available == d.total,
{
}

/// The disk that is shown is the first that is mounted at the root; where none is, the first.
pub proof fn lemma_main_disk(v: Seq<DiskFacts>)
    ensures
        (match main_disk(v) {
            Some(k) => 0 <= k < v.len() && ((v[k].mount_point@ == "/"@ && forall|j: int|
                0 <= j < k ==> (#[trigger] v[j]).mount_point@ != "/"@) || (k == 0 && forall|j: int|
                0 <= j < v.len() ==> (#[trigger] v[j]).mount_point@ != "/"@)),
            None => v.len() == 0,
        }),
{
    lemma_disk_at_root(v);
}

proof fn lemma_disk_at_root(v: Seq<DiskFacts>)
    ensures
        (match root_disk(v) {
            Some(k) => 0 <= k < v.len() && v[k].mount_point@ == "/"@ && forall|j: int|
                0 <= j < k ==> (#[trigger] v[j]).mount_point@ != "/"@,
            None => forall|j: int| 0 <= j < v.len() ==> (#[trigger] v[j]).mount_point@ != "/"@,
        }),
    decreases v.len(),
{
    if v.len() > 0 {
        let t = v.drop_last();
        lemma_disk_at_root(t);
        assert forall|j: int| 0 <= j < t.len() implies #[trigger] v[j] == t[j] by {}
    }
}

/// What moved through some interfaces together is no less than through any of them, and none moved
/// more than the heaviest.
pub proof fn lemma_heaviest(v: Seq<(String, u64)>, n: int, i: int)
    requires
        0 <= i < n <= v.len(),
    ensures
        0 <= heaviest(v, n) < n,
        v[i].1 <= v[heaviest(v, n)].1,
        v[i].1 <= moved_by(v, n),
        moved_by(v, n) == moved_by(v, n - 1) + v[n - 1].1,
    decreases n,
{
    if n > 1 {
        if i < n - 1 {
            lemma_heaviest(v, n - 1, i);
        } else {
            lemma_heaviest(v, n - 1, 0);
        }
    }
}

} // verus!
