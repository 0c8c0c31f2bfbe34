//! The network interfaces of this machine: what they are, what they are called, and what is
//! moving through them.

use vstd::prelude::*;
use crate::dict::{find_pair, lemma_put, once, pairs, put, put_pair, under};
use crate::number::{dec, decimal, human, human_bytes, natural, parse_upto, within};
use crate::order::{
    goes_before, is_order, lemma_order_distinct, lemma_order_exists, lemma_sorted, sorted_by,
    stable_order,
};
use crate::pick::{lemma_pick, lemma_pick_ends, picked};
use crate::text::{
    before, begins, cat2, cat3, cat4, cat5, contains_char, cut_once, finishes, first_some,
    head_before, is_without, is_word, join, joined, lemma_join_words, lemma_reach, lines, maybe,
    past, same, split_lines, split_once, split_words, strip_prefix, trim, trim_end_of, trimmed,
    trimmed_end, views, words, Cut,
};
use crate::monitor::{
    is_leaf, sections_of, with_each, with_field, with_some, Detail, DetailSection, Handoff, Rates,
    SectionV, TableRow,
};
use crate::monitor::ip::{address_in, hex_ipv4, ipv4_text};
use crate::monitor::ports::capped;

verus! {

/// The headers of the table.
pub const HEADERS: [&'static str; 4] = ["Iface", "State", "Address", "Rate"];

/// How many interfaces are named on one line before the rest becomes a count.
pub const SUMMARY_INTERFACES: usize = 3;

/// An interface.
#[derive(Debug)]
pub struct Interface {
    pub name: String,
    pub kind: &'static str,
    /// The kernel's own word for its state.
    pub operstate: String,
    /// Whether the link is there, where the question applies.
    pub carrier: Option<bool>,
    pub mac: Option<String>,
    pub mtu: Option<u64>,
    /// The negotiated speed in Mb/s.
    pub speed: Option<u64>,
    pub duplex: Option<String>,
    pub driver: Option<String>,
    /// Its addresses with their prefix lengths, IPv4 first.
    pub addresses: Vec<String>,
    pub rx_bytes: u64,
    pub tx_bytes: u64,
    pub rx_packets: u64,
    pub tx_packets: u64,
    pub rx_errors: u64,
    pub tx_errors: u64,
    pub rx_dropped: u64,
    pub tx_dropped: u64,
}

/// An address of the newer family: its text has colons.
pub open spec fn is_v6(address: Seq<char>) -> bool {
    address.contains(':')
}

/// The first address of the older family, without its prefix length.
pub open spec fn first_v4(addresses: Seq<Seq<char>>) -> Option<Seq<char>>
    decreases addresses.len(),
{
    if addresses.len() == 0 {
        None
    } else if !is_v6(addresses[0]) {
        Some(before(addresses[0], Cut::At('/')))
    } else {
        first_v4(addresses.skip(1))
    }
}

impl Interface {
    /// Traffic can cross it. Every virtual interface reports `unknown`, and is not down.
    pub open spec fn up(self) -> bool {
        self.operstate@ == "up"@ || self.operstate@ == "unknown"@
    }

    /// Whether traffic can cross it.
    pub fn is_up(&self) -> (r: bool)
        ensures
            r == self.up(),
    {
        same(self.operstate.as_str(), "up") || same(self.operstate.as_str(), "unknown")
    }

    /// The addresses on one line, or a word saying that there are none.
    pub open spec fn address_line(self) -> Seq<char> {
        if self.addresses@.len() == 0 {
            "sem endereço"@
        } else {
            joined(views(self.addresses@), " · "@)
        }
    }

    /// The addresses on one line.
    pub fn address_summary(&self) -> (r: String)
        ensures
            r@ == self.address_line(),
    {
        if self.addresses.len() == 0 {
            "sem endereço".to_owned()
        } else {
            join(self.addresses.as_slice(), " · ")
        }
    }

    /// The first IPv4 address: what people mean by the machine's address.
    pub fn ipv4(&self) -> (r: Option<String>)
        ensures
            maybe(r) == first_v4(views(self.addresses@)),
    {
        let ghost vs = views(self.addresses@);
        assert(vs.skip(0) =~= vs);
        for i in 0..self.addresses.len()
            invariant
                vs == views(self.addresses@),
                first_v4(vs.skip(i as int)) == first_v4(vs),
        {
            assert(vs.skip(i as int)[0] == vs[i as int]);
            assert(vs.skip(i as int).skip(1) =~= vs.skip(i + 1));
            if !contains_char(self.addresses[i].as_str(), ':') {
                return Some(head_before(self.addresses[i].as_str(), '/'));
            }
        }
        None
    }
}

// --- reading --------------------------------------------------------------------------------------

/// An attribute, where its file holds more than blanks.
pub open spec fn attribute_in(content: Option<Seq<char>>) -> Option<Seq<char>> {
    match content {
        Some(c) => if trimmed(c).len() > 0 {
            Some(trimmed(c))
        } else {
            None
        },
        None => None,
    }
}

/// Reads an attribute.
pub fn attribute(content: &Option<String>) -> (r: Option<String>)
    ensures
        maybe(r) == attribute_in(maybe(*content)),
{
    match content {
        Some(c) => {
            let t = trim(c.as_str());
            if t.as_str().is_empty() {
                None
            } else {
                Some(t)
            }
        },
        None => None,
    }
}

/// A number that an attribute writes.
pub open spec fn number_in(content: Option<Seq<char>>) -> Option<u64> {
    match attribute_in(content) {
        Some(t) => match within(natural(t), u64::MAX as nat) {
            Some(n) => Some(n as u64),
            None => None,
        },
        None => None,
    }
}

/// Reads a number that an attribute writes.
pub fn number(content: &Option<String>) -> (r: Option<u64>)
    ensures
        r == number_in(maybe(*content)),
{
    match attribute(content) {
        Some(t) => parse_upto(t.as_str(), u64::MAX),
        None => None,
    }
}

/// A counter: 0 where it cannot be read.
pub open spec fn counter_in(content: Option<Seq<char>>) -> u64 {
    match number_in(content) {
        Some(n) => n,
        None => 0,
    }
}

/// Reads a counter.
fn counter(content: &Option<String>) -> (r: u64)
    ensures
        r == counter_in(maybe(*content)),
{
    match number(content) {
        Some(n) => n,
        None => 0,
    }
}

/// What follows `key=` on the first line that begins so.
pub fn uevent(content: &str, key: &str) -> (r: Option<String>)
    ensures
        maybe(r) == first_some(lines(content@), |l: Seq<char>| past(l, key@ + "="@)),
{
    let prefix = cat2(key, "=");
    let ls = split_lines(content);
    let ghost vs = views(ls@);
    let ghost f = |l: Seq<char>| past(l, key@ + "="@);
    assert(vs.skip(0) =~= vs);
    for i in 0..ls.len()
        invariant
            prefix@ == key@ + "="@,
            vs == views(ls@),
            vs == lines(content@),
            f == (|l: Seq<char>| past(l, key@ + "="@)),
            first_some(vs.skip(i as int), f) == first_some(vs, f),
    {
        assert(vs.skip(i as int)[0] == vs[i as int]);
        assert(vs.skip(i as int).skip(1) =~= vs.skip(i + 1));
        match strip_prefix(ls[i].as_str(), prefix.as_str()) {
            Some(v) => {
                return Some(v);
            },
            None => {},
        }
    }
    None
}

/// What sort of interface this is: a wireless directory is the last word on Wi-Fi, then comes
/// the type of device that the kernel made, then the number of its hardware type.
pub open spec fn kind_text(
    wireless: bool,
    devtype: Option<Seq<char>>,
    arphrd: Option<u64>,
    bridge: bool,
) -> Seq<char> {
    if wireless || devtype == Some("wlan"@) {
        "Wi-Fi"@
    } else if devtype == Some("bridge"@) {
        "ponte"@
    } else if devtype == Some("vlan"@) {
        "VLAN"@
    } else if devtype == Some("bond"@) {
        "agregado"@
    } else if devtype == Some("wireguard"@) {
        "VPN WireGuard"@
    } else if devtype == Some("veth"@) {
        "par virtual"@
    } else {
        match arphrd {
            Some(n) => if n == 772 {
                "loopback"@
            } else if n == 65534 {
                "túnel"@
            } else if n == 512 {
                "PPP"@
            } else if n == 776 || n == 768 {
                "túnel IP"@
            } else if n == 1 {
                if bridge {
                    "ponte"@
                } else {
                    "Ethernet"@
                }
            } else {
                "outro"@
            },
            None => "outro"@,
        }
    }
}

/// Whether an optional text is a given one.
fn is_text(t: &Option<String>, s: &str) -> (r: bool)
    ensures
        r == (maybe(*t) == Some(s@)),
{
    match t {
        Some(x) => same(x.as_str(), s),
        None => false,
    }
}

/// What sort of interface this is.
pub fn kind_of(wireless: bool, devtype: &Option<String>, arphrd: Option<u64>, bridge: bool) -> (r:
    &'static str)
    ensures
        r@ == kind_text(wireless, maybe(*devtype), arphrd, bridge),
{
    if wireless || is_text(devtype, "wlan") {
        return "Wi-Fi";
    }
    if is_text(devtype, "bridge") {
        return "ponte";
    }
    if is_text(devtype, "vlan") {
        return "VLAN";
    }
    if is_text(devtype, "bond") {
        return "agregado";
    }
    if is_text(devtype, "wireguard") {
        return "VPN WireGuard";
    }
    if is_text(devtype, "veth") {
        return "par virtual";
    }
    match arphrd {
        Some(n) => if n == 772 {
            "loopback"
        } else if n == 65534 {
            "túnel"
        } else if n == 512 {
            "PPP"
        } else if n == 776 || n == 768 {
            "túnel IP"
        } else if n == 1 {
            if bridge {
                "ponte"
            } else {
                "Ethernet"
            }
        } else {
            "outro"
        },
        None => "outro",
    }
}

/// The quality and the level of the link on a line about an interface.
pub open spec fn signal_line(line: Seq<char>, name: Seq<char>) -> Option<(Seq<char>, Seq<char>)> {
    match cut_once(line, Cut::At(':')) {
        None => None,
        Some((i, rest)) => {
            let f = words(rest);
            if trimmed(i) != name || f.len() < 3 {
                None
            } else {
                Some((trimmed_end(f[1], Cut::At('.')), trimmed_end(f[2], Cut::At('.'))))
            }
        },
    }
}

/// The texts of an optional pair.
pub open spec fn pair_of(p: Option<(String, String)>) -> Option<(Seq<char>, Seq<char>)> {
    match p {
        Some(x) => Some((x.0@, x.1@)),
        None => None,
    }
}

/// Reads a line about a wireless link.
fn read_signal(line: &str, name: &str) -> (r: Option<(String, String)>)
    ensures
        pair_of(r) == signal_line(line@, name@),
{
    match split_once(line, ':') {
        None => None,
        Some((i, rest)) => {
            let f = split_words(rest.as_str());
            assert(views(f@).len() == f@.len());
            let t = trim(i.as_str());
            if !same(t.as_str(), name) || f.len() < 3 {
                None
            } else {
                assert(views(f@)[1] == f@[1]@ && views(f@)[2] == f@[2]@);
                Some(
                    (
                        trim_end_of(f[1].as_str(), Cut::At('.')),
                        trim_end_of(f[2].as_str(), Cut::At('.')),
                    ),
                )
            }
        },
    }
}

/// The quality and the level of a wireless link, out of the kernel's table.
pub fn wireless_signal(content: &str, name: &str) -> (r: Option<(String, String)>)
    ensures
        pair_of(r) == first_some(lines(content@), |l: Seq<char>| signal_line(l, name@)),
{
    let ls = split_lines(content);
    let ghost vs = views(ls@);
    let ghost f = |l: Seq<char>| signal_line(l, name@);
    assert(vs.skip(0) =~= vs);
    for i in 0..ls.len()
        invariant
            vs == views(ls@),
            vs == lines(content@),
            f == (|l: Seq<char>| signal_line(l, name@)),
            first_some(vs.skip(i as int), f) == first_some(vs, f),
    {
        assert(vs.skip(i as int)[0] == vs[i as int]);
        assert(vs.skip(i as int).skip(1) =~= vs.skip(i + 1));
        match read_signal(ls[i].as_str(), name) {
            Some(v) => {
                return Some(v);
            },
            None => {},
        }
    }
    None
}

/// Addresses with those of the older family first, each family as it stood.
pub open spec fn v4_first(v: Seq<Seq<char>>) -> Seq<Seq<char>> {
    sorted_by(
        v,
        Seq::new(
            v.len(),
            |i: int|
                if is_v6(v[i]) {
                    1i128
                } else {
                    0i128
                },
        ),
    )
}

/// Puts the addresses of the older family first.
pub fn addresses_of(v: &Vec<String>) -> (r: Vec<String>)
    ensures
        views(r@) == v4_first(views(v@)),
{
    let ghost vs = views(v@);
    let ghost key = |i: int|
        if is_v6(vs[i]) {
            1i128
        } else {
            0i128
        };
    let mut keys: Vec<i128> = Vec::new();
    for i in 0..v.len()
        invariant
            vs == views(v@),
            key == (|i: int|
                if is_v6(vs[i]) {
                    1i128
                } else {
                    0i128
                }),
            keys@ =~= Seq::new(i as nat, key),
    {
        keys.push(
            if contains_char(v[i].as_str(), ':') {
                1
            } else {
                0
            },
        );
    }
    let o = stable_order(keys.as_slice());
    proof {
        assert(keys@ =~= Seq::new(vs.len(), key));
        lemma_sorted(vs, keys@, o@);
    }
    let mut r: Vec<String> = Vec::new();
    for i in 0..o.len()
        invariant
            is_order(keys@, o@),
            keys@.len() == v@.len(),
            vs == views(v@),
            views(r@) =~= Seq::new(i as nat, |k: int| vs[o@[k] as int]),
    {
        let ghost before = r@;
        r.push(v[o[i]].clone());
        assert(views(r@) =~= views(before).push(vs[o@[i as int] as int]));
    }
    assert(views(r@) =~= sorted_by(vs, keys@));
    r
}

/// The files of an interface, as they were read.
#[derive(Debug)]
pub struct Files {
    pub operstate: Option<String>,
    pub carrier: Option<String>,
    pub address: Option<String>,
    pub mtu: Option<String>,
    pub speed: Option<String>,
    pub duplex: Option<String>,
    pub driver: Option<String>,
    pub rx_bytes: Option<String>,
    pub tx_bytes: Option<String>,
    pub rx_packets: Option<String>,
    pub tx_packets: Option<String>,
    pub rx_errors: Option<String>,
    pub tx_errors: Option<String>,
    pub rx_dropped: Option<String>,
    pub tx_dropped: Option<String>,
}

/// What the files of an interface say of it.
pub open spec fn described(i: Interface, f: Files, kind: Seq<char>, addresses: Seq<Seq<char>>) -> bool {
    &&& i.kind@ == kind
    &&& i.operstate@ == (match attribute_in(maybe(f.operstate)) {
        Some(s) => s,
        None => "?"@,
    })
    &&& i.carrier == (match attribute_in(maybe(f.carrier)) {
        Some(s) => Some(s == "1"@),
        None => None,
    })
    &&& maybe(i.mac) == (match attribute_in(maybe(f.address)) {
        Some(s) => if s == "00:00:00:00:00:00"@ {
            None
        } else {
            Some(s)
        },
        None => None,
    })
    &&& i.mtu == number_in(maybe(f.mtu))
    &&& i.speed == number_in(maybe(f.speed))
    &&& maybe(i.duplex) == attribute_in(maybe(f.duplex))
    &&& maybe(i.driver) == maybe(f.driver)
    &&& views(i.addresses@) == v4_first(addresses)
    &&& i.rx_bytes == counter_in(maybe(f.rx_bytes)) && i.tx_bytes == counter_in(maybe(f.tx_bytes))
    &&& i.rx_packets == counter_in(maybe(f.rx_packets)) && i.tx_packets == counter_in(
        maybe(f.tx_packets),
    )
    &&& i.rx_errors == counter_in(maybe(f.rx_errors)) && i.tx_errors == counter_in(
        maybe(f.tx_errors),
    )
    &&& i.rx_dropped == counter_in(maybe(f.rx_dropped)) && i.tx_dropped == counter_in(
        maybe(f.tx_dropped),
    )
}

/// An interface, out of its files.
pub fn describe(name: String, kind: &'static str, f: &Files, addresses: &Vec<String>) -> (r:
    Interface)
    ensures
        r.name == name,
        described(r, *f, kind@, views(addresses@)),
{
    let operstate = match attribute(&f.operstate) {
        Some(s) => s,
        None => "?".to_owned(),
    };
    let carrier = match attribute(&f.carrier) {
        Some(s) => Some(same(s.as_str(), "1")),
        None => None,
    };
    let mac = match attribute(&f.address) {
        Some(s) => if same(s.as_str(), "00:00:00:00:00:00") {
            None
        } else {
            Some(s)
        },
        None => None,
    };
    let driver = match &f.driver {
        Some(d) => Some(d.clone()),
        None => None,
    };
    Interface {
        name,
        kind,
        operstate,
        carrier,
        mac,
        mtu: number(&f.mtu),
        speed: number(&f.speed),
        duplex: attribute(&f.duplex),
        driver,
        addresses: addresses_of(addresses),
        rx_bytes: counter(&f.rx_bytes),
        tx_bytes: counter(&f.tx_bytes),
        rx_packets: counter(&f.rx_packets),
        tx_packets: counter(&f.tx_packets),
        rx_errors: counter(&f.rx_errors),
        tx_errors: counter(&f.tx_errors),
        rx_dropped: counter(&f.rx_dropped),
        tx_dropped: counter(&f.tx_dropped),
    }
}

// --- the order of the list --------------------------------------------------------------------------

/// By what interfaces are ordered: loopback last, then those that are down, then those
/// without an address, and among the rest the one that moved the most first.
pub open spec fn rank(i: Interface) -> i128 {
    let lo = if i.name@ == "lo"@ {
        4int
    } else {
        0
    };
    let down = if i.up() {
        0int
    } else {
        2
    };
    let bare = if i.addresses@.len() == 0 {
        1int
    } else {
        0
    };
    ((lo + down + bare) * 0x4_0000_0000_0000_0000 + (0x2_0000_0000_0000_0000 - (i.rx_bytes
        + i.tx_bytes))) as i128
}

fn rank_of(i: &Interface) -> (r: i128)
    ensures
        r == rank(*i),
{
    let mut class: i128 = 0;
    if same(i.name.as_str(), "lo") {
        class = class + 4;
    }
    if !i.is_up() {
        class = class + 2;
    }
    if i.addresses.len() == 0 {
        class = class + 1;
    }
    class * 0x4_0000_0000_0000_0000 + (0x2_0000_0000_0000_0000 - (i.rx_bytes as i128
        + i.tx_bytes as i128))
}

/// The order of interfaces: the ones that carry traffic first.
pub fn interfaces(list: &Vec<Interface>) -> (r: Vec<usize>)
    ensures
        is_order(Seq::new(list@.len(), |i: int| rank(list@[i])), r@),
{
    let mut keys: Vec<i128> = Vec::new();
    for i in 0..list.len()
        invariant
            keys@ =~= Seq::new(i as nat, |k: int| rank(list@[k])),
    {
        keys.push(rank_of(&list[i]));
    }
    assert(keys@ =~= Seq::new(list@.len(), |i: int| rank(list@[i])));
    stable_order(keys.as_slice())
}

/// An interface that is up and has an address comes before every one that is not so, and
/// loopback comes after all others.
pub proof fn lemma_rank(a: Interface, b: Interface)
    ensures
        a.name@ != "lo"@ && b.name@ == "lo"@ ==> rank(a) < rank(b),
        (a.name@ == "lo"@) == (b.name@ == "lo"@) && a.up() && !b.up() ==> rank(a) < rank(b),
        (a.name@ == "lo"@) == (b.name@ == "lo"@) && a.up() == b.up() && a.addresses@.len() > 0
            && b.addresses@.len() == 0 ==> rank(a) < rank(b),
        (a.name@ == "lo"@) == (b.name@ == "lo"@) && a.up() == b.up() && (a.addresses@.len() == 0)
            == (b.addresses@.len() == 0) ==> (rank(a) < rank(b) <==> a.rx_bytes + a.tx_bytes
            > b.rx_bytes + b.tx_bytes),
{
}

// --- who has an address ------------------------------------------------------------------------------

/// The addresses of an interface, without their prefix lengths.
#[derive(Debug)]
pub struct Held {
    pub name: String,
    pub addresses: Vec<String>,
}

/// The first interface that holds an address.
pub open spec fn holder(v: Seq<Held>, ip: Seq<char>) -> Option<Seq<char>>
    decreases v.len(),
{
    if v.len() == 0 {
        None
    } else if views(v[0].addresses@).contains(ip) {
        Some(v[0].name@)
    } else {
        holder(v.skip(1), ip)
    }
}

/// An address that is bound on every interface at once.
pub open spec fn is_wildcard(ip: Seq<char>) -> bool {
    ip == "0.0.0.0"@ || ip == "::"@
}

/// Whether an address is bound on every interface at once.
pub fn wildcard(ip: &str) -> (r: bool)
    ensures
        r == is_wildcard(ip@),
{
    same(ip, "0.0.0.0") || same(ip, "::")
}

/// Whether a text is in a list.
fn in_list(v: &Vec<String>, t: &str) -> (r: bool)
    ensures
        r == views(v@).contains(t@),
{
    for i in 0..v.len()
        invariant
            forall|j: int| 0 <= j < i ==> #[trigger] views(v@)[j] != t@,
    {
        assert(views(v@)[i as int] == v@[i as int]@);
        if same(v[i].as_str(), t) {
            return true;
        }
    }
    false
}

/// The interface that an address belongs to. A wildcard is on all of them, which is not the
/// same as on one.
pub fn interface_of(v: &Vec<Held>, ip: &str) -> (r: Option<String>)
    ensures
        maybe(r) == (if ip@.len() == 0 || is_wildcard(ip@) {
            None
        } else {
            holder(v@, ip@)
        }),
{
    if ip.is_empty() || wildcard(ip) {
        return None;
    }
    assert(v@.skip(0) =~= v@);
    for i in 0..v.len()
        invariant
            ip@.len() > 0 && !is_wildcard(ip@),
            holder(v@.skip(i as int), ip@) == holder(v@, ip@),
    {
        assert(v@.skip(i as int)[0] == v@[i as int]);
        assert(v@.skip(i as int).skip(1) =~= v@.skip(i + 1));
        if in_list(&v[i].addresses, ip) {
            return Some(v[i].name.clone());
        }
    }
    None
}

// --- one line about all of them -----------------------------------------------------------------------

/// An interface on one line, where it is not loopback and has an address.
pub open spec fn summary_item(i: Interface) -> Option<Seq<char>> {
    if i.name@ == "lo"@ || i.addresses@.len() == 0 {
        None
    } else {
        Some(
            match first_v4(views(i.addresses@)) {
                Some(ip) => i.name@ + " "@ + ip,
                None => i.name@,
            },
        )
    }
}

/// What this machine is on the network, on one line.
pub open spec fn summary_text(list: Seq<Interface>) -> Seq<char> {
    let items = picked(list, |i: Interface| summary_item(i));
    let n = decimal(list.len());
    if items.len() == 0 {
        n + " interfaces, nenhuma com endereço"@
    } else {
        let shown = if items.len() > SUMMARY_INTERFACES {
            joined(items.take(SUMMARY_INTERFACES as int), "  ·  "@) + "  ·  +"@ + decimal(
                (items.len() - SUMMARY_INTERFACES) as nat,
            )
        } else {
            joined(items, "  ·  "@)
        };
        shown + "   ("@ + decimal(items.len()) + " de "@ + n + " no total)"@
    }
}

/// What this machine is on the network, on one line.
pub fn addressed_summary(list: &Vec<Interface>) -> (r: String)
    ensures
        r@ == summary_text(list@),
{
    let ghost f = |i: Interface| summary_item(i);
    let mut items: Vec<String> = Vec::new();
    proof {
        lemma_pick_ends(list@, f);
        assert(views(items@) =~= Seq::empty());
    }
    for i in 0..list.len()
        invariant
            f == (|i: Interface| summary_item(i)),
            views(items@) == picked(list@.take(i as int), f),
    {
        proof {
            lemma_pick(list@, f, i as int);
        }
        let x = &list[i];
        if !same(x.name.as_str(), "lo") && x.addresses.len() > 0 {
            let t = match x.ipv4() {
                Some(ip) => cat3(x.name.as_str(), " ", ip.as_str()),
                None => x.name.clone(),
            };
            let ghost before = items@;
            let ghost y = t@;
            items.push(t);
            assert(views(items@) =~= views(before).push(y));
        }
    }
    let n = dec(list.len() as u64);
    assert(views(items@).len() == items@.len());
    if items.len() == 0 {
        return cat2(n.as_str(), " interfaces, nenhuma com endereço");
    }
    let total = dec(items.len() as u64);
    let shown = if items.len() > SUMMARY_INTERFACES {
        let first = vstd::slice::slice_subrange(items.as_slice(), 0, SUMMARY_INTERFACES);
        assert(views(first@) =~= views(items@).take(SUMMARY_INTERFACES as int));
        let head = join(first, "  ·  ");
        cat3(head.as_str(), "  ·  +", dec((items.len() - SUMMARY_INTERFACES) as u64).as_str())
    } else {
        join(items.as_slice(), "  ·  ")
    };
    let a = cat5(shown.as_str(), "   (", total.as_str(), " de ", n.as_str());
    cat2(a.as_str(), " no total)")
}

// --- routes ---------------------------------------------------------------------------------------------

/// The route on a line of the kernel's table, where it goes through an interface.
pub open spec fn route_line(line: Seq<char>, name: Seq<char>) -> Option<Seq<char>> {
    let f = words(line);
    if f.len() < 8 || f[0] != name {
        None
    } else {
        match (address_in(f[1]), address_in(f[7]), address_in(f[2])) {
            (Some(destination), Some(mask), Some(gateway)) => {
                let target = if destination.is_any() && mask.ones() == 0 {
                    "padrão"@
                } else {
                    ipv4_text(destination.octets()) + "/"@ + decimal(mask.ones())
                };
                Some(
                    if gateway.is_any() {
                        target + " (direto)"@
                    } else {
                        target + " via "@ + ipv4_text(gateway.octets())
                    },
                )
            },
            _ => None,
        }
    }
}

/// Reads a line of the table of routes.
fn read_route(line: &str, name: &str) -> (r: Option<String>)
    ensures
        maybe(r) == route_line(line@, name@),
{
    let f = split_words(line);
    assert(views(f@).len() == f@.len());
    if f.len() < 8 {
        return None;
    }
    assert(views(f@)[0] == f@[0]@ && views(f@)[1] == f@[1]@ && views(f@)[2] == f@[2]@ && views(
        f@,
    )[7] == f@[7]@);
    if !same(f[0].as_str(), name) {
        return None;
    }
    match (hex_ipv4(f[1].as_str()), hex_ipv4(f[7].as_str()), hex_ipv4(f[2].as_str())) {
        (Some(destination), Some(mask), Some(gateway)) => {
            let prefix: u32 = mask.count_ones();
            let target = if destination.is_unspecified() && prefix == 0 {
                "padrão".to_owned()
            } else {
                cat3(destination.text().as_str(), "/", dec(prefix as u64).as_str())
            };
            if gateway.is_unspecified() {
                Some(cat2(target.as_str(), " (direto)"))
            } else {
                Some(cat3(target.as_str(), " via ", gateway.text().as_str()))
            }
        },
        _ => None,
    }
}

/// The lines of a table without its header.
pub open spec fn below_header(content: Seq<char>) -> Seq<Seq<char>> {
    let ls = lines(content);
    if ls.len() == 0 {
        ls
    } else {
        ls.skip(1)
    }
}

/// The routes that go through an interface.
pub fn routes_of(content: &str, name: &str) -> (r: Vec<String>)
    ensures
        views(r@) == picked(below_header(content@), |l: Seq<char>| route_line(l, name@)),
{
    let ls = split_lines(content);
    let ghost vs = views(ls@);
    let ghost body = below_header(content@);
    let ghost f = |l: Seq<char>| route_line(l, name@);
    let mut r: Vec<String> = Vec::new();
    proof {
        lemma_pick_ends(body, f);
        assert(views(r@) =~= Seq::empty());
    }
    if ls.len() == 0 {
        assert(body.len() == 0);
        return r;
    }
    for i in 1..ls.len()
        invariant
            vs == views(ls@),
            body == vs.skip(1),
            f == (|l: Seq<char>| route_line(l, name@)),
            ls@.len() > 0,
            views(r@) == picked(body.take(i - 1), f),
    {
        proof {
            lemma_pick(body, f, i - 1);
            assert(body[i - 1] == ls@[i as int]@);
        }
        match read_route(ls[i].as_str(), name) {
            Some(t) => {
                let ghost before = r@;
                let ghost y = t@;
                r.push(t);
                assert(views(r@) =~= views(before).push(y));
            },
            None => {},
        }
    }
    r
}

// --- rates ----------------------------------------------------------------------------------------------

/// What went through an interface between two readings: bytes each way, and milliseconds.
#[derive(Clone, Copy, PartialEq, Eq, Debug, Structural)]
pub struct Delta {
    pub rx: u64,
    pub tx: u64,
    pub ms: u64,
}

/// The counters of an interface at one reading.
#[derive(Clone, Copy, PartialEq, Eq, Debug, Structural)]
pub struct Reading {
    pub rx: u64,
    pub tx: u64,
    pub at: u64,
}

/// What went through between two readings. A counter that went back counts as still.
pub open spec fn between(a: Reading, b: Reading) -> Delta {
    Delta {
        rx: if b.rx >= a.rx {
            (b.rx - a.rx) as u64
        } else {
            0
        },
        tx: if b.tx >= a.tx {
            (b.tx - a.tx) as u64
        } else {
            0
        },
        ms: if b.at >= a.at {
            (b.at - a.at) as u64
        } else {
            0
        },
    }
}

/// The readings of interfaces, and what went through each between the last two.
#[derive(Debug)]
pub struct InterfacesMonitor {
    pub last: Vec<(String, Reading)>,
    pub rates: Vec<(String, Delta)>,
}

/// The readings after one more, and what went through: no time between two readings leaves
/// what was known.
pub open spec fn measured(
    last: Seq<(Seq<char>, Reading)>,
    rates: Seq<(Seq<char>, Delta)>,
    name: Seq<char>,
    now: Reading,
) -> (Seq<(Seq<char>, Reading)>, Seq<(Seq<char>, Delta)>) {
    (
        put(last, name, now),
        match under(last, name) {
            Some(before) => if between(before, now).ms > 0 {
                put(rates, name, between(before, now))
            } else {
                rates
            },
            None => rates,
        },
    )
}

/// The readings and what went through after a list of interfaces is read.
pub open spec fn all_measured(
    last: Seq<(Seq<char>, Reading)>,
    rates: Seq<(Seq<char>, Delta)>,
    list: Seq<Interface>,
    at: u64,
) -> (Seq<(Seq<char>, Reading)>, Seq<(Seq<char>, Delta)>)
    decreases list.len(),
{
    if list.len() == 0 {
        (last, rates)
    } else {
        let p = all_measured(last, rates, list.drop_last(), at);
        let i = list.last();
        measured(p.0, p.1, i.name@, Reading { rx: i.rx_bytes, tx: i.tx_bytes, at })
    }
}

impl InterfacesMonitor {
    /// Nothing read yet.
    pub fn new() -> (r: InterfacesMonitor)
        ensures
            pairs(r.last@) == Seq::<(Seq<char>, Reading)>::empty(),
            pairs(r.rates@) == Seq::<(Seq<char>, Delta)>::empty(),
    {
        let r = InterfacesMonitor { last: Vec::new(), rates: Vec::new() };
        assert(pairs(r.last@) =~= Seq::empty());
        assert(pairs(r.rates@) =~= Seq::empty());
        r
    }

    /// One more reading of an interface.
    fn read(&mut self, name: &str, now: Reading)
        ensures
            (pairs(final(self).last@), pairs(final(self).rates@)) == measured(
                pairs(old(self).last@),
                pairs(old(self).rates@),
                name@,
                now,
            ),
    {
        match find_pair(&self.last, name) {
            Some(i) => {
                let before = self.last[i].1;
                let delta = Delta {
                    rx: now.rx.saturating_sub(before.rx),
                    tx: now.tx.saturating_sub(before.tx),
                    ms: now.at.saturating_sub(before.at),
                };
                assert(delta == between(before, now));
                if delta.ms > 0 {
                    put_pair(&mut self.rates, name, delta);
                }
            },
            None => {},
        }
        put_pair(&mut self.last, name, now);
    }

    /// Takes a reading of every interface.
    pub fn measure(&mut self, list: &Vec<Interface>, at: u64)
        ensures
            (pairs(final(self).last@), pairs(final(self).rates@)) == all_measured(
                pairs(old(self).last@),
                pairs(old(self).rates@),
                list@,
                at,
            ),
    {
        let ghost l = pairs(self.last@);
        let ghost d = pairs(self.rates@);
        assert(list@.take(0) =~= Seq::empty());
        for i in 0..list.len()
            invariant
                (pairs(self.last@), pairs(self.rates@)) == all_measured(
                    l,
                    d,
                    list@.take(i as int),
                    at,
                ),
        {
            assert(list@.take(i + 1).drop_last() =~= list@.take(i as int));
            self.read(
                list[i].name.as_str(),
                Reading { rx: list[i].rx_bytes, tx: list[i].tx_bytes, at },
            );
        }
        assert(list@.take(list@.len() as int) =~= list@);
    }

    /// What went through an interface between the last two readings, where there were two.
    pub fn rate(&self, name: &str) -> (r: Option<Delta>)
        ensures
            r == under(pairs(self.rates@), name@),
    {
        match find_pair(&self.rates, name) {
            Some(i) => Some(self.rates[i].1),
            None => None,
        }
    }
}

// --- rows and details -------------------------------------------------------------------------------------

/// The state in one word. A port that is down because nothing is plugged in is not the same as
/// one that was turned off.
pub open spec fn state_text(i: Interface) -> Seq<char> {
    if i.up() {
        "ativa"@
    } else if i.operstate@ == "down"@ {
        if i.carrier == Some(false) {
            "sem link"@
        } else {
            "desligada"@
        }
    } else {
        i.operstate@
    }
}

/// The state in one word.
pub fn state_word(i: &Interface) -> (r: String)
    ensures
        r@ == state_text(*i),
{
    if i.is_up() {
        "ativa".to_owned()
    } else if same(i.operstate.as_str(), "down") {
        match i.carrier {
            Some(false) => "sem link".to_owned(),
            _ => "desligada".to_owned(),
        }
    } else {
        i.operstate.clone()
    }
}

/// What the state reads as. It is `ativa` for an interface that the kernel calls up, and for one
/// that it calls unknown, whatever else its files say. One that the kernel calls down never reads
/// so: it has no link where the carrier says so, and is turned off otherwise. Any other word of
/// the kernel's is shown as it is.
pub proof fn lemma_state(i: Interface)
    ensures
        i.operstate@ == "up"@ || i.operstate@ == "unknown"@ ==> state_text(i) == "ativa"@,
        i.operstate@ != "ativa"@ && state_text(i) == "ativa"@ ==> i.operstate@ == "up"@
            || i.operstate@ == "unknown"@,
        i.operstate@ == "down"@ ==> state_text(i) != "ativa"@,
        i.operstate@ == "down"@ && i.carrier == Some(false) ==> state_text(i) == "sem link"@,
        i.operstate@ == "down"@ && i.carrier != Some(false) ==> state_text(i) == "desligada"@,
        i.operstate@ == "up"@ || i.operstate@ == "unknown"@ ==> state_text(i) != "desligada"@
            && state_text(i) != "sem link"@,
        i.operstate@ != "up"@ && i.operstate@ != "unknown"@ && i.operstate@ != "down"@
            ==> state_text(i) == i.operstate@,
{
    reveal_strlit("up");
    reveal_strlit("unknown");
    reveal_strlit("down");
    reveal_strlit("ativa");
    reveal_strlit("sem link");
    reveal_strlit("desligada");
    assert("up"@.len() == 2 && "unknown"@.len() == 7 && "down"@.len() == 4);
    assert("ativa"@.len() == 5 && "sem link"@.len() == 8 && "desligada"@.len() == 9);
}

/// Two interfaces that the kernel describes by the same word, with the same link, read alike.
pub proof fn lemma_state_alone(a: Interface, b: Interface)
    requires
        a.operstate@ == b.operstate@,
        a.carrier == b.carrier,
    ensures
        state_text(a) == state_text(b),
{
}

/// From the files to the cell: an interface whose state file says `up` or `unknown`, blanks
/// around it or not, is shown as `ativa`, and one whose file says `down` is not.
pub proof fn lemma_state_of_files(i: Interface, f: Files, kind: Seq<char>, v: Seq<Seq<char>>)
    requires
        described(i, f, kind, v),
        f.operstate is Some,
    ensures
        trimmed(f.operstate->0@) == "up"@ || trimmed(f.operstate->0@) == "unknown"@
            ==> state_text(i) == "ativa"@,
        trimmed(f.operstate->0@) == "down"@ ==> state_text(i) != "ativa"@,
        trimmed(f.operstate->0@) == "down"@ && f.carrier is Some && trimmed(f.carrier->0@) == "0"@
            ==> state_text(i) == "sem link"@,
        trimmed(f.operstate->0@) == "down"@ && f.carrier is Some && trimmed(f.carrier->0@) == "1"@
            ==> state_text(i) == "desligada"@,
{
    lemma_state(i);
    reveal_strlit("up");
    reveal_strlit("unknown");
    reveal_strlit("down");
    reveal_strlit("0");
    reveal_strlit("1");
    assert("0"@[0] != "1"@[0]);
    assert("0"@.len() == 1 && "1"@.len() == 1);
    assert("up"@.len() == 2 && "unknown"@.len() == 7 && "down"@.len() == 4);
}

/// What a rate reads as: nothing is known before a second reading.
pub open spec fn rate_cell(rate: Option<(Seq<char>, Seq<char>)>) -> Seq<char> {
    match rate {
        Some((rx, tx)) => "↓"@ + rx + " ↑"@ + tx,
        None => "-"@,
    }
}

/// The row of an interface, with its rates as they read.
pub fn row_of(i: &Interface, rate: &Option<(String, String)>) -> (r: TableRow)
    ensures
        is_leaf(
            r,
            seq![i.name@, state_text(*i), i.address_line(), rate_cell(pair_of(*rate))],
            0,
            i.name@,
        ),
{
    let cell = match rate {
        Some((rx, tx)) => cat4("↓", rx.as_str(), " ↑", tx.as_str()),
        None => "-".to_owned(),
    };
    let mut cells: Vec<String> = Vec::new();
    cells.push(i.name.clone());
    cells.push(state_word(i));
    cells.push(i.address_summary());
    cells.push(cell);
    assert(views(cells@) =~= seq![
        i.name@,
        state_text(*i),
        i.address_line(),
        rate_cell(pair_of(*rate)),
    ]);
    TableRow::keyed(cells, 0, i.name.clone())
}

/// The lines about what an interface is.
pub open spec fn identity(i: Interface, signal: Option<(Seq<char>, Seq<char>)>) -> Seq<
    (Seq<char>, Seq<char>),
> {
    let f = Seq::empty();
    let f = with_field(f, "Nome"@, i.name@);
    let f = with_field(f, "Tipo"@, i.kind@);
    let f = with_field(
        f,
        "Estado"@,
        if i.operstate@ == "unknown"@ {
            "ativa  (operstate «unknown», o normal numa interface virtual)"@
        } else {
            state_text(i) + "  (operstate «"@ + i.operstate@ + "»)"@
        },
    );
    let f = with_some(
        f,
        "Link"@,
        match i.carrier {
            Some(c) => Some(
                if c {
                    "presente"@
                } else {
                    "ausente — cabo desconectado ou sem associação"@
                },
            ),
            None => None,
        },
    );
    let f = with_some(f, "MAC"@, maybe(i.mac));
    let f = with_some(
        f,
        "MTU"@,
        match i.mtu {
            Some(n) => Some(decimal(n as nat) + " bytes"@),
            None => None,
        },
    );
    let f = with_some(
        f,
        "Velocidade negociada"@,
        match i.speed {
            Some(n) => Some(decimal(n as nat) + " Mb/s"@),
            None => None,
        },
    );
    let f = with_some(f, "Duplex"@, maybe(i.duplex));
    let f = with_some(f, "Driver"@, maybe(i.driver));
    with_some(
        f,
        "Sinal"@,
        match signal {
            Some((quality, level)) => Some(
                "qualidade "@ + quality + " · "@ + level + " dBm"@,
            ),
            None => None,
        },
    )
}

fn copied(t: &Option<String>) -> (r: Option<String>)
    ensures
        maybe(r) == maybe(*t),
{
    match t {
        Some(s) => Some(s.clone()),
        None => None,
    }
}

fn identity_section(i: &Interface, signal: &Option<(String, String)>) -> (r: DetailSection)
    ensures
        r@ == (SectionV { title: "Interface"@, fields: identity(*i, pair_of(*signal)) }),
{
    let mut s = DetailSection::new("Interface");
    s.push("Nome", i.name.clone());
    s.push("Tipo", i.kind.to_owned());
    if same(i.operstate.as_str(), "unknown") {
        s.push(
            "Estado",
            "ativa  (operstate «unknown», o normal numa interface virtual)".to_owned(),
        );
    } else {
        let w = state_word(i);
        s.push("Estado", cat4(w.as_str(), "  (operstate «", i.operstate.as_str(), "»)"));
    }
    match i.carrier {
        Some(c) => {
            if c {
                s.push("Link", "presente".to_owned());
            } else {
                s.push("Link", "ausente — cabo desconectado ou sem associação".to_owned());
            }
        },
        None => {},
    }
    s.push_some("MAC", copied(&i.mac));
    match i.mtu {
        Some(n) => {
            s.push("MTU", cat2(dec(n).as_str(), " bytes"));
        },
        None => {},
    }
    match i.speed {
        Some(n) => {
            s.push("Velocidade negociada", cat2(dec(n).as_str(), " Mb/s"));
        },
        None => {},
    }
    s.push_some("Duplex", copied(&i.duplex));
    s.push_some("Driver", copied(&i.driver));
    match signal {
        Some((quality, level)) => {
            s.push("Sinal", cat5("qualidade ", quality.as_str(), " · ", level.as_str(), " dBm"));
        },
        None => {},
    }
    s
}

/// Lines with one for each address, under the name of its family.
pub open spec fn with_addresses(f: Seq<(Seq<char>, Seq<char>)>, v: Seq<Seq<char>>) -> Seq<
    (Seq<char>, Seq<char>),
>
    decreases v.len(),
{
    if v.len() == 0 {
        f
    } else {
        with_field(
            with_addresses(f, v.drop_last()),
            if is_v6(v.last()) {
                "IPv6"@
            } else {
                "IPv4"@
            },
            v.last(),
        )
    }
}

/// The lines about the addresses and the routes of an interface.
pub open spec fn addressing(i: Interface, routes: Seq<Seq<char>>) -> Seq<(Seq<char>, Seq<char>)> {
    let f = Seq::empty();
    let f = if i.addresses@.len() == 0 {
        with_field(f, "Endereços"@, "nenhum configurado"@)
    } else {
        f
    };
    let f = with_addresses(f, views(i.addresses@));
    let f = if routes.len() == 0 {
        with_field(f, "Rotas"@, "nenhuma passa por aqui"@)
    } else {
        f
    };
    with_each(f, "Rota"@, routes)
}

fn addressing_section(i: &Interface, routes: &Vec<String>) -> (r: DetailSection)
    ensures
        r@ == (SectionV { title: "Endereços"@, fields: addressing(*i, views(routes@)) }),
{
    let mut s = DetailSection::new("Endereços");
    if i.addresses.len() == 0 {
        s.push("Endereços", "nenhum configurado".to_owned());
    }
    let ghost f0 = s@.fields;
    let ghost av = views(i.addresses@);
    assert(av.take(0) =~= Seq::empty());
    for k in 0..i.addresses.len()
        invariant
            av == views(i.addresses@),
            s@.title == "Endereços"@,
            s@.fields == with_addresses(f0, av.take(k as int)),
    {
        assert(av.take(k + 1).drop_last() =~= av.take(k as int));
        let a = i.addresses[k].as_str();
        let label = if contains_char(a, ':') {
            "IPv6"
        } else {
            "IPv4"
        };
        s.push(label, i.addresses[k].clone());
    }
    assert(av.take(av.len() as int) =~= av);
    if routes.len() == 0 {
        s.push("Rotas", "nenhuma passa por aqui".to_owned());
    }
    s.push_each("Rota", routes);
    s
}

/// The lines about what moves through an interface.
pub open spec fn traffic(i: Interface, rate: (Seq<char>, Seq<char>)) -> Seq<
    (Seq<char>, Seq<char>),
> {
    let f = Seq::empty();
    let f = with_field(f, "Taxa atual"@, "↓ "@ + rate.0 + " · ↑ "@ + rate.1);
    let f = with_field(f, "Recebido"@, human(i.rx_bytes as nat));
    let f = with_field(f, "Enviado"@, human(i.tx_bytes as nat));
    let f = with_field(
        f,
        "Pacotes"@,
        decimal(i.rx_packets as nat) + " recebidos · "@ + decimal(i.tx_packets as nat)
            + " enviados"@,
    );
    let f = with_field(
        f,
        "Erros"@,
        decimal(i.rx_errors as nat) + " na recepção · "@ + decimal(i.tx_errors as nat)
            + " no envio"@,
    );
    with_field(
        f,
        "Descartados"@,
        decimal(i.rx_dropped as nat) + " na recepção · "@ + decimal(i.tx_dropped as nat)
            + " no envio"@,
    )
}

fn traffic_section(i: &Interface, rx_rate: &str, tx_rate: &str) -> (r: DetailSection)
    ensures
        r@ == (SectionV { title: "Tráfego"@, fields: traffic(*i, (rx_rate@, tx_rate@)) }),
{
    let mut s = DetailSection::new("Tráfego");
    s.push("Taxa atual", cat4("↓ ", rx_rate, " · ↑ ", tx_rate));
    s.push("Recebido", human_bytes(i.rx_bytes));
    s.push("Enviado", human_bytes(i.tx_bytes));
    s.push(
        "Pacotes",
        cat4(
            dec(i.rx_packets).as_str(),
            " recebidos · ",
            dec(i.tx_packets).as_str(),
            " enviados",
        ),
    );
    s.push(
        "Erros",
        cat4(dec(i.rx_errors).as_str(), " na recepção · ", dec(i.tx_errors).as_str(), " no envio"),
    );
    s.push(
        "Descartados",
        cat4(
            dec(i.rx_dropped).as_str(),
            " na recepção · ",
            dec(i.tx_dropped).as_str(),
            " no envio",
        ),
    );
    s
}

/// The addresses of an interface whose network can be swept.
pub open spec fn v4_only(v: Seq<Seq<char>>) -> Seq<Seq<char>> {
    picked(
        v,
        |a: Seq<char>|
            if is_v6(a) {
                None
            } else {
                Some(a)
            },
    )
}

/// The addresses of an interface whose network can be swept.
pub fn sweepable(i: &Interface) -> (r: Vec<String>)
    ensures
        views(r@) == v4_only(views(i.addresses@)),
{
    let ghost vs = views(i.addresses@);
    let ghost f = |a: Seq<char>|
        if is_v6(a) {
            None
        } else {
            Some(a)
        };
    let mut r: Vec<String> = Vec::new();
    proof {
        lemma_pick_ends(vs, f);
        assert(views(r@) =~= Seq::empty());
    }
    for k in 0..i.addresses.len()
        invariant
            vs == views(i.addresses@),
            f == (|a: Seq<char>|
                if is_v6(a) {
                    None
                } else {
                    Some(a)
                }),
            views(r@) == picked(vs.take(k as int), f),
    {
        proof {
            lemma_pick(vs, f, k as int);
        }
        if !contains_char(i.addresses[k].as_str(), ':') {
            let ghost before = r@;
            r.push(i.addresses[k].clone());
            assert(views(r@) =~= views(before).push(vs[k as int]));
        }
    }
    r
}

/// Everything about an interface. `rate` is its current rates, as numbers, and `texts` as they
/// read; `handoffs` is what other tools offer for the networks it is on.
pub open spec fn is_detail(
    d: Detail,
    i: Interface,
    signal: Option<(Seq<char>, Seq<char>)>,
    routes: Seq<Seq<char>>,
    rate: (u64, u64),
    texts: (Seq<char>, Seq<char>),
    handoffs: Vec<Handoff>,
) -> bool {
    &&& d.title@ == i.name@ + " · "@ + i.kind@
    &&& d.gone_note@ == "removida"@
    &&& sections_of(d.sections@) == seq![
        SectionV { title: "Interface"@, fields: identity(i, signal) },
        SectionV { title: "Endereços"@, fields: addressing(i, routes) },
        SectionV { title: "Tráfego"@, fields: traffic(i, texts) },
    ]
    &&& (match d.rates {
        Some(x) => x.labels.0@ == "↓ Recebendo"@ && x.labels.1@ == "↑ Enviando"@ && x.values
            == rate,
        None => false,
    })
    &&& d.handoffs == handoffs
    &&& d.handoff_title@ == "Varrer a rede desta interface"@
}

/// Tells everything about an interface.
fn interface_detail(
    i: &Interface,
    signal: &Option<(String, String)>,
    routes: &Vec<String>,
    rate: (u64, u64),
    rx_rate: &str,
    tx_rate: &str,
    handoffs: Vec<Handoff>,
) -> (r: Detail)
    ensures
        is_detail(
            r,
            *i,
            pair_of(*signal),
            views(routes@),
            rate,
            (rx_rate@, tx_rate@),
            handoffs,
        ),
{
    let mut sections: Vec<DetailSection> = Vec::new();
    sections.push(identity_section(i, signal));
    sections.push(addressing_section(i, routes));
    sections.push(traffic_section(i, rx_rate, tx_rate));
    assert(sections_of(sections@) =~= seq![
        SectionV { title: "Interface"@, fields: identity(*i, pair_of(*signal)) },
        SectionV { title: "Endereços"@, fields: addressing(*i, views(routes@)) },
        SectionV { title: "Tráfego"@, fields: traffic(*i, (rx_rate@, tx_rate@)) },
    ]);
    Detail {
        title: cat3(i.name.as_str(), " · ", i.kind),
        gone_note: "removida",
        sections,
        rates: Some(Rates { labels: ("↓ Recebendo", "↑ Enviando"), values: rate }),
        handoffs,
        handoff_title: "Varrer a rede desta interface",
    }
}

// --- the table -----------------------------------------------------------------------------------------------

/// The row of an interface, as a contract says.
pub open spec fn interface_row(r: TableRow, i: Interface, rate: Option<(String, String)>) -> bool {
    is_leaf(
        r,
        seq![i.name@, state_text(i), i.address_line(), rate_cell(pair_of(rate))],
        0,
        i.name@,
    )
}

/// The rows of interfaces, up to a limit, with their rates as they read.
pub fn sample(
    list: &Vec<Interface>,
    rates: &Vec<Option<(String, String)>>,
    limit: Option<usize>,
) -> (r: Vec<TableRow>)
    requires
        rates@.len() == list@.len(),
    ensures
        r@.len() == capped(list@.len(), limit),
        forall|i: int| 0 <= i < r@.len() ==> interface_row(#[trigger] r@[i], list@[i], rates@[i]),
{
    let n: usize = match limit {
        Some(l) => if l < list.len() {
            l
        } else {
            list.len()
        },
        None => list.len(),
    };
    let mut r: Vec<TableRow> = Vec::new();
    for i in 0..n
        invariant
            n <= list@.len(),
            rates@.len() == list@.len(),
            r@.len() == i,
            forall|k: int| 0 <= k < i ==> interface_row(#[trigger] r@[k], list@[k], rates@[k]),
    {
        r.push(row_of(&list[i], &rates[i]));
    }
    r
}

/// The place of the first interface with a name.
pub open spec fn named(list: Seq<Interface>, name: Seq<char>) -> Option<int>
    decreases list.len(),
{
    if list.len() == 0 {
        None
    } else {
        match named(list.drop_last(), name) {
            Some(i) => Some(i),
            None => if list.last().name@ == name {
                Some(list.len() - 1)
            } else {
                None
            },
        }
    }
}

/// The place of the first interface with a name.
pub fn find_named(list: &Vec<Interface>, name: &str) -> (r: Option<usize>)
    ensures
        (match r {
            Some(i) => named(list@, name@) == Some(i as int) && i < list@.len(),
            None => named(list@, name@) is None,
        }),
{
    let mut r: Option<usize> = None;
    assert(list@.take(0) =~= Seq::empty());
    for i in 0..list.len()
        invariant
            (match r {
                Some(k) => named(list@.take(i as int), name@) == Some(k as int) && k < list@.len(),
                None => named(list@.take(i as int), name@) is None,
            }),
    {
        assert(list@.take(i + 1).drop_last() =~= list@.take(i as int));
        assert(list@.take(i + 1).last() == list@[i as int]);
        if r.is_none() && same(list[i].name.as_str(), name) {
            r = Some(i);
        }
    }
    assert(list@.take(list@.len() as int) =~= list@);
    r
}

/// Renews rows in place, each by the name of its interface. One that is gone stays as it was.
pub fn refresh_values(
    list: &Vec<Interface>,
    rates: &Vec<Option<(String, String)>>,
    rows: &mut Vec<TableRow>,
)
    requires
        rates@.len() == list@.len(),
    ensures
        final(rows)@.len() == old(rows)@.len(),
        forall|i: int|
            0 <= i < old(rows)@.len() ==> (match named(list@, old(rows)@[i].key@) {
                Some(k) => interface_row(#[trigger] final(rows)@[i], list@[k], rates@[k]),
                None => final(rows)@[i] == old(rows)@[i],
            }),
{
    let n: usize = rows.len();
    for i in 0..n
        invariant
            rates@.len() == list@.len(),
            n == rows@.len(),
            rows@.len() == old(rows)@.len(),
            forall|j: int|
                0 <= j < i ==> (match named(list@, old(rows)@[j].key@) {
                    Some(k) => interface_row(#[trigger] rows@[j], list@[k], rates@[k]),
                    None => rows@[j] == old(rows)@[j],
                }),
            forall|j: int| i <= j < rows@.len() ==> #[trigger] rows@[j] == old(rows)@[j],
    {
        match find_named(list, rows[i].key.as_str()) {
            Some(k) => {
                let row = row_of(&list[k], &rates[k]);
                rows.set(i, row);
            },
            None => {},
        }
    }
}

impl InterfacesMonitor {
    /// All that is known about the interface of a row, or nothing where it is gone. `wireless`
    /// and `route` are the kernel's tables; `rate` is the current rates of the interface, as
    /// numbers, and `rx_rate` and `tx_rate` as they read; `handoffs` is what other tools offer
    /// for the networks it is on.
    pub fn detail(
        &self,
        list: &Vec<Interface>,
        row: &TableRow,
        wireless: &str,
        route: &str,
        rate: (u64, u64),
        rx_rate: &str,
        tx_rate: &str,
        handoffs: Vec<Handoff>,
    ) -> (r: Option<Detail>)
        ensures
            (match named(list@, row.key@) {
                None => r is None,
                Some(k) => r is Some && is_detail(
                    r->0,
                    list@[k],
                    first_some(lines(wireless@), |l: Seq<char>| signal_line(l, row.key@)),
                    picked(below_header(route@), |l: Seq<char>| route_line(l, row.key@)),
                    rate,
                    (rx_rate@, tx_rate@),
                    handoffs,
                ),
            }),
    {
        match find_named(list, row.key.as_str()) {
            None => None,
            Some(k) => {
                let signal = wireless_signal(wireless, row.key.as_str());
                let routes = routes_of(route, row.key.as_str());
                Some(
                    interface_detail(&list[k], &signal, &routes, rate, rx_rate, tx_rate, handoffs),
                )
            },
        }
    }
}

/// The addresses of the older family come first: all addresses are there, none of the newer
/// family stands before one of the older, and each family keeps the order it came in.
pub proof fn lemma_v4_first(v: Seq<Seq<char>>) -> (o: Seq<int>)
    requires
        v.len() <= usize::MAX,
    ensures
        v4_first(v).len() == v.len(),
        o.len() == v.len(),
        o.no_duplicates(),
        forall|i: int| 0 <= i < o.len() ==> 0 <= #[trigger] o[i] < v.len() && v4_first(v)[i] == v[o[i]],
        forall|x: Seq<char>| v.contains(x) <==> #[trigger] v4_first(v).contains(x),
        forall|i: int, j: int|
            0 <= i < j < v.len() && (#[trigger] v4_first(v)[i]).contains(':') ==> (
            #[trigger] v4_first(v)[j]).contains(':'),
        forall|i: int, j: int|
            0 <= i < j < v.len() && v4_first(v)[i].contains(':') == v4_first(v)[j].contains(':')
                ==> #[trigger] o[i] < #[trigger] o[j],
{
    let keys = Seq::new(
        v.len(),
        |i: int|
            if is_v6(v[i]) {
                1i128
            } else {
                0i128
            },
    );
    lemma_order_exists(keys);
    let r = choose|r: Seq<usize>| is_order(keys, r);
    lemma_sorted(v, keys, r);
    let s = v4_first(v);
    assert(s == sorted_by(v, keys));
    let o = Seq::new(r.len(), |i: int| r[i] as int);
    assert forall|i: int, j: int| 0 <= i < o.len() && 0 <= j < o.len() && i != j implies o[i]
        != o[j] by {
        lemma_order_distinct(keys, r, i, j);
    }
    assert forall|x: Seq<char>| v.contains(x) <==> #[trigger] s.contains(x) by {
        if v.contains(x) {
            let i = choose|i: int| 0 <= i < v.len() && v[i] == x;
            assert(r.contains(i as usize));
            let k = choose|k: int| 0 <= k < r.len() && r[k] == i as usize;
            assert(s[k] == x);
        }
        if s.contains(x) {
            let k = choose|k: int| 0 <= k < s.len() && s[k] == x;
            assert(v[r[k] as int] == x);
        }
    }
    assert forall|i: int, j: int|
        0 <= i < j < v.len() && (#[trigger] s[i]).contains(':') implies (#[trigger] s[j]).contains(
        ':',
    ) by {
        assert(goes_before(keys, r[i] as int, r[j] as int));
    }
    assert forall|i: int, j: int|
        0 <= i < j < v.len() && s[i].contains(':') == s[j].contains(':') implies #[trigger] o[i]
        < #[trigger] o[j] by {
        assert(goes_before(keys, r[i] as int, r[j] as int));
    }
    o
}

/// The machine's address is the part before the slash of an address of the older family, and
/// every address before that one is of the newer; there is none exactly where all are.
pub proof fn lemma_first_v4(v: Seq<Seq<char>>)
    ensures
        (match first_v4(v) {
            Some(ip) => exists|k: int|
                0 <= k < v.len() && !(#[trigger] v[k]).contains(':') && ip == before(
                    v[k],
                    Cut::At('/'),
                ) && forall|j: int| 0 <= j < k ==> (#[trigger] v[j]).contains(':'),
            None => forall|j: int| 0 <= j < v.len() ==> (#[trigger] v[j]).contains(':'),
        }),
    decreases v.len(),
{
    if v.len() > 0 {
        if !is_v6(v[0]) {
            assert(!v[0].contains(':'));
        } else {
            let t = v.skip(1);
            lemma_first_v4(t);
            match first_v4(t) {
                Some(ip) => {
                    let k = choose|k: int|
                        0 <= k < t.len() && !(#[trigger] t[k]).contains(':') && ip == before(
                            t[k],
                            Cut::At('/'),
                        ) && forall|j: int| 0 <= j < k ==> (#[trigger] t[j]).contains(':');
                    assert(v[k + 1] == t[k]);
                    assert forall|j: int| 0 <= j < k + 1 implies (#[trigger] v[j]).contains(
                        ':',
                    ) by {
                        if j > 0 {
                            assert(t[j - 1] == v[j]);
                        }
                    }
                },
                None => {
                    assert forall|j: int| 0 <= j < v.len() implies (#[trigger] v[j]).contains(
                        ':',
                    ) by {
                        if j > 0 {
                            assert(t[j - 1] == v[j]);
                        }
                    }
                },
            }
        }
    }
}

/// The owner of an address holds it, and no interface before it does; an address has no owner
/// exactly where no interface holds it.
pub proof fn lemma_holder(v: Seq<Held>, ip: Seq<char>)
    ensures
        (match holder(v, ip) {
            Some(name) => exists|k: int|
                0 <= k < v.len() && (#[trigger] v[k]).name@ == name && views(
                    v[k].addresses@,
                ).contains(ip) && forall|j: int|
                    0 <= j < k ==> !views((#[trigger] v[j]).addresses@).contains(ip),
            None => forall|j: int|
                0 <= j < v.len() ==> !views((#[trigger] v[j]).addresses@).contains(ip),
        }),
    decreases v.len(),
{
    if v.len() > 0 {
        if !views(v[0].addresses@).contains(ip) {
            let t = v.skip(1);
            lemma_holder(t, ip);
            match holder(t, ip) {
                Some(name) => {
                    let k = choose|k: int|
                        0 <= k < t.len() && (#[trigger] t[k]).name@ == name && views(
                            t[k].addresses@,
                        ).contains(ip) && forall|j: int|
                            0 <= j < k ==> !views((#[trigger] t[j]).addresses@).contains(ip);
                    assert(v[k + 1] == t[k]);
                    assert forall|j: int| 0 <= j < k + 1 implies !views(
                        (#[trigger] v[j]).addresses@,
                    ).contains(ip) by {
                        if j > 0 {
                            assert(t[j - 1] == v[j]);
                        }
                    }
                },
                None => {
                    assert forall|j: int| 0 <= j < v.len() implies !views(
                        (#[trigger] v[j]).addresses@,
                    ).contains(ip) by {
                        if j > 0 {
                            assert(t[j - 1] == v[j]);
                        }
                    }
                },
            }
        }
    }
}

/// In the order of the list, whatever the interfaces: loopback after all others; of the rest one
/// that is up before one that is not; of those alike one with an address before one without; and
/// then the one that moved more.
pub proof fn lemma_interfaces_in_order(list: Seq<Interface>, r: Seq<usize>, i: int, j: int)
    requires
        is_order(Seq::new(list.len(), |k: int| rank(list[k])), r),
        0 <= i < j < list.len(),
    ensures
        ({
            let a = list[r[i] as int];
            let b = list[r[j] as int];
            let same_class = (a.name@ == "lo"@) == (b.name@ == "lo"@) && a.up() == b.up() && (
            a.addresses@.len() == 0) == (b.addresses@.len() == 0);
            &&& a.name@ == "lo"@ ==> b.name@ == "lo"@
            &&& (a.name@ == "lo"@) == (b.name@ == "lo"@) && !a.up() ==> !b.up()
            &&& (a.name@ == "lo"@) == (b.name@ == "lo"@) && a.up() == b.up()
                && a.addresses@.len() == 0 ==> b.addresses@.len() == 0
            &&& same_class ==> a.rx_bytes + a.tx_bytes >= b.rx_bytes + b.tx_bytes
            &&& same_class && a.rx_bytes + a.tx_bytes == b.rx_bytes + b.tx_bytes ==> r[i] < r[j]
        }),
{
    let keys = Seq::new(list.len(), |k: int| rank(list[k]));
    assert(goes_before(keys, r[i] as int, r[j] as int));
    lemma_rank(list[r[i] as int], list[r[j] as int]);
    lemma_rank(list[r[j] as int], list[r[i] as int]);
}

/// What went through added to the first reading gives the second, where no counter went back;
/// one that did counts as still.
pub proof fn lemma_between(a: Reading, b: Reading)
    ensures
        a.rx <= b.rx ==> a.rx + between(a, b).rx == b.rx,
        a.tx <= b.tx ==> a.tx + between(a, b).tx == b.tx,
        a.at <= b.at ==> a.at + between(a, b).ms == b.at,
        a.rx > b.rx ==> between(a, b).rx == 0,
        a.tx > b.tx ==> between(a, b).tx == 0,
        a.at > b.at ==> between(a, b).ms == 0,
{
}

/// Two readings of an interface one after the other: the rate of that interface is what moved
/// between them, and the rates of the others stay.
pub proof fn lemma_two_readings(
    last: Seq<(Seq<char>, Reading)>,
    rates: Seq<(Seq<char>, Delta)>,
    name: Seq<char>,
    a: Reading,
    b: Reading,
    other: Seq<char>,
)
    requires
        a.at < b.at,
        a.rx <= b.rx,
        a.tx <= b.tx,
        other != name,
        once(last),
        once(rates),
    ensures
        ({
            let m = measured(last, rates, name, a);
            let n = measured(m.0, m.1, name, b);
            &&& under(n.0, name) == Some(b)
            &&& under(n.1, name) is Some
            &&& a.rx + under(n.1, name)->0.rx == b.rx
            &&& a.tx + under(n.1, name)->0.tx == b.tx
            &&& a.at + under(n.1, name)->0.ms == b.at
            &&& under(n.0, other) == under(last, other)
            &&& under(n.1, other) == under(rates, other)
        }),
{
    let m = measured(last, rates, name, a);
    match under(last, name) {
        Some(x) => {
            lemma_put(rates, name, between(x, a), name);
            lemma_put(rates, name, between(x, a), other);
        },
        None => {},
    }
    lemma_put(last, name, a, name);
    lemma_put(last, name, a, other);
    lemma_put(m.0, name, b, name);
    lemma_put(m.0, name, b, other);
    lemma_put(m.1, name, between(a, b), name);
    lemma_put(m.1, name, between(a, b), other);
}

/// The first interface with a name has it, and none before it does.
pub proof fn lemma_named(list: Seq<Interface>, name: Seq<char>)
    ensures
        (match named(list, name) {
            Some(k) => 0 <= k < list.len() && list[k].name@ == name && forall|j: int|
                0 <= j < k ==> (#[trigger] list[j]).name@ != name,
            None => forall|j: int| 0 <= j < list.len() ==> (#[trigger] list[j]).name@ != name,
        }),
    decreases list.len(),
{
    if list.len() > 0 {
        let t = list.drop_last();
        lemma_named(t, name);
        assert forall|j: int| 0 <= j < t.len() implies #[trigger] list[j] == t[j] by {}
    }
}

/// What came in is told as received, and what went out as sent, in bytes, packets, errors and
/// drops alike.
pub proof fn lemma_traffic(i: Interface, rate: (Seq<char>, Seq<char>))
    ensures
        ({
            let f = traffic(i, rate);
            &&& f.len() == 6
            &&& f[0] == ("Taxa atual"@, "↓ "@ + rate.0 + " · ↑ "@ + rate.1)
            &&& f[1] == ("Recebido"@, human(i.rx_bytes as nat))
            &&& f[2] == ("Enviado"@, human(i.tx_bytes as nat))
            &&& f[3] == (
                "Pacotes"@,
                decimal(i.rx_packets as nat) + " recebidos · "@ + decimal(i.tx_packets as nat)
                    + " enviados"@,
            )
            &&& f[4] == (
                "Erros"@,
                decimal(i.rx_errors as nat) + " na recepção · "@ + decimal(i.tx_errors as nat)
                    + " no envio"@,
            )
            &&& f[5] == (
                "Descartados"@,
                decimal(i.rx_dropped as nat) + " na recepção · "@ + decimal(i.tx_dropped as nat)
                    + " no envio"@,
            )
        }),
{
    reveal_strlit("↓ ");
    reveal_strlit(" enviados");
    reveal_strlit(" no envio");
    assert("↓ "@.len() == 2 && " enviados"@.len() > 0 && " no envio"@.len() > 0);
}

/// Each number of an interface is the one in its own file.
pub proof fn lemma_counters(i: Interface, f: Files, kind: Seq<char>, v: Seq<Seq<char>>)
    requires
        described(i, f, kind, v),
    ensures
        i.rx_bytes == counter_in(maybe(f.rx_bytes)),
        i.tx_bytes == counter_in(maybe(f.tx_bytes)),
        i.rx_packets == counter_in(maybe(f.rx_packets)),
        i.tx_packets == counter_in(maybe(f.tx_packets)),
        i.rx_errors == counter_in(maybe(f.rx_errors)),
        i.tx_errors == counter_in(maybe(f.tx_errors)),
        i.rx_dropped == counter_in(maybe(f.rx_dropped)),
        i.tx_dropped == counter_in(maybe(f.tx_dropped)),
        i.mtu == number_in(maybe(f.mtu)),
        i.speed == number_in(maybe(f.speed)),
{
}

/// What sort an interface is: one with a wireless directory is Wi-Fi, whatever else is said of it;
/// and where the kernel made a device of a type, that type says it.
pub proof fn lemma_kind(devtype: Option<Seq<char>>, arphrd: Option<u64>, bridge: bool)
    ensures
        kind_text(true, devtype, arphrd, bridge) == "Wi-Fi"@,
        kind_text(false, Some("wlan"@), arphrd, bridge) == "Wi-Fi"@,
        kind_text(false, Some("bridge"@), arphrd, bridge) == "ponte"@,
        kind_text(false, Some("vlan"@), arphrd, bridge) == "VLAN"@,
        kind_text(false, Some("bond"@), arphrd, bridge) == "agregado"@,
        kind_text(false, Some("wireguard"@), arphrd, bridge) == "VPN WireGuard"@,
        kind_text(false, Some("veth"@), arphrd, bridge) == "par virtual"@,
        kind_text(false, None, Some(772), bridge) == "loopback"@,
        kind_text(false, None, Some(1), true) == "ponte"@,
        kind_text(false, None, Some(1), false) == "Ethernet"@,
        kind_text(false, None, Some(512), bridge) == "PPP"@,
        kind_text(false, None, Some(65534), bridge) == "túnel"@,
        kind_text(false, None, None, bridge) == "outro"@,
{
    reveal_strlit("wlan");
    reveal_strlit("bridge");
    reveal_strlit("vlan");
    reveal_strlit("bond");
    reveal_strlit("wireguard");
    reveal_strlit("veth");
    assert("bridge"@.len() == 6 && "wireguard"@.len() == 9);
    assert("wlan"@.len() == 4 && "wlan"@[0] == 'w');
    assert("vlan"@.len() == 4 && "vlan"@[0] == 'v' && "vlan"@[1] == 'l');
    assert("bond"@.len() == 4 && "bond"@[0] == 'b');
    assert("veth"@.len() == 4 && "veth"@[0] == 'v' && "veth"@[1] == 'e');
}

/// Which columns of the table of routes are read, and how a route reads: where it leads, with as
/// many bits as the mask has, and behind that the gateway, where there is one.
pub proof fn lemma_route_line(ws: Seq<Seq<char>>, name: Seq<char>)
    requires
        forall|k: int| 0 <= k < ws.len() ==> is_word(#[trigger] ws[k]),
        ws.len() >= 8,
        address_in(ws[1]) is Some,
        address_in(ws[2]) is Some,
        address_in(ws[7]) is Some,
    ensures
        ({
            let r = route_line(joined(ws, " "@), name);
            let to = address_in(ws[1])->0;
            let gateway = address_in(ws[2])->0;
            let mask = address_in(ws[7])->0;
            &&& r is Some <==> ws[0] == name
            &&& ws[0] == name && gateway.is_any() ==> finishes(r->0, " (direto)"@)
            &&& ws[0] == name && !gateway.is_any() ==> finishes(
                r->0,
                " via "@ + ipv4_text(gateway.octets()),
            )
            &&& ws[0] == name && to.is_any() && mask.ones() == 0 ==> begins(r->0, "padrão"@)
            &&& ws[0] == name && !(to.is_any() && mask.ones() == 0) ==> begins(
                r->0,
                ipv4_text(to.octets()) + "/"@ + decimal(mask.ones()),
            )
        }),
{
    lemma_join_words(ws);
    let to = address_in(ws[1])->0;
    let gateway = address_in(ws[2])->0;
    let mask = address_in(ws[7])->0;
    if ws[0] == name {
        let r = route_line(joined(ws, " "@), name)->0;
        let a = if to.is_any() && mask.ones() == 0 {
            "padrão"@
        } else {
            ipv4_text(to.octets()) + "/"@ + decimal(mask.ones())
        };
        let b = if gateway.is_any() {
            " (direto)"@
        } else {
            " via "@ + ipv4_text(gateway.octets())
        };
        assert(r =~= a + b);
        assert(r.subrange(0, a.len() as int) =~= a);
        assert(r.subrange(r.len() - b.len(), r.len() as int) =~= b);
    }
}

/// Which columns of the table of wireless links are read: behind the name and its colon, the
/// quality second and the level third, each without the point that ends it.
pub proof fn lemma_signal_line(name: Seq<char>, ws: Seq<Seq<char>>)
    requires
        is_without(name, ':'),
        trimmed(name) == name,
        forall|k: int| 0 <= k < ws.len() ==> is_word(#[trigger] ws[k]),
        ws.len() >= 3,
    ensures
        signal_line(name + seq![':'] + joined(ws, " "@), name) == Some(
            (trimmed_end(ws[1], Cut::At('.')), trimmed_end(ws[2], Cut::At('.'))),
        ),
{
    lemma_join_words(ws);
    let rest = joined(ws, " "@);
    let s = name + seq![':'] + rest;
    let n = name.len() as int;
    assert forall|j: int| 0 <= j < n implies !Cut::At(':').cuts(#[trigger] s[j]) by {
        assert(s[j] == name[j]);
    }
    assert(s[n] == ':');
    lemma_reach(s, Cut::At(':'), n);
    assert(s.take(n) =~= name);
    assert(s.skip(n + 1) =~= rest);
}

} // verus!
