//! The kernel's socket tables, and the ports that are listening.

use vstd::prelude::*;
use vstd::slice::slice_subrange;
use crate::number::{
    all_hex, as_nat, dec, dec_wide, decimal, hex_value, hexadecimal, hexadecimal_text,
    lemma_decimal_reads_back, lemma_hexadecimal_reads_back, natural, parse_hex_upto, parse_upto,
    within,
};
use crate::order::{
    is_order, lemma_ranks, lemma_sorted, lemma_sorted_from, lemma_sorted_members, ranks, sorted_by,
    stable_order, text_ranks,
};
use crate::pick::{lemma_pick, lemma_pick_ends, picked};
use crate::text::{
    begins, cat2, cat3, cat4, chars_of, contains_char, cut_once, finishes, hex_worth, is_hex,
    is_word, join, joined, lemma_join_words, lemma_reach, lines, maybe, same, split_lines,
    split_once, split_words, starts_with, text_before, text_of, views, words, Cut,
};
use crate::monitor::{
    is_leaf, offers_of, sections_of, with_field, Danger, Detail, DetailSection, Handoff, HandoffV,
    SectionV, TableRow,
};
use crate::monitor::iface::{
    below_header, holder, interface_of, is_wildcard, wildcard, Held, Interface,
};
use crate::monitor::ip::{
    address_of, ipv4_says, ipv4_text, ipv6, ipv6_says, ipv6_text, lemma_ipv4_reads_back,
    lemma_ipv6_reads_back, segments_of, to_address, to_segments,
};
use crate::monitor::owner::{
    at, describe_owner, find_proc, kill_danger, owner_cells, owner_lines, owner_section, place_of,
    Extra, Proc,
};
use crate::monitor::resolve::{entries_of, owner_label, owner_text, service_of, Services};

verus! {

/// The state of a listening TCP socket.
pub const TCP_LISTEN: u8 = 0x0A;

/// The state of a bound UDP socket, which has no real listening state.
pub const UDP_UNCONN: u8 = 0x07;

pub const TCP_ESTABLISHED: u8 = 0x01;

/// The headers of the table.
pub const HEADERS: [&'static str; 4] = ["Proto", "Port", "Process", "Age"];

/// How many peers are listed one by one.
pub const MAX_CLIENTS: usize = 10;

/// What is said where the owner of a socket is not known.
pub const SEM_DONO: &'static str =
    "não identificado — socket de outro usuário, ou processo já encerrado";

/// A protocol.
#[derive(Clone, Copy, PartialEq, Eq, Debug, Structural)]
pub enum Proto {
    Tcp,
    Udp,
}

impl Proto {
    /// The name of a protocol.
    pub open spec fn text(self) -> Seq<char> {
        match self {
            Proto::Tcp => "TCP"@,
            Proto::Udp => "UDP"@,
        }
    }

    /// The name of a protocol.
    pub fn label(self) -> (r: &'static str)
        ensures
            r@ == self.text(),
    {
        match self {
            Proto::Tcp => "TCP",
            Proto::Udp => "UDP",
        }
    }
}

/// A family of addresses.
#[derive(Clone, Copy, PartialEq, Eq, Debug, Structural)]
pub enum Family {
    V4,
    V6,
}

impl Family {
    /// The name of a family.
    pub open spec fn text(self) -> Seq<char> {
        match self {
            Family::V4 => "IPv4"@,
            Family::V6 => "IPv6"@,
        }
    }

    /// The name of a family.
    pub fn label(self) -> (r: &'static str)
        ensures
            r@ == self.text(),
    {
        match self {
            Family::V4 => "IPv4",
            Family::V6 => "IPv6",
        }
    }
}

/// A row of a socket table.
#[derive(Debug)]
pub struct SocketRow<T> {
    pub proto: Proto,
    pub family: Family,
    pub local_ip: T,
    pub local_port: u16,
    pub remote_ip: T,
    pub remote_port: u16,
    pub state: u8,
    pub uid: u32,
    pub inode: u64,
    /// For a listening TCP socket, how many connections wait to be accepted; otherwise the
    /// bytes that wait.
    pub rx_queue: u64,
    pub tx_queue: u64,
}

impl View for SocketRow<String> {
    type V = SocketRow<Seq<char>>;

    open spec fn view(&self) -> SocketRow<Seq<char>> {
        SocketRow {
            proto: self.proto,
            family: self.family,
            local_ip: self.local_ip@,
            local_port: self.local_port,
            remote_ip: self.remote_ip@,
            remote_port: self.remote_port,
            state: self.state,
            uid: self.uid,
            inode: self.inode,
            rx_queue: self.rx_queue,
            tx_queue: self.tx_queue,
        }
    }
}

/// Rows of socket tables, in contracts.
pub open spec fn sockets_of(v: Seq<SocketRow<String>>) -> Seq<SocketRow<Seq<char>>> {
    Seq::new(v.len(), |i: int| v[i]@)
}

/// An address and a port, with brackets around an address that has colons of its own.
pub open spec fn endpoint_text(ip: Seq<char>, port: u16) -> Seq<char> {
    if ip.contains(':') {
        "["@ + ip + "]:"@ + decimal(port as nat)
    } else {
        ip + ":"@ + decimal(port as nat)
    }
}

/// An address and a port.
pub fn endpoint(ip: &str, port: u16) -> (r: String)
    ensures
        r@ == endpoint_text(ip@, port),
{
    let p = dec(port as u64);
    if contains_char(ip, ':') {
        cat4("[", ip, "]:", p.as_str())
    } else {
        cat3(ip, ":", p.as_str())
    }
}

impl<T> SocketRow<T> {
    /// The socket waits for connections or datagrams.
    pub open spec fn listens(self) -> bool {
        match self.proto {
            Proto::Tcp => self.state == TCP_LISTEN,
            Proto::Udp => self.state == UDP_UNCONN,
        }
    }
}

impl SocketRow<String> {
    /// Whether the socket waits for connections or datagrams.
    pub fn is_listening(&self) -> (r: bool)
        ensures
            r == self@.listens(),
            r == self.listens(),
    {
        match self.proto {
            Proto::Tcp => self.state == TCP_LISTEN,
            Proto::Udp => self.state == UDP_UNCONN,
        }
    }

    /// The near end.
    pub fn local(&self) -> (r: String)
        ensures
            r@ == endpoint_text(self.local_ip@, self.local_port),
    {
        endpoint(self.local_ip.as_str(), self.local_port)
    }

    /// The far end.
    pub fn remote(&self) -> (r: String)
        ensures
            r@ == endpoint_text(self.remote_ip@, self.remote_port),
    {
        endpoint(self.remote_ip.as_str(), self.remote_port)
    }
}

// --- reading a table -------------------------------------------------------------------------------------

/// A word of an address as the kernel prints it.
pub open spec fn word_at(addr: Seq<char>, i: int) -> Option<nat> {
    within(hexadecimal(addr.subrange(8 * i, 8 * i + 8)), u32::MAX as nat)
}

/// The sixteen bytes of four words as the kernel prints them.
pub open spec fn bytes_of(w: (nat, nat, nat, nat)) -> Seq<u8> {
    address_of(w.0).octets() + address_of(w.1).octets() + address_of(w.2).octets() + address_of(
        w.3,
    ).octets()
}

/// The address that eight or thirty-two hexadecimal digits write.
pub open spec fn address_text(addr: Seq<char>) -> Option<Seq<char>> {
    if addr.len() == 8 {
        match within(hexadecimal(addr), u32::MAX as nat) {
            Some(n) => Some(ipv4_text(address_of(n).octets())),
            None => None,
        }
    } else if addr.len() == 32 {
        match (word_at(addr, 0), word_at(addr, 1), word_at(addr, 2), word_at(addr, 3)) {
            (Some(a), Some(b), Some(c), Some(d)) => Some(
                ipv6_text(segments_of(bytes_of((a, b, c, d)))),
            ),
            _ => None,
        }
    } else {
        None
    }
}

/// An address field: a hexadecimal address, a colon and a hexadecimal port.
pub open spec fn endpoint_in(field: Seq<char>) -> Option<(Seq<char>, u16)> {
    match cut_once(field, Cut::At(':')) {
        None => None,
        Some((addr, port)) => match within(hexadecimal(port), u16::MAX as nat) {
            None => None,
            Some(p) => match address_text(addr) {
                Some(t) => Some((t, p as u16)),
                None => None,
            },
        },
    }
}

/// Reads a word of an address.
fn read_word(v: &[char], i: usize) -> (r: Option<u64>)
    requires
        v@.len() == 32,
        i < 4,
    ensures
        as_nat(r) == word_at(v@, i as int),
        r is Some ==> r->0 <= 0xffff_ffff,
{
    let part = slice_subrange(v, 8 * i, 8 * i + 8);
    let t = text_of(part);
    parse_hex_upto(t.as_str(), 0xffff_ffff)
}

/// Reads the address that hexadecimal digits write.
fn read_address(addr: &str) -> (r: Option<String>)
    ensures
        maybe(r) == address_text(addr@),
{
    let v = chars_of(addr);
    if v.len() == 8 {
        match parse_hex_upto(addr, 0xffff_ffff) {
            Some(n) => Some(to_address(n as u32).text()),
            None => None,
        }
    } else if v.len() == 32 {
        match (
            read_word(v.as_slice(), 0),
            read_word(v.as_slice(), 1),
            read_word(v.as_slice(), 2),
            read_word(v.as_slice(), 3),
        ) {
            (Some(a), Some(b), Some(c), Some(d)) => {
                let mut o: Vec<u8> = Vec::new();
                push_word(&mut o, a as u32);
                push_word(&mut o, b as u32);
                push_word(&mut o, c as u32);
                push_word(&mut o, d as u32);
                assert(o@ =~= bytes_of((a as nat, b as nat, c as nat, d as nat)));
                let s = to_segments(o.as_slice());
                Some(ipv6(s.as_slice()))
            },
            _ => None,
        }
    } else {
        None
    }
}

fn push_word(o: &mut Vec<u8>, n: u32)
    ensures
        final(o)@ == old(o)@ + address_of(n as nat).octets(),
{
    let ghost before = o@;
    let a = to_address(n);
    o.push(a.a);
    o.push(a.b);
    o.push(a.c);
    o.push(a.d);
    assert(o@ =~= before + a.octets());
}

/// The texts of an optional end of a connection.
pub open spec fn end_of(e: Option<(String, u16)>) -> Option<(Seq<char>, u16)> {
    match e {
        Some(x) => Some((x.0@, x.1)),
        None => None,
    }
}

/// Reads an address field.
pub fn parse_endpoint(field: &str) -> (r: Option<(String, u16)>)
    ensures
        end_of(r) == endpoint_in(field@),
{
    match split_once(field, ':') {
        None => None,
        Some((addr, port)) => match parse_hex_upto(port.as_str(), 0xffff) {
            None => None,
            Some(p) => match read_address(addr.as_str()) {
                Some(t) => Some((t, p as u16)),
                None => None,
            },
        },
    }
}

/// A number in hexadecimal, 0 where it cannot be read.
pub open spec fn queue_in(s: Seq<char>) -> u64 {
    match within(hexadecimal(s), u64::MAX as nat) {
        Some(n) => n as u64,
        None => 0,
    }
}

fn read_queue(s: &str) -> (r: u64)
    ensures
        r == queue_in(s@),
{
    match parse_hex_upto(s, u64::MAX) {
        Some(n) => n,
        None => 0,
    }
}

/// The socket on a line of a table, where its state is wanted. No state is wanted in
/// particular when `only` is missing.
pub open spec fn socket_line(
    line: Seq<char>,
    proto: Proto,
    family: Family,
    only: Option<u8>,
) -> Option<SocketRow<Seq<char>>> {
    let f = words(line);
    if f.len() < 10 {
        None
    } else {
        match (
            within(hexadecimal(f[3]), u8::MAX as nat),
            endpoint_in(f[1]),
            endpoint_in(f[2]),
            cut_once(f[4], Cut::At(':')),
            within(natural(f[7]), u32::MAX as nat),
            within(natural(f[9]), u64::MAX as nat),
        ) {
            (
                Some(state),
                Some((local_ip, local_port)),
                Some((remote_ip, remote_port)),
                Some((tx, rx)),
                Some(uid),
                Some(inode),
            ) => if only is None || only->0 == state {
                Some(
                    SocketRow {
                        proto,
                        family,
                        local_ip,
                        local_port,
                        remote_ip,
                        remote_port,
                        state: state as u8,
                        uid: uid as u32,
                        inode: inode as u64,
                        rx_queue: queue_in(rx),
                        tx_queue: queue_in(tx),
                    },
                )
            } else {
                None
            },
            _ => None,
        }
    }
}

/// The byte that two hexadecimal digits write.
pub open spec fn digit_pair(addr: Seq<char>, i: int) -> int {
    (hex_worth(addr[i]) * 16 + hex_worth(addr[i + 1])) as int
}

proof fn lemma_two_digits(w: Seq<char>)
    requires
        w.len() >= 2,
    ensures
        hex_value(w) == hex_value(w.take(w.len() - 2)) * 256 + digit_pair(w, w.len() - 2),
        0 <= digit_pair(w, w.len() - 2) < 256,
{
    let a = w.drop_last();
    assert(hex_value(w) == hex_value(a) * 16 + hex_worth(w[w.len() - 1]));
    assert(hex_value(a) == hex_value(a.drop_last()) * 16 + hex_worth(w[w.len() - 2]));
    assert(a.drop_last() =~= w.take(w.len() - 2));
}

proof fn lemma_four_bytes(n: nat, a: int, b: int, c: int, d: int)
    requires
        0 <= a < 256,
        0 <= b < 256,
        0 <= c < 256,
        0 <= d < 256,
        n == ((a * 256 + b) * 256 + c) * 256 + d,
    ensures
        n <= u32::MAX,
        n % 256 == d,
        n / 256 % 256 == c,
        n / 65536 % 256 == b,
        n / 16777216 == a,
{
}

proof fn lemma_word(w: Seq<char>)
    requires
        w.len() == 8,
        all_hex(w),
    ensures
        hexadecimal(w) == Some(hex_value(w)),
        hex_value(w) <= u32::MAX,
        address_of(hex_value(w)).octets() == seq![
            digit_pair(w, 6) as u8,
            digit_pair(w, 4) as u8,
            digit_pair(w, 2) as u8,
            digit_pair(w, 0) as u8,
        ],
        0 <= digit_pair(w, 6) < 256,
        0 <= digit_pair(w, 4) < 256,
        0 <= digit_pair(w, 2) < 256,
        0 <= digit_pair(w, 0) < 256,
{
    assert(is_hex(w[0]));
    let w6 = w.take(6);
    let w4 = w.take(4);
    let w2 = w.take(2);
    let w0 = w.take(0);
    lemma_two_digits(w);
    lemma_two_digits(w6);
    lemma_two_digits(w4);
    lemma_two_digits(w2);
    assert(w6.take(4) =~= w4);
    assert(w4.take(2) =~= w2);
    assert(w2.take(0) =~= w0);
    assert(hex_value(w0) == 0);
    lemma_four_bytes(
        hex_value(w),
        digit_pair(w, 0),
        digit_pair(w, 2),
        digit_pair(w, 4),
        digit_pair(w, 6),
    );
}

/// The word at a place of an address, and its bytes.
proof fn lemma_word_at(addr: Seq<char>, i: int)
    requires
        addr.len() == 32,
        all_hex(addr),
        0 <= i < 4,
    ensures
        word_at(addr, i) is Some,
        address_of(word_at(addr, i)->0).octets() == seq![
            digit_pair(addr, 8 * i + 6) as u8,
            digit_pair(addr, 8 * i + 4) as u8,
            digit_pair(addr, 8 * i + 2) as u8,
            digit_pair(addr, 8 * i) as u8,
        ],
        0 <= digit_pair(addr, 8 * i + 6) < 256,
        0 <= digit_pair(addr, 8 * i + 4) < 256,
        0 <= digit_pair(addr, 8 * i + 2) < 256,
        0 <= digit_pair(addr, 8 * i) < 256,
{
    let w = addr.subrange(8 * i, 8 * i + 8);
    assert forall|j: int| 0 <= j < 8 implies is_hex(#[trigger] w[j]) by {
        assert(is_hex(addr[8 * i + j]));
    }
    lemma_word(w);
    assert(digit_pair(w, 6) == digit_pair(addr, 8 * i + 6));
    assert(digit_pair(w, 4) == digit_pair(addr, 8 * i + 4));
    assert(digit_pair(w, 2) == digit_pair(addr, 8 * i + 2));
    assert(digit_pair(w, 0) == digit_pair(addr, 8 * i));
}

/// The bytes of four words, one word after the other.
proof fn lemma_bytes_of(w: (nat, nat, nat, nat), i: int)
    requires
        0 <= i < 4,
    ensures
        ({
            let n = if i == 0 {
                w.0
            } else if i == 1 {
                w.1
            } else if i == 2 {
                w.2
            } else {
                w.3
            };
            let x = address_of(n).octets();
            let o = bytes_of(w);
            &&& o.len() == 16
            &&& o[4 * i] == x[0]
            &&& o[4 * i + 1] == x[1]
            &&& o[4 * i + 2] == x[2]
            &&& o[4 * i + 3] == x[3]
        }),
{
}

/// The two segments that a word gives.
proof fn lemma_two_segments(addr: Seq<char>, w: (nat, nat, nat, nat), i: int)
    requires
        addr.len() == 32,
        all_hex(addr),
        0 <= i < 4,
        word_at(addr, 0) == Some(w.0),
        word_at(addr, 1) == Some(w.1),
        word_at(addr, 2) == Some(w.2),
        word_at(addr, 3) == Some(w.3),
    ensures
        segments_of(bytes_of(w))[2 * i] == (digit_pair(addr, 8 * i + 6) * 256 + digit_pair(
            addr,
            8 * i + 4,
        )) as u16,
        segments_of(bytes_of(w))[2 * i + 1] == (digit_pair(addr, 8 * i + 2) * 256 + digit_pair(
            addr,
            8 * i,
        )) as u16,
{
    lemma_word_at(addr, i);
    lemma_bytes_of(w, i);
    assert(2 * (2 * i) == 4 * i);
    assert(2 * (2 * i + 1) == 4 * i + 2);
}

/// An address of the kernel's tables is printed word by word, the words in their order, and each
/// word with its last byte first: of eight digits, the first pair is the last byte of the address;
/// of thirty-two, each group of eight is so by itself.
pub proof fn lemma_printed_address(addr: Seq<char>)
    requires
        all_hex(addr),
    ensures
        address_text(addr) is Some <==> addr.len() == 8 || addr.len() == 32,
        addr.len() == 8 ==> ipv4_says(
            address_text(addr)->0,
            Seq::new(4, |j: int| digit_pair(addr, 6 - 2 * j) as u8),
        ),
        addr.len() == 32 ==> ipv6_says(
            address_text(addr)->0,
            Seq::new(
                8,
                |k: int|
                    (if k % 2 == 0 {
                        digit_pair(addr, 4 * k + 6) * 256 + digit_pair(addr, 4 * k + 4)
                    } else {
                        digit_pair(addr, 4 * k - 2) * 256 + digit_pair(addr, 4 * k - 4)
                    }) as u16,
            ),
        ),
{
    if addr.len() == 8 {
        lemma_word(addr);
        let o = Seq::new(4, |j: int| digit_pair(addr, 6 - 2 * j) as u8);
        assert(address_of(hex_value(addr)).octets() =~= o);
        lemma_ipv4_reads_back(o);
    } else if addr.len() == 32 {
        lemma_word_at(addr, 0);
        lemma_word_at(addr, 1);
        lemma_word_at(addr, 2);
        lemma_word_at(addr, 3);
        let w = (
            word_at(addr, 0)->0,
            word_at(addr, 1)->0,
            word_at(addr, 2)->0,
            word_at(addr, 3)->0,
        );
        let s = Seq::new(
            8,
            |k: int|
                (if k % 2 == 0 {
                    digit_pair(addr, 4 * k + 6) * 256 + digit_pair(addr, 4 * k + 4)
                } else {
                    digit_pair(addr, 4 * k - 2) * 256 + digit_pair(addr, 4 * k - 4)
                }) as u16,
        );
        assert forall|k: int| 0 <= k < 8 implies #[trigger] segments_of(bytes_of(w))[k] == s[k] by {
            lemma_two_segments(addr, w, k / 2);
            assert(k == 2 * (k / 2) || k == 2 * (k / 2) + 1);
        }
        assert(segments_of(bytes_of(w)) =~= s);
        lemma_ipv6_reads_back(s);
    }
}

/// A field is an address, a colon and a port in hexadecimal, and gives both.
pub proof fn lemma_printed_endpoint(addr: Seq<char>, port: u16)
    requires
        all_hex(addr),
    ensures
        endpoint_in(addr + seq![':'] + hexadecimal_text(port as nat)) == (match address_text(addr) {
            Some(t) => Some((t, port)),
            None => None,
        }),
{
    let h = hexadecimal_text(port as nat);
    let f = addr + seq![':'] + h;
    lemma_hexadecimal_reads_back(port as nat);
    let n = addr.len() as int;
    assert forall|j: int| 0 <= j < n implies !Cut::At(':').cuts(#[trigger] f[j]) by {
        assert(f[j] == addr[j]);
        assert(is_hex(addr[j]));
    }
    lemma_reach(f, Cut::At(':'), n);
    assert(f.take(n) =~= addr);
    assert(f.skip(n + 1) =~= h);
}

proof fn lemma_reach_within(s: Seq<char>, c: char, k: int)
    requires
        0 <= k < s.len(),
        s[k] == c,
    ensures
        crate::text::reach(s, Cut::At(c)) <= k,
    decreases k,
{
    if k > 0 && s[0] != c {
        assert(s.skip(1)[k - 1] == c);
        lemma_reach_within(s.skip(1), c, k - 1);
    }
}

/// The columns of a table's line: the near end is the second and the far end the third, then come
/// the state, the two queues, of which the one to send stands first, the user in the eighth and
/// the inode in the tenth.
pub proof fn lemma_columns(f: Seq<Seq<char>>, proto: Proto, family: Family)
    requires
        f.len() >= 10,
        forall|k: int| 0 <= k < f.len() ==> is_word(#[trigger] f[k]),
    ensures
        (match socket_line(joined(f, " "@), proto, family, None) {
            Some(r) => {
                &&& endpoint_in(f[1]) == Some((r.local_ip, r.local_port))
                &&& endpoint_in(f[2]) == Some((r.remote_ip, r.remote_port))
                &&& hexadecimal(f[3]) == Some(r.state as nat)
                &&& natural(f[7]) == Some(r.uid as nat)
                &&& natural(f[9]) == Some(r.inode as nat)
                &&& r.proto == proto
                &&& r.family == family
                &&& forall|tx: u32, rx: u32|
                    f[4] == #[trigger] (hexadecimal_text(tx as nat) + seq![':'] + hexadecimal_text(
                        rx as nat,
                    )) ==> r.tx_queue == tx && r.rx_queue == rx
            },
            None => endpoint_in(f[1]) is None || endpoint_in(f[2]) is None || within(
                hexadecimal(f[3]),
                u8::MAX as nat,
            ) is None || f[4].contains(':') == false || within(natural(f[7]), u32::MAX as nat)
                is None || within(natural(f[9]), u64::MAX as nat) is None,
        }),
{
    lemma_join_words(f);
    if f[4].contains(':') {
        let k = choose|k: int| 0 <= k < f[4].len() && f[4][k] == ':';
        lemma_reach_within(f[4], ':', k);
    }
    assert forall|tx: u32, rx: u32|
        f[4] == #[trigger] (hexadecimal_text(tx as nat) + seq![':'] + hexadecimal_text(
            rx as nat,
        )) implies cut_once(f[4], Cut::At(':')) == Some(
        (hexadecimal_text(tx as nat), hexadecimal_text(rx as nat)),
    ) && queue_in(hexadecimal_text(tx as nat)) == tx && queue_in(hexadecimal_text(rx as nat))
        == rx by {
        let a = hexadecimal_text(tx as nat);
        lemma_hexadecimal_reads_back(tx as nat);
        lemma_hexadecimal_reads_back(rx as nat);
        assert forall|j: int| 0 <= j < a.len() implies !Cut::At(':').cuts(#[trigger] f[4][j]) by {
            assert(f[4][j] == a[j]);
            assert(is_hex(a[j]));
        }
        lemma_reach(f[4], Cut::At(':'), a.len() as int);
        assert(f[4].take(a.len() as int) =~= a);
        assert(f[4].skip(a.len() as int + 1) =~= hexadecimal_text(rx as nat));
    }
}

/// A socket behind an optional value.
pub open spec fn socket_seen(r: Option<SocketRow<String>>) -> Option<SocketRow<Seq<char>>> {
    match r {
        Some(x) => Some(x@),
        None => None,
    }
}

/// Reads a line of a socket table.
fn read_socket(line: &str, proto: Proto, family: Family, only: Option<u8>) -> (r: Option<
    SocketRow<String>,
>)
    ensures
        socket_seen(r) == socket_line(line@, proto, family, only),
{
    let f = split_words(line);
    assert(views(f@).len() == f@.len());
    if f.len() < 10 {
        return None;
    }
    assert(views(f@)[1] == f@[1]@ && views(f@)[2] == f@[2]@ && views(f@)[3] == f@[3]@ && views(
        f@,
    )[4] == f@[4]@ && views(f@)[7] == f@[7]@ && views(f@)[9] == f@[9]@);
    let state: u8 = match parse_hex_upto(f[3].as_str(), 0xff) {
        Some(s) => s as u8,
        None => {
            return None;
        },
    };
    // What is not wanted is left out before its addresses are turned into text, which is most
    // of the cost of a row.
    match only {
        Some(s) => {
            if s != state {
                return None;
            }
        },
        None => {},
    }
    match (
        parse_endpoint(f[1].as_str()),
        parse_endpoint(f[2].as_str()),
        split_once(f[4].as_str(), ':'),
        parse_upto(f[7].as_str(), 0xffff_ffff),
        parse_upto(f[9].as_str(), u64::MAX),
    ) {
        (
            Some((local_ip, local_port)),
            Some((remote_ip, remote_port)),
            Some((tx, rx)),
            Some(uid),
            Some(inode),
        ) => Some(
            SocketRow {
                proto,
                family,
                local_ip,
                local_port,
                remote_ip,
                remote_port,
                state,
                uid: uid as u32,
                inode,
                rx_queue: read_queue(rx.as_str()),
                tx_queue: read_queue(tx.as_str()),
            },
        ),
        _ => None,
    }
}

/// Reads a socket table, keeping the rows whose state is wanted.
pub fn parse_table_where(content: &str, proto: Proto, family: Family, only: Option<u8>) -> (r: Vec<
    SocketRow<String>,
>)
    ensures
        sockets_of(r@) == picked(
            below_header(content@),
            |l: Seq<char>| socket_line(l, proto, family, only),
        ),
{
    let ls = split_lines(content);
    let ghost vs = views(ls@);
    let ghost body = below_header(content@);
    let ghost f = |l: Seq<char>| socket_line(l, proto, family, only);
    let mut r: Vec<SocketRow<String>> = Vec::new();
    proof {
        lemma_pick_ends(body, f);
        assert(sockets_of(r@) =~= Seq::empty());
    }
    if ls.len() == 0 {
        assert(body.len() == 0);
        return r;
    }
    for i in 1..ls.len()
        invariant
            vs == views(ls@),
            body == vs.skip(1),
            f == (|l: Seq<char>| socket_line(l, proto, family, only)),
            ls@.len() > 0,
            sockets_of(r@) == picked(body.take(i - 1), f),
    {
        proof {
            lemma_pick(body, f, i - 1);
            assert(body[i - 1] == ls@[i as int]@);
        }
        match read_socket(ls[i].as_str(), proto, family, only) {
            Some(x) => {
                let ghost before = sockets_of(r@);
                let ghost y = x@;
                r.push(x);
                assert(sockets_of(r@) =~= before.push(y));
            },
            None => {},
        }
    }
    r
}

/// Reads a socket table.
pub fn parse_table(content: &str, proto: Proto, family: Family) -> (r: Vec<SocketRow<String>>)
    ensures
        sockets_of(r@) == picked(
            below_header(content@),
            |l: Seq<char>| socket_line(l, proto, family, None),
        ),
{
    parse_table_where(content, proto, family, None)
}

/// The inode in the name of an open socket, `socket:[12345]`.
pub open spec fn socket_in(link: Seq<char>) -> Option<nat> {
    match crate::text::past(link, "socket:["@) {
        None => None,
        Some(a) => match crate::text::upto(a, "]"@) {
            None => None,
            Some(b) => within(natural(b), u64::MAX as nat),
        },
    }
}

/// Reads the inode in the name of an open socket.
pub fn socket_inode(link: &str) -> (r: Option<u64>)
    ensures
        as_nat(r) == socket_in(link@),
{
    match crate::text::strip_prefix(link, "socket:[") {
        None => None,
        Some(a) => match crate::text::strip_suffix(a.as_str(), "]") {
            None => None,
            Some(b) => parse_upto(b.as_str(), u64::MAX),
        },
    }
}

/// Who holds each socket open: the first process seen with it.
pub open spec fn owner_of(v: Seq<(u64, u32)>, inode: u64) -> u32
    decreases v.len(),
{
    if v.len() == 0 {
        0
    } else if v[0].0 == inode {
        v[0].1
    } else {
        owner_of(v.skip(1), inode)
    }
}

/// The process that holds a socket open, 0 where none is known.
pub fn pid_of(v: &Vec<(u64, u32)>, inode: u64) -> (r: u32)
    ensures
        r == owner_of(v@, inode),
{
    assert(v@.skip(0) =~= v@);
    for i in 0..v.len()
        invariant
            owner_of(v@.skip(i as int), inode) == owner_of(v@, inode),
    {
        assert(v@.skip(i as int)[0] == v@[i as int]);
        assert(v@.skip(i as int).skip(1) =~= v@.skip(i + 1));
        if v[i].0 == inode {
            return v[i].1;
        }
    }
    0
}

// --- listening ports ---------------------------------------------------------------------------------------

/// A listening port: its protocol, its number and the inode of the first socket on it.
#[derive(Clone, Copy, PartialEq, Eq, Debug, Structural)]
pub struct Listening {
    pub proto: Proto,
    pub port: u16,
    pub inode: u64,
}

/// A port is in a list.
pub open spec fn has_port(v: Seq<Listening>, proto: Proto, port: u16) -> bool {
    exists|i: int| 0 <= i < v.len() && (#[trigger] v[i]).proto == proto && v[i].port == port
}

/// The listening ports of a table, each once however many sockets are on it.
pub open spec fn listening(ss: Seq<SocketRow<Seq<char>>>) -> Seq<Listening>
    decreases ss.len(),
{
    if ss.len() == 0 {
        Seq::empty()
    } else {
        let v = listening(ss.drop_last());
        let s = ss.last();
        if s.listens() && !has_port(v, s.proto, s.local_port) {
            v.push(Listening { proto: s.proto, port: s.local_port, inode: s.inode })
        } else {
            v
        }
    }
}

fn knows_port(v: &Vec<Listening>, proto: Proto, port: u16) -> (r: bool)
    ensures
        r == has_port(v@, proto, port),
{
    for i in 0..v.len()
        invariant
            forall|j: int| 0 <= j < i ==> !((#[trigger] v@[j]).proto == proto && v@[j].port == port),
    {
        if v[i].proto == proto && v[i].port == port {
            assert(v@[i as int].proto == proto);
            return true;
        }
    }
    false
}

/// The listening ports of a table.
pub fn listening_ports(ss: &Vec<SocketRow<String>>) -> (r: Vec<Listening>)
    ensures
        r@ == listening(sockets_of(ss@)),
{
    let ghost vs = sockets_of(ss@);
    let mut r: Vec<Listening> = Vec::new();
    assert(vs.take(0) =~= Seq::empty());
    for i in 0..ss.len()
        invariant
            vs == sockets_of(ss@),
            r@ == listening(vs.take(i as int)),
    {
        assert(vs.take(i + 1).drop_last() =~= vs.take(i as int));
        let s = &ss[i];
        if s.is_listening() && !knows_port(&r, s.proto, s.local_port) {
            r.push(Listening { proto: s.proto, port: s.local_port, inode: s.inode });
        }
    }
    assert(vs.take(vs.len() as int) =~= vs);
    r
}

/// Each port is listed once.
pub proof fn lemma_each_port_once(ss: Seq<SocketRow<Seq<char>>>)
    ensures
        forall|i: int, j: int|
            0 <= i < j < listening(ss).len() ==> !((#[trigger] listening(ss)[i]).proto == (
            #[trigger] listening(ss)[j]).proto && listening(ss)[i].port == listening(ss)[j].port),
    decreases ss.len(),
{
    if ss.len() > 0 {
        lemma_each_port_once(ss.drop_last());
        let v = listening(ss.drop_last());
        let r = listening(ss);
        assert forall|i: int, j: int| 0 <= i < j < r.len() implies !((#[trigger] r[i]).proto == (
        #[trigger] r[j]).proto && r[i].port == r[j].port) by {
            assert(r[i] == v[i]);
            if j < v.len() {
                assert(r[j] == v[j]);
            }
        }
    }
}

/// By what ports are ordered: the age of the owner, then the number, then TCP before UDP. A
/// port whose owner is not known has no age and sinks to the bottom.
pub open spec fn port_key_number(l: Listening, ps: Seq<Proc>, owners: Seq<(u64, u32)>) -> i128 {
    let age: int = match place_of(ps, owner_of(owners, l.inode)) {
        Some(i) => ps[i].run_time as int,
        None => u64::MAX as int,
    };
    (age * 0x2_0000 + l.port * 2 + (match l.proto {
        Proto::Tcp => 0int,
        Proto::Udp => 1,
    })) as i128
}

/// The listening ports, newest first.
pub open spec fn ranked_ports(
    ss: Seq<SocketRow<Seq<char>>>,
    ps: Seq<Proc>,
    owners: Seq<(u64, u32)>,
) -> Seq<Listening> {
    let v = listening(ss);
    sorted_by(v, Seq::new(v.len(), |i: int| port_key_number(v[i], ps, owners)))
}

/// What tells a port from others.
pub open spec fn port_key_text(proto: Proto, port: u16) -> Seq<char> {
    proto.text() + " "@ + decimal(port as nat)
}

/// What tells a port from others: its protocol and number, and not its owner, which can be
/// missing, change or be shared.
pub fn port_key(proto: Proto, port: u16) -> (r: String)
    ensures
        r@ == port_key_text(proto, port),
{
    cat3(proto.label(), " ", dec(port as u64).as_str())
}

/// The row of a listening port.
pub open spec fn port_row(r: TableRow, l: Listening, ps: Seq<Proc>, owners: Seq<(u64, u32)>) -> bool {
    let pid = owner_of(owners, l.inode);
    let o = owner_cells(ps, pid);
    is_leaf(
        r,
        seq![l.proto.text(), decimal(l.port as nat), o.0, o.1],
        pid,
        port_key_text(l.proto, l.port),
    )
}

/// The first members of a list, all of them without a limit.
pub open spec fn capped(n: nat, limit: Option<usize>) -> nat {
    match limit {
        Some(l) => if l < n {
            l as nat
        } else {
            n
        },
        None => n,
    }
}

/// The listening ports as rows, newest first, no more than the limit.
pub fn sample_ports(
    ss: &Vec<SocketRow<String>>,
    ps: &Vec<Proc>,
    owners: &Vec<(u64, u32)>,
    limit: Option<usize>,
) -> (r: Vec<TableRow>)
    ensures
        ({
            let v = ranked_ports(sockets_of(ss@), ps@, owners@);
            r@.len() == capped(v.len(), limit) && forall|i: int|
                0 <= i < r@.len() ==> port_row(#[trigger] r@[i], v[i], ps@, owners@)
        }),
{
    let v = listening_ports(ss);
    let mut keys: Vec<i128> = Vec::new();
    for i in 0..v.len()
        invariant
            keys@ =~= Seq::new(i as nat, |k: int| port_key_number(v@[k], ps@, owners@)),
    {
        let age: u64 = match find_proc(ps, pid_of(owners, v[i].inode)) {
            Some(k) => ps[k].run_time,
            None => u64::MAX,
        };
        let last: i128 = match v[i].proto {
            Proto::Tcp => 0,
            Proto::Udp => 1,
        };
        keys.push((age as i128) * 0x2_0000 + (v[i].port as i128) * 2 + last);
    }
    let o = stable_order(keys.as_slice());
    let ghost sorted = ranked_ports(sockets_of(ss@), ps@, owners@);
    proof {
        assert(keys@ =~= Seq::new(v@.len(), |i: int| port_key_number(v@[i], ps@, owners@)));
        lemma_sorted(v@, keys@, o@);
    }
    let n: usize = match limit {
        Some(l) => if l < o.len() {
            l
        } else {
            o.len()
        },
        None => o.len(),
    };
    let mut r: Vec<TableRow> = Vec::new();
    for i in 0..n
        invariant
            is_order(keys@, o@),
            keys@.len() == v@.len(),
            n <= o@.len(),
            sorted == Seq::new(v@.len(), |i: int| v@[o@[i] as int]),
            r@.len() == i,
            forall|k: int| 0 <= k < i ==> port_row(#[trigger] r@[k], sorted[k], ps@, owners@),
    {
        let l = v[o[i]];
        let pid = pid_of(owners, l.inode);
        let (process, age) = describe_owner(ps, pid);
        let mut cells: Vec<String> = Vec::new();
        cells.push(l.proto.label().to_owned());
        cells.push(dec(l.port as u64));
        let ghost o = owner_cells(ps@, pid);
        cells.push(process);
        cells.push(age);
        assert(views(cells@) =~= seq![l.proto.text(), decimal(l.port as nat), o.0, o.1]);
        let row = TableRow::keyed(cells, pid, port_key(l.proto, l.port));
        assert(port_row(row, sorted[i as int], ps@, owners@));
        r.push(row);
    }
    r
}

/// Cells with the one at a place replaced, where there is one.
pub open spec fn with_cell(cells: Seq<Seq<char>>, i: int, t: Seq<char>) -> Seq<Seq<char>> {
    if i < cells.len() {
        cells.update(i, t)
    } else {
        cells
    }
}

/// Replaces the cell at a place, where there is one.
pub fn set_cell(cells: &mut Vec<String>, i: usize, t: String)
    ensures
        views(final(cells)@) == with_cell(views(old(cells)@), i as int, t@),
{
    if i < cells.len() {
        let ghost before = views(cells@);
        let ghost y = t@;
        cells.set(i, t);
        assert(views(cells@) =~= before.update(i as int, y));
    }
}

/// Renews what the rows say of the owners of their ports, the rows themselves in place.
pub fn refresh_values(ps: &Vec<Proc>, rows: &mut Vec<TableRow>)
    ensures
        final(rows)@.len() == old(rows)@.len(),
        forall|i: int|
            0 <= i < old(rows)@.len() ==> views((#[trigger] final(rows)@[i]).cells@) == with_cell(
                with_cell(views(old(rows)@[i].cells@), 2, owner_cells(ps@, old(rows)@[i].pid).0),
                3,
                owner_cells(ps@, old(rows)@[i].pid).1,
            ) && final(rows)@[i] == (TableRow { cells: final(rows)@[i].cells, ..old(rows)@[i] }),
{
    let n: usize = rows.len();
    for i in 0..n
        invariant
            n == rows@.len(),
            rows@.len() == old(rows)@.len(),
            forall|k: int|
                0 <= k < i ==> views((#[trigger] rows@[k]).cells@) == with_cell(
                    with_cell(views(old(rows)@[k].cells@), 2, owner_cells(ps@, old(rows)@[k].pid).0),
                    3,
                    owner_cells(ps@, old(rows)@[k].pid).1,
                ) && rows@[k] == (TableRow { cells: rows@[k].cells, ..old(rows)@[k] }),
            forall|k: int| i <= k < rows@.len() ==> #[trigger] rows@[k] == old(rows)@[k],
    {
        let (process, age) = describe_owner(ps, rows[i].pid);
        let row = &mut rows[i];
        set_cell(&mut row.cells, 2, process);
        set_cell(&mut row.cells, 3, age);
    }
}

// --- details ----------------------------------------------------------------------------------------------

/// The sockets that listen on a port.
pub open spec fn bound_to(s: SocketRow<Seq<char>>, proto: Proto, port: u16) -> Option<
    SocketRow<Seq<char>>,
> {
    if s.proto == proto && s.local_port == port && s.listens() {
        Some(s)
    } else {
        None
    }
}

/// Some socket is bound on every address.
pub open spec fn any_wildcard(b: Seq<SocketRow<Seq<char>>>) -> bool {
    exists|i: int| 0 <= i < b.len() && is_wildcard((#[trigger] b[i]).local_ip)
}

/// An address that nothing outside this machine reaches.
pub open spec fn is_loopback(ip: Seq<char>) -> bool {
    begins(ip, "127."@) || ip == "::1"@
}

/// Who can reach a port, by the addresses it is bound to.
pub open spec fn reach_text(b: Seq<SocketRow<Seq<char>>>) -> Seq<char> {
    if any_wildcard(b) {
        "qualquer endereço desta máquina — alcançável pela rede"@
    } else if forall|i: int| 0 <= i < b.len() ==> is_loopback((#[trigger] b[i]).local_ip) {
        "só o loopback — nada de fora desta máquina chega aqui"@
    } else {
        "endereços específicos, listados acima"@
    }
}

fn has_wildcard(b: &Vec<&SocketRow<String>>) -> (r: bool)
    ensures
        r == any_wildcard(Seq::new(b@.len(), |i: int| b@[i]@)),
{
    let ghost vs = Seq::new(b@.len(), |i: int| b@[i]@);
    for i in 0..b.len()
        invariant
            vs == Seq::new(b@.len(), |i: int| b@[i]@),
            forall|j: int| 0 <= j < i ==> !is_wildcard((#[trigger] vs[j]).local_ip),
    {
        assert(vs[i as int] == b@[i as int]@);
        if wildcard(b[i].local_ip.as_str()) {
            return true;
        }
    }
    false
}

/// Who can reach a port.
pub fn reach(b: &Vec<&SocketRow<String>>) -> (r: &'static str)
    ensures
        r@ == reach_text(Seq::new(b@.len(), |i: int| b@[i]@)),
{
    if has_wildcard(b) {
        return "qualquer endereço desta máquina — alcançável pela rede";
    }
    let ghost vs = Seq::new(b@.len(), |i: int| b@[i]@);
    for i in 0..b.len()
        invariant
            vs == Seq::new(b@.len(), |i: int| b@[i]@),
            !any_wildcard(vs),
            forall|j: int| 0 <= j < i ==> is_loopback((#[trigger] vs[j]).local_ip),
    {
        assert(vs[i as int] == b@[i as int]@);
        let ip = b[i].local_ip.as_str();
        if !starts_with(ip, "127.") && !same(ip, "::1") {
            return "endereços específicos, listados acima";
        }
    }
    "só o loopback — nada de fora desta máquina chega aqui"
}

/// The name of an interface that can be reached.
pub open spec fn reachable(i: Interface) -> Option<Seq<char>> {
    if i.up() && i.addresses@.len() > 0 {
        Some(i.name@)
    } else {
        None
    }
}

/// The interface that a socket is on, with its address.
pub open spec fn on_interface(s: SocketRow<Seq<char>>, held: Seq<Held>) -> Option<Seq<char>> {
    if s.local_ip.len() == 0 || is_wildcard(s.local_ip) {
        None
    } else {
        match holder(held, s.local_ip) {
            Some(n) => Some(n + " ("@ + s.local_ip + ")"@),
            None => None,
        }
    }
}

/// The interfaces that a port can be reached on.
pub open spec fn interfaces_text(
    b: Seq<SocketRow<Seq<char>>>,
    list: Seq<Interface>,
    held: Seq<Held>,
) -> Seq<char> {
    if any_wildcard(b) {
        "todas — "@ + joined(picked(list, |i: Interface| reachable(i)), ", "@)
    } else {
        joined(picked(b, |s: SocketRow<Seq<char>>| on_interface(s, held)), "  ·  "@)
    }
}

/// The interfaces that a port can be reached on.
pub fn bound_interfaces(b: &Vec<&SocketRow<String>>, list: &Vec<Interface>, held: &Vec<Held>) -> (r:
    String)
    ensures
        r@ == interfaces_text(Seq::new(b@.len(), |i: int| b@[i]@), list@, held@),
{
    let ghost vs = Seq::new(b@.len(), |i: int| b@[i]@);
    if has_wildcard(b) {
        let ghost f = |i: Interface| reachable(i);
        let mut names: Vec<String> = Vec::new();
        proof {
            lemma_pick_ends(list@, f);
            assert(views(names@) =~= Seq::empty());
        }
        for i in 0..list.len()
            invariant
                f == (|i: Interface| reachable(i)),
                views(names@) == picked(list@.take(i as int), f),
        {
            proof {
                lemma_pick(list@, f, i as int);
            }
            if list[i].is_up() && list[i].addresses.len() > 0 {
                let ghost before = names@;
                names.push(list[i].name.clone());
                assert(views(names@) =~= views(before).push(list@[i as int].name@));
            }
        }
        let j = join(names.as_slice(), ", ");
        return cat2("todas — ", j.as_str());
    }
    let ghost f = |s: SocketRow<Seq<char>>| on_interface(s, held@);
    let mut named: Vec<String> = Vec::new();
    proof {
        lemma_pick_ends(vs, f);
        assert(views(named@) =~= Seq::empty());
    }
    for i in 0..b.len()
        invariant
            vs == Seq::new(b@.len(), |i: int| b@[i]@),
            f == (|s: SocketRow<Seq<char>>| on_interface(s, held@)),
            views(named@) == picked(vs.take(i as int), f),
    {
        proof {
            lemma_pick(vs, f, i as int);
            assert(vs[i as int] == b@[i as int]@);
        }
        match interface_of(held, b[i].local_ip.as_str()) {
            Some(n) => {
                let t = cat4(n.as_str(), " (", b[i].local_ip.as_str(), ")");
                let ghost before = named@;
                let ghost y = t@;
                named.push(t);
                assert(views(named@) =~= views(before).push(y));
            },
            None => {},
        }
    }
    join(named.as_slice(), "  ·  ")
}

/// The ports that some socket listens on.
pub open spec fn taken_ports(ss: Seq<SocketRow<Seq<char>>>) -> Seq<u16> {
    picked(
        ss,
        |s: SocketRow<Seq<char>>|
            if s.listens() {
                Some(s.local_port)
            } else {
                None
            },
    )
}

/// The ports that some socket listens on: what a new listener has to stay out of.
pub fn listening_port_set(ss: &Vec<SocketRow<String>>) -> (r: Vec<u16>)
    ensures
        r@ == taken_ports(sockets_of(ss@)),
{
    let ghost vs = sockets_of(ss@);
    let ghost f = |s: SocketRow<Seq<char>>|
        if s.listens() {
            Some(s.local_port)
        } else {
            None
        };
    let mut r: Vec<u16> = Vec::new();
    proof {
        lemma_pick_ends(vs, f);
    }
    for i in 0..ss.len()
        invariant
            vs == sockets_of(ss@),
            f == (|s: SocketRow<Seq<char>>|
                if s.listens() {
                    Some(s.local_port)
                } else {
                    None
                }),
            r@ == picked(vs.take(i as int), f),
    {
        proof {
            lemma_pick(vs, f, i as int);
        }
        if ss[i].is_listening() {
            r.push(ss[i].local_port);
        }
    }
    r
}

/// The first port from one to another that is not taken.
pub open spec fn first_free(taken: Seq<u16>, from: int, to: int) -> Option<int>
    decreases to - from + 1,
{
    if from > to {
        None
    } else if !taken.contains(from as u16) {
        Some(from)
    } else {
        first_free(taken, from + 1, to)
    }
}

/// The sum of a port and a number, no port above the last.
pub open spec fn port_plus(port: u16, n: int) -> int {
    if port + n > 65535 {
        65535
    } else {
        port + n
    }
}

/// Where a recorder of a port's traffic can listen: the first free port above it.
pub open spec fn recorder_port(taken: Seq<u16>, port: u16) -> Option<int> {
    first_free(taken, port_plus(port, 1), port_plus(port, 64))
}

/// The offer to record what a port receives.
pub open spec fn recorder(proto: Seq<char>, port: u16, listen: int) -> HandoffV {
    HandoffV {
        label: "túnel "@ + proto + " em "@ + decimal(listen as nat)
            + " gravando o que iria para "@ + decimal(port as nat),
        tool: "tunnel"@,
        params: seq![
            ("proto"@, proto),
            ("listen"@, "127.0.0.1:"@ + decimal(listen as nat)),
            ("target"@, "127.0.0.1:"@ + decimal(port as nat)),
        ],
    }
}

fn is_taken(taken: &Vec<u16>, port: u16) -> (r: bool)
    ensures
        r == taken@.contains(port),
{
    for i in 0..taken.len()
        invariant
            forall|j: int| 0 <= j < i ==> #[trigger] taken@[j] != port,
    {
        if taken[i] == port {
            return true;
        }
    }
    false
}

/// An offer to record everything that a port receives, and the port it would listen on taken.
/// There is none when no port near above it is free.
pub fn record_traffic(proto: Proto, port: u16, taken: &mut Vec<u16>) -> (r: Option<Handoff>)
    ensures
        (match recorder_port(old(taken)@, port) {
            None => r is None && final(taken)@ == old(taken)@,
            Some(l) => r is Some && r->0@ == recorder(proto.text(), port, l) && final(taken)@
                == old(taken)@.push(l as u16),
        }),
{
    let from: u32 = if port == 65535 {
        65535
    } else {
        port as u32 + 1
    };
    let to: u32 = if port as u32 + 64 > 65535 {
        65535
    } else {
        port as u32 + 64
    };
    let mut l: u32 = from;
    while l <= to && is_taken(taken, l as u16)
        invariant
            from <= l <= to + 1,
            to <= 65535,
            *taken == *old(taken),
            first_free(taken@, l as int, to as int) == first_free(
                taken@,
                from as int,
                to as int,
            ),
        decreases to + 1 - l,
    {
        l = l + 1;
    }
    if l > to {
        return None;
    }
    taken.push(l as u16);
    let p = proto.label();
    let ln = dec(l as u64);
    let pn = dec(port as u64);
    let head = cat4("túnel ", p, " em ", ln.as_str());
    let mut params: Vec<(&'static str, String)> = Vec::new();
    params.push(("proto", p.to_owned()));
    params.push(("listen", cat2("127.0.0.1:", ln.as_str())));
    params.push(("target", cat2("127.0.0.1:", pn.as_str())));
    let h = Handoff {
        label: cat3(head.as_str(), " gravando o que iria para ", pn.as_str()),
        tool: "tunnel",
        params,
    };
    proof {
        assert(h@.params =~= recorder(proto.text(), port, l as int).params);
    }
    Some(h)
}

/// The port of a recorder is free and within reach above the one that is recorded.
pub proof fn lemma_recorder(taken: Seq<u16>, port: u16)
    ensures
        (match recorder_port(taken, port) {
            Some(l) => !taken.contains(l as u16) && port_plus(port, 1) <= l <= port_plus(port, 64),
            None => true,
        }),
{
    lemma_first_free(taken, port_plus(port, 1), port_plus(port, 64));
}

proof fn lemma_first_free(taken: Seq<u16>, from: int, to: int)
    requires
        0 <= from,
        to <= 65535,
    ensures
        (match first_free(taken, from, to) {
            Some(l) => from <= l <= to && !taken.contains(l as u16),
            None => forall|l: u16| from <= l <= to ==> #[trigger] taken.contains(l),
        }),
    decreases to - from + 1,
{
    if from <= to && taken.contains(from as u16) {
        lemma_first_free(taken, from + 1, to);
    }
}

/// The far address of an established connection to a port.
pub open spec fn client_of(s: SocketRow<Seq<char>>, port: u16) -> Option<Seq<char>> {
    if s.proto == Proto::Tcp && s.local_port == port && s.state == TCP_ESTABLISHED {
        Some(s.remote_ip)
    } else {
        None
    }
}

/// How many times each text of a list comes, in the order in which they first come.
pub open spec fn counted(v: Seq<Seq<char>>) -> Seq<(Seq<char>, u64)>
    decreases v.len(),
{
    if v.len() == 0 {
        Seq::empty()
    } else {
        let c = counted(v.drop_last());
        let n: int = match crate::dict::under(c, v.last()) {
            Some(x) => x as int,
            None => 0,
        };
        crate::dict::put(c, v.last(), (n + 1) as u64)
    }
}

/// Counts, those with the most first, equal ones by their texts.
pub open spec fn ranked(c: Seq<(Seq<char>, u64)>) -> Seq<(Seq<char>, u64)> {
    let by_text = sorted_by(c, ranks(Seq::new(c.len(), |i: int| c[i].0)));
    sorted_by(by_text, Seq::new(by_text.len(), |i: int| (-by_text[i].1) as i128))
}

/// Lines with one for each of the first `n` peers.
pub open spec fn with_peers(
    f: Seq<(Seq<char>, Seq<char>)>,
    c: Seq<(Seq<char>, u64)>,
    n: int,
) -> Seq<(Seq<char>, Seq<char>)>
    decreases n,
{
    if n <= 0 {
        f
    } else {
        with_field(
            with_peers(f, c, n - 1),
            c[n - 1].0,
            decimal(c[n - 1].1 as nat) + " conexão(ões)"@,
        )
    }
}

/// The lines about who is connected to a port: how many, and from where, the busiest first.
pub open spec fn client_lines(ss: Seq<SocketRow<Seq<char>>>, port: u16) -> Seq<
    (Seq<char>, Seq<char>),
> {
    let peers = picked(ss, |s: SocketRow<Seq<char>>| client_of(s, port));
    let c = ranked(counted(peers));
    let n = if c.len() < MAX_CLIENTS {
        c.len() as int
    } else {
        MAX_CLIENTS as int
    };
    let f = with_field(Seq::empty(), "Estabelecidas"@, decimal(peers.len()));
    let f = with_peers(f, c, n);
    if c.len() > MAX_CLIENTS {
        with_field(
            f,
            "E mais"@,
            decimal((c.len() - MAX_CLIENTS) as nat) + " outro(s) endereço(s)"@,
        )
    } else {
        f
    }
}

/// Counts the texts of a list.
fn count(v: &Vec<String>) -> (r: Vec<(String, u64)>)
    ensures
        crate::dict::pairs(r@) == counted(views(v@)),
{
    let ghost vs = views(v@);
    let mut r: Vec<(String, u64)> = Vec::new();
    assert(vs.take(0) =~= Seq::empty());
    assert(crate::dict::pairs(r@) =~= Seq::empty());
    for i in 0..v.len()
        invariant
            vs == views(v@),
            crate::dict::pairs(r@) == counted(vs.take(i as int)),
    {
        assert(vs.take(i + 1).drop_last() =~= vs.take(i as int));
        let n: u64 = match crate::dict::find_pair(&r, v[i].as_str()) {
            Some(k) => r[k].1,
            None => 0,
        };
        #[verifier::truncate]
        let m: u64 = ((n as u128) + 1) as u64;
        crate::dict::put_pair(&mut r, v[i].as_str(), m);
    }
    assert(vs.take(vs.len() as int) =~= vs);
    r
}

/// Puts counts in order.
fn rank_counts(c: &Vec<(String, u64)>) -> (r: Vec<(String, u64)>)
    ensures
        crate::dict::pairs(r@) == ranked(crate::dict::pairs(c@)),
{
    let ghost cs = crate::dict::pairs(c@);
    let mut texts: Vec<String> = Vec::new();
    for i in 0..c.len()
        invariant
            cs == crate::dict::pairs(c@),
            views(texts@) =~= Seq::new(i as nat, |k: int| cs[k].0),
    {
        let ghost before = texts@;
        texts.push(c[i].0.clone());
        assert(views(texts@) =~= views(before).push(cs[i as int].0));
    }
    assert(views(texts@) =~= Seq::new(cs.len(), |k: int| cs[k].0));
    let rk = text_ranks(&texts);
    let o = stable_order(rk.as_slice());
    let ghost by_text = sorted_by(cs, rk@);
    proof {
        lemma_sorted(cs, rk@, o@);
    }
    let mut keys: Vec<i128> = Vec::new();
    for i in 0..o.len()
        invariant
            is_order(rk@, o@),
            rk@.len() == c@.len(),
            cs == crate::dict::pairs(c@),
            by_text == Seq::new(cs.len(), |i: int| cs[o@[i] as int]),
            keys@ =~= Seq::new(i as nat, |k: int| (-by_text[k].1) as i128),
    {
        keys.push(-(c[o[i]].1 as i128));
    }
    let p = stable_order(keys.as_slice());
    proof {
        assert(keys@ =~= Seq::new(by_text.len(), |k: int| (-by_text[k].1) as i128));
        lemma_sorted(by_text, keys@, p@);
    }
    let mut r: Vec<(String, u64)> = Vec::new();
    for i in 0..p.len()
        invariant
            is_order(rk@, o@),
            is_order(keys@, p@),
            rk@.len() == c@.len(),
            keys@.len() == c@.len(),
            cs == crate::dict::pairs(c@),
            by_text == Seq::new(cs.len(), |i: int| cs[o@[i] as int]),
            crate::dict::pairs(r@) =~= Seq::new(i as nat, |k: int| by_text[p@[k] as int]),
    {
        let ghost before = crate::dict::pairs(r@);
        let k: usize = o[p[i]];
        r.push((c[k].0.clone(), c[k].1));
        assert(crate::dict::pairs(r@) =~= before.push(by_text[p@[i as int] as int]));
    }
    assert(crate::dict::pairs(r@) =~= ranked(cs));
    r
}

/// Who is connected to a port right now, by address: forty connections of one host are not
/// the same as forty clients.
pub fn clients(ss: &Vec<SocketRow<String>>, port: u16) -> (r: DetailSection)
    ensures
        r@ == (SectionV { title: "Conexões"@, fields: client_lines(sockets_of(ss@), port) }),
{
    let ghost vs = sockets_of(ss@);
    let ghost f = |s: SocketRow<Seq<char>>| client_of(s, port);
    let mut peers: Vec<String> = Vec::new();
    proof {
        lemma_pick_ends(vs, f);
        assert(views(peers@) =~= Seq::empty());
    }
    for i in 0..ss.len()
        invariant
            vs == sockets_of(ss@),
            f == (|s: SocketRow<Seq<char>>| client_of(s, port)),
            views(peers@) == picked(vs.take(i as int), f),
    {
        proof {
            lemma_pick(vs, f, i as int);
        }
        let s = &ss[i];
        if s.proto == Proto::Tcp && s.local_port == port && s.state == TCP_ESTABLISHED {
            let ghost before = peers@;
            peers.push(s.remote_ip.clone());
            assert(views(peers@) =~= views(before).push(s.remote_ip@));
        }
    }
    assert(views(peers@).len() == peers@.len());
    let mut section = DetailSection::new("Conexões");
    section.push("Estabelecidas", dec(peers.len() as u64));
    let c = rank_counts(&count(&peers));
    let ghost cs = crate::dict::pairs(c@);
    let ghost f0 = section@.fields;
    let n: usize = if c.len() < MAX_CLIENTS {
        c.len()
    } else {
        MAX_CLIENTS
    };
    for i in 0..n
        invariant
            n <= c@.len(),
            cs == crate::dict::pairs(c@),
            section@.title == "Conexões"@,
            section@.fields == with_peers(f0, cs, i as int),
    {
        section.push(c[i].0.as_str(), cat2(dec(c[i].1).as_str(), " conexão(ões)"));
    }
    if c.len() > MAX_CLIENTS {
        section.push(
            "E mais",
            cat2(dec((c.len() - MAX_CLIENTS) as u64).as_str(), " outro(s) endereço(s)"),
        );
    }
    section
}

/// The sockets of a list on one line, each with its family.
pub open spec fn bound_text(s: SocketRow<Seq<char>>) -> Seq<char> {
    endpoint_text(s.local_ip, s.local_port) + " ["@ + s.family.text() + "]"@
}

/// How many connections wait to be accepted on some sockets.
pub open spec fn waiting(b: Seq<SocketRow<Seq<char>>>) -> nat
    decreases b.len(),
{
    if b.len() == 0 {
        0
    } else {
        waiting(b.drop_last()) + b.last().rx_queue as nat
    }
}

/// The lines about a listening port.
pub open spec fn port_lines(
    b: Seq<SocketRow<Seq<char>>>,
    proto: Proto,
    port: u16,
    service: Option<Seq<char>>,
    user: Option<Seq<char>>,
    list: Seq<Interface>,
    held: Seq<Held>,
) -> Seq<(Seq<char>, Seq<char>)> {
    let f = Seq::empty();
    let f = with_field(f, "Protocolo"@, proto.text());
    let f = with_field(
        f,
        "Porta"@,
        match service {
            Some(s) => decimal(port as nat) + " ("@ + s + ")"@,
            None => decimal(port as nat),
        },
    );
    let f = with_field(
        f,
        "Escutando em"@,
        joined(Seq::new(b.len(), |i: int| bound_text(b[i])), "  ·  "@),
    );
    let f = with_field(f, "Alcance"@, reach_text(b));
    let f = with_field(f, "Interfaces"@, interfaces_text(b, list, held));
    let f = with_field(f, "Dono do socket"@, owner_text(b[0].uid, user));
    let f = if proto == Proto::Tcp {
        with_field(
            f,
            "Fila de accept"@,
            decimal(waiting(b)) + " conexão(ões) esperando o processo aceitar"@,
        )
    } else {
        f
    };
    with_field(
        f,
        "Inode"@,
        joined(Seq::new(b.len(), |i: int| decimal(b[i].inode as nat)), " · "@),
    )
}

/// The name of the first user behind a port, out of the list of users.
pub open spec fn first_user(b: Seq<SocketRow<Seq<char>>>, passwd: Seq<char>) -> Option<Seq<char>> {
    crate::text::first_some(
        lines(passwd),
        |l: Seq<char>| crate::monitor::resolve::user_line(l, b[0].uid),
    )
}

/// The sockets that listen on a port, in the order of the table.
pub open spec fn bound_of(ss: Seq<SocketRow<Seq<char>>>, proto: Proto, port: u16) -> Seq<
    SocketRow<Seq<char>>,
> {
    picked(ss, |s: SocketRow<Seq<char>>| bound_to(s, proto, port))
}

fn bound_sockets<'a>(ss: &'a Vec<SocketRow<String>>, proto: Proto, port: u16) -> (r: Vec<
    &'a SocketRow<String>,
>)
    ensures
        Seq::new(r@.len(), |i: int| r@[i]@) == bound_of(sockets_of(ss@), proto, port),
{
    let ghost vs = sockets_of(ss@);
    let ghost f = |s: SocketRow<Seq<char>>| bound_to(s, proto, port);
    let mut r: Vec<&SocketRow<String>> = Vec::new();
    proof {
        lemma_pick_ends(vs, f);
        assert(Seq::new(r@.len(), |i: int| r@[i]@) =~= Seq::empty());
    }
    for i in 0..ss.len()
        invariant
            vs == sockets_of(ss@),
            f == (|s: SocketRow<Seq<char>>| bound_to(s, proto, port)),
            Seq::new(r@.len(), |i: int| r@[i]@) == picked(vs.take(i as int), f),
    {
        proof {
            lemma_pick(vs, f, i as int);
        }
        let s = &ss[i];
        if s.proto == proto && s.local_port == port && s.is_listening() {
            let ghost before = Seq::new(r@.len(), |i: int| r@[i]@);
            r.push(s);
            assert(Seq::new(r@.len(), |i: int| r@[i]@) =~= before.push(s@));
        }
    }
    r
}

/// Adds up the queues.
fn add_waiting(b: &Vec<&SocketRow<String>>) -> (r: u128)
    ensures
        r == waiting(Seq::new(b@.len(), |i: int| b@[i]@)),
{
    let ghost vs = Seq::new(b@.len(), |i: int| b@[i]@);
    let mut r: u128 = 0;
    assert(vs.take(0) =~= Seq::empty());
    for i in 0..b.len()
        invariant
            vs == Seq::new(b@.len(), |i: int| b@[i]@),
            r == waiting(vs.take(i as int)),
            r <= i * 0xffff_ffff_ffff_ffff,
    {
        assert(vs.take(i + 1).drop_last() =~= vs.take(i as int));
        assert(i * 0xffff_ffff_ffff_ffff <= 0xffff_ffff_ffff_ffff * 0xffff_ffff_ffff_ffff)
            by (nonlinear_arith)
            requires
                i <= 0xffff_ffff_ffff_ffff,
        ;
        r = r + b[i].rx_queue as u128;
    }
    assert(vs.take(vs.len() as int) =~= vs);
    r
}

fn port_section(
    b: &Vec<&SocketRow<String>>,
    proto: Proto,
    port: u16,
    service: Option<&str>,
    user: &Option<String>,
    list: &Vec<Interface>,
    held: &Vec<Held>,
) -> (r: DetailSection)
    requires
        b@.len() > 0,
    ensures
        r@.title == "Porta"@,
        r@.fields == port_lines(
            Seq::new(b@.len(), |i: int| b@[i]@),
            proto,
            port,
            (match service {
                Some(s) => Some(s@),
                None => None,
            }),
            maybe(*user),
            list@,
            held@,
        ),
{
    let ghost vs = Seq::new(b@.len(), |i: int| b@[i]@);
    let mut s = DetailSection::new("Porta");
    s.push("Protocolo", proto.label().to_owned());
    let p = dec(port as u64);
    match service {
        Some(x) => {
            s.push("Porta", cat4(p.as_str(), " (", x, ")"));
        },
        None => {
            s.push("Porta", p);
        },
    }
    let mut ends: Vec<String> = Vec::new();
    let mut inodes: Vec<String> = Vec::new();
    for i in 0..b.len()
        invariant
            vs == Seq::new(b@.len(), |i: int| b@[i]@),
            views(ends@) =~= Seq::new(i as nat, |k: int| bound_text(vs[k])),
            views(inodes@) =~= Seq::new(i as nat, |k: int| decimal(vs[k].inode as nat)),
    {
        let ghost e = ends@;
        let ghost n = inodes@;
        assert(vs[i as int] == b@[i as int]@);
        ends.push(cat4(b[i].local().as_str(), " [", b[i].family.label(), "]"));
        inodes.push(dec(b[i].inode));
        assert(views(ends@) =~= views(e).push(bound_text(vs[i as int])));
        assert(views(inodes@) =~= views(n).push(decimal(vs[i as int].inode as nat)));
    }
    assert(views(ends@) =~= Seq::new(vs.len(), |k: int| bound_text(vs[k])));
    assert(views(inodes@) =~= Seq::new(vs.len(), |k: int| decimal(vs[k].inode as nat)));
    s.push("Escutando em", join(ends.as_slice(), "  ·  "));
    s.push("Alcance", reach(b).to_owned());
    s.push("Interfaces", bound_interfaces(b, list, held));
    assert(vs[0] == b@[0]@);
    s.push("Dono do socket", owner_label(b[0].uid, user));
    if proto == Proto::Tcp {
        let w: u128 = add_waiting(b);
        s.push(
            "Fila de accept",
            cat2(dec_wide(w).as_str(), " conexão(ões) esperando o processo aceitar"),
        );
    }
    s.push("Inode", join(inodes.as_slice(), " · "));
    s
}

/// All that is known about a listening port; nothing when nobody listens on it any more.
///
/// `owners` says who holds each socket, `x` and `missing` what is said of the owner.
pub fn build_detail(
    ss: &Vec<SocketRow<String>>,
    ps: &Vec<Proc>,
    owners: &Vec<(u64, u32)>,
    services: &Services,
    passwd: &str,
    list: &Vec<Interface>,
    held: &Vec<Held>,
    x: &Extra,
    proto: Proto,
    port: u16,
) -> (r: Option<Detail>)
    ensures
        ({
            let b = bound_of(sockets_of(ss@), proto, port);
            match r {
                None => b.len() == 0,
                Some(d) => b.len() > 0 && d.title@ == proto.text() + " porta "@ + decimal(
                    port as nat,
                ) && d.gone_note@ == "não está mais em escuta"@ && d.rates is None
                    && d.handoff_title@ == "Gravar o tráfego desta porta"@ && sections_of(
                    d.sections@,
                ) == port_sections(ss@, ps@, owners@, services.entries@, passwd@, list@, held@, *x, proto, port)
                    && offers_of(d.handoffs@) == (match recorder_port(
                    taken_ports(sockets_of(ss@)),
                    port,
                ) {
                    Some(l) => seq![recorder(proto.text(), port, l)],
                    None => Seq::empty(),
                }),
            }
        }),
{
    let b = bound_sockets(ss, proto, port);
    let ghost vs = Seq::new(b@.len(), |i: int| b@[i]@);
    if b.len() == 0 {
        return None;
    }
    assert(vs[0] == b@[0]@);
    let user = crate::monitor::resolve::user_name(passwd, b[0].uid);
    proof {
        let f = |l: Seq<char>| crate::monitor::resolve::user_line(l, b@[0].uid);
        let g = |l: Seq<char>| crate::monitor::resolve::user_line(l, vs[0].uid);
        assert(f =~= g);
    }
    let service = services.name(proto == Proto::Tcp, port);
    let section = port_section(&b, proto, port, service, &user, list, held);
    let pid = pid_of(owners, b[0].inode);
    let owner = owner_section(ps, pid, x, SEM_DONO);
    let mut sections: Vec<DetailSection> = Vec::new();
    sections.push(section);
    sections.push(owner);
    if proto == Proto::Tcp {
        sections.push(clients(ss, port));
    }
    assert(sections_of(sections@) =~= port_sections(
        ss@,
        ps@,
        owners@,
        services.entries@,
        passwd@,
        list@,
        held@,
        *x,
        proto,
        port,
    ));
    let mut taken = listening_port_set(ss);
    let mut handoffs: Vec<Handoff> = Vec::new();
    match record_traffic(proto, port, &mut taken) {
        Some(h) => {
            let ghost hv = h@;
            handoffs.push(h);
            assert(offers_of(handoffs@) =~= seq![hv]);
        },
        None => {
            assert(offers_of(handoffs@) =~= Seq::empty());
        },
    }
    Some(
        Detail {
            title: cat3(proto.label(), " porta ", dec(port as u64).as_str()),
            gone_note: "não está mais em escuta",
            sections,
            rates: None,
            handoffs,
            handoff_title: "Gravar o tráfego desta porta",
        },
    )
}

/// The sections of the detail of a listening port.
pub open spec fn port_sections(
    ss: Seq<SocketRow<String>>,
    ps: Seq<Proc>,
    owners: Seq<(u64, u32)>,
    services: Seq<(bool, u16, String)>,
    passwd: Seq<char>,
    list: Seq<Interface>,
    held: Seq<Held>,
    x: Extra,
    proto: Proto,
    port: u16,
) -> Seq<SectionV> {
    let b = bound_of(sockets_of(ss), proto, port);
    let head = seq![
        SectionV {
            title: "Porta"@,
            fields: port_lines(
                b,
                proto,
                port,
                service_of(entries_of(services), proto == Proto::Tcp, port),
                first_user(b, passwd),
                list,
                held,
            ),
        },
        SectionV {
            title: "Processo"@,
            fields: owner_lines(
                at(ps, place_of(ps, owner_of(owners, b[0].inode))),
                x,
                SEM_DONO@,
            ),
        },
    ];
    if proto == Proto::Tcp {
        head.push(SectionV { title: "Conexões"@, fields: client_lines(sockets_of(ss), port) })
    } else {
        head
    }
}

/// The port that a row's key names.
pub open spec fn key_in(key: Seq<char>) -> Option<(Seq<char>, u16)> {
    match cut_once(key, Cut::At(' ')) {
        None => None,
        Some((proto, port)) => match within(natural(port), u16::MAX as nat) {
            Some(p) => Some((proto, p as u16)),
            None => None,
        },
    }
}

/// Reads the port that a row's key names: one of another protocol is none of these.
pub fn read_key(key: &str) -> (r: Option<(Proto, u16)>)
    ensures
        r == (match key_in(key@) {
            Some((proto, port)) => if proto == "TCP"@ {
                Some((Proto::Tcp, port))
            } else if proto == "UDP"@ {
                Some((Proto::Udp, port))
            } else {
                None
            },
            None => None,
        }),
{
    match split_once(key, ' ') {
        None => None,
        Some((proto, port)) => match parse_upto(port.as_str(), 65535) {
            Some(p) => if same(proto.as_str(), "TCP") {
                Some((Proto::Tcp, p as u16))
            } else if same(proto.as_str(), "UDP") {
                Some((Proto::Udp, p as u16))
            } else {
                None
            },
            None => None,
        },
    }
}

/// What killing the owner of a port would do: it is the process that dies, and the port stops
/// answering.
pub fn danger(ps: &Vec<Proc>, row: &TableRow) -> (r: Option<Danger>)
    ensures
        r is Some == (place_of(ps@, row.pid) is Some),
        r is Some ==> r->0.action@ == "matar quem escuta"@ && views(r->0.lines@)
            == crate::monitor::owner::danger_lines(
            seq![
                "A porta "@ + row.key@
                    + " deixa de responder na hora, e qualquer cliente ligado a ela cai junto."@,
            ],
            ps@[place_of(ps@, row.pid)->0].command@,
            crate::monitor::owner::victims(ps@, row.descendant_pids@),
        ) && r->0.title@ == "Matar o processo que escuta esta porta"@ + ": "@ + ps@[place_of(
            ps@,
            row.pid,
        )->0].name@ + " (pid "@ + decimal(row.pid as nat) + ")?"@,
{
    let mut extra: Vec<String> = Vec::new();
    extra.push(
        cat3(
            "A porta ",
            row.key.as_str(),
            " deixa de responder na hora, e qualquer cliente ligado a ela cai junto.",
        ),
    );
    assert(views(extra@) =~= seq![
        "A porta "@ + row.key@
            + " deixa de responder na hora, e qualquer cliente ligado a ela cai junto."@,
    ]);
    kill_danger(
        ps,
        row,
        "matar quem escuta",
        "Matar o processo que escuta esta porta",
        extra,
    )
}

/// The owner of a socket is the first process that is said to hold it; one that nobody holds has
/// none.
pub proof fn lemma_owner_of(v: Seq<(u64, u32)>, inode: u64)
    ensures
        (exists|k: int|
            0 <= k < v.len() && (#[trigger] v[k]).0 == inode && v[k].1 == owner_of(v, inode)
                && forall|j: int| 0 <= j < k ==> (#[trigger] v[j]).0 != inode) || (owner_of(v, inode)
            == 0 && forall|j: int| 0 <= j < v.len() ==> (#[trigger] v[j]).0 != inode),
    decreases v.len(),
{
    if v.len() > 0 && v[0].0 != inode {
        let t = v.skip(1);
        lemma_owner_of(t, inode);
        if exists|k: int|
            0 <= k < t.len() && (#[trigger] t[k]).0 == inode && t[k].1 == owner_of(t, inode)
                && forall|j: int| 0 <= j < k ==> (#[trigger] t[j]).0 != inode {
            let k = choose|k: int|
                0 <= k < t.len() && (#[trigger] t[k]).0 == inode && t[k].1 == owner_of(t, inode)
                    && forall|j: int| 0 <= j < k ==> (#[trigger] t[j]).0 != inode;
            assert(v[k + 1] == t[k]);
            assert forall|j: int| 0 <= j < k + 1 implies (#[trigger] v[j]).0 != inode by {
                if j > 0 {
                    assert(t[j - 1] == v[j]);
                }
            }
        } else {
            assert forall|j: int| 0 <= j < v.len() implies (#[trigger] v[j]).0 != inode by {
                if j > 0 {
                    assert(t[j - 1] == v[j]);
                }
            }
        }
    } else if v.len() > 0 {
        assert(v[0].0 == inode);
    }
}

/// The port of every socket that listens is shown.
pub proof fn lemma_listening_has(ss: Seq<SocketRow<Seq<char>>>, k: int)
    requires
        0 <= k < ss.len(),
        ss[k].listens(),
    ensures
        has_port(listening(ss), ss[k].proto, ss[k].local_port),
    decreases ss.len(),
{
    let w = ss.drop_last();
    let v = listening(w);
    let r = listening(ss);
    let s = ss[k];
    if k < w.len() {
        assert(w[k] == s);
        lemma_listening_has(w, k);
    }
    if has_port(v, s.proto, s.local_port) {
        let i = choose|i: int|
            0 <= i < v.len() && (#[trigger] v[i]).proto == s.proto && v[i].port == s.local_port;
        assert(r[i] == v[i]);
    } else {
        assert(s == ss.last());
        assert(r[r.len() - 1].port == s.local_port);
    }
}

/// A port that is shown is that of a socket that listens, with the inode of the first on it.
pub proof fn lemma_listening_from(ss: Seq<SocketRow<Seq<char>>>, i: int) -> (k: int)
    requires
        0 <= i < listening(ss).len(),
    ensures
        0 <= k < ss.len(),
        ss[k].listens(),
        ss[k].proto == listening(ss)[i].proto,
        ss[k].local_port == listening(ss)[i].port,
        ss[k].inode == listening(ss)[i].inode,
        forall|j: int|
            0 <= j < k ==> bound_to(
                #[trigger] ss[j],
                listening(ss)[i].proto,
                listening(ss)[i].port,
            ) is None,
    decreases ss.len(),
{
    let w = ss.drop_last();
    let v = listening(w);
    let l = listening(ss)[i];
    if i < v.len() {
        assert(l == v[i]);
        let k = lemma_listening_from(w, i);
        assert(w[k] == ss[k]);
        assert forall|j: int| 0 <= j < k implies bound_to(
            #[trigger] ss[j],
            l.proto,
            l.port,
        ) is None by {
            assert(w[j] == ss[j]);
        }
        k
    } else {
        let k = ss.len() - 1;
        assert forall|j: int| 0 <= j < k implies bound_to(
            #[trigger] ss[j],
            l.proto,
            l.port,
        ) is None by {
            assert(w[j] == ss[j]);
            if bound_to(ss[j], l.proto, l.port) is Some {
                lemma_listening_has(w, j);
            }
        }
        k
    }
}

/// How long the owner of a port has run, where it is known.
pub open spec fn owner_age(l: Listening, ps: Seq<Proc>, owners: Seq<(u64, u32)>) -> Option<u64> {
    match place_of(ps, owner_of(owners, l.inode)) {
        Some(i) => Some(ps[i].run_time),
        None => None,
    }
}

/// Ports stand by the age of their owners, the youngest first; one whose owner is not known comes
/// after all of an age that a process has; then they go by number, and TCP comes before UDP.
pub proof fn lemma_ranked_ports(
    ss: Seq<SocketRow<Seq<char>>>,
    ps: Seq<Proc>,
    owners: Seq<(u64, u32)>,
    i: int,
    j: int,
)
    requires
        listening(ss).len() <= usize::MAX,
        0 <= i < j < ranked_ports(ss, ps, owners).len(),
    ensures
        ({
            let a = ranked_ports(ss, ps, owners)[i];
            let b = ranked_ports(ss, ps, owners)[j];
            let x = owner_age(a, ps, owners);
            let y = owner_age(b, ps, owners);
            &&& x is Some && y is Some ==> x->0 <= y->0
            &&& x is None && y is Some ==> y->0 == u64::MAX
            &&& x == y ==> a.port <= b.port
            &&& x == y && a.port == b.port ==> !(a.proto == Proto::Udp && b.proto == Proto::Tcp)
        }),
        forall|l: Listening|
            listening(ss).contains(l) <==> #[trigger] ranked_ports(ss, ps, owners).contains(l),
{
    let v = listening(ss);
    let keys = Seq::new(v.len(), |k: int| port_key_number(v[k], ps, owners));
    let o = lemma_sorted_from(v, keys);
    lemma_sorted_members(v, keys);
    assert(keys[o[i]] <= keys[o[j]]);
    assert(ranked_ports(ss, ps, owners)[i] == v[o[i]]);
    assert(ranked_ports(ss, ps, owners)[j] == v[o[j]]);
}

/// How many members of a list are one text.
pub open spec fn times(v: Seq<Seq<char>>, t: Seq<char>) -> nat
    decreases v.len(),
{
    if v.len() == 0 {
        0
    } else {
        times(v.drop_last(), t) + (if v.last() == t {
            1nat
        } else {
            0nat
        })
    }
}

proof fn lemma_times_bound(v: Seq<Seq<char>>, t: Seq<char>)
    ensures
        times(v, t) <= v.len(),
    decreases v.len(),
{
    if v.len() > 0 {
        lemma_times_bound(v.drop_last(), t);
    }
}

/// Each client is counted as often as it is there, and stands once.
pub proof fn lemma_counted(v: Seq<Seq<char>>, t: Seq<char>)
    requires
        v.len() <= u64::MAX,
    ensures
        crate::dict::once(counted(v)),
        (match crate::dict::under(counted(v), t) {
            Some(n) => n == times(v, t) && n > 0,
            None => times(v, t) == 0,
        }),
    decreases v.len(),
{
    if v.len() > 0 {
        let w = v.drop_last();
        let c = counted(w);
        lemma_counted(w, t);
        lemma_counted(w, v.last());
        lemma_times_bound(w, v.last());
        let n: int = match crate::dict::under(c, v.last()) {
            Some(x) => x as int,
            None => 0,
        };
        crate::dict::lemma_put(c, v.last(), (n + 1) as u64, t);
    }
}

/// Clients stand by how many connections they have, the most first; those with as many by their
/// addresses.
pub proof fn lemma_ranked(c: Seq<(Seq<char>, u64)>, i: int, j: int)
    requires
        c.len() <= usize::MAX,
        0 <= i < j < ranked(c).len(),
    ensures
        ranked(c).len() == c.len(),
        forall|x: (Seq<char>, u64)| c.contains(x) <==> #[trigger] ranked(c).contains(x),
        ranked(c)[i].1 >= ranked(c)[j].1,
        ranked(c)[i].1 == ranked(c)[j].1 ==> !text_before(ranked(c)[j].0, ranked(c)[i].0),
{
    let ts = Seq::new(c.len(), |k: int| c[k].0);
    let a = lemma_sorted_from(c, ranks(ts));
    lemma_sorted_members(c, ranks(ts));
    let b = sorted_by(c, ranks(ts));
    let keys = Seq::new(b.len(), |k: int| (-b[k].1) as i128);
    let o = lemma_sorted_from(b, keys);
    lemma_sorted_members(b, keys);
    let r = ranked(c);
    assert(r == sorted_by(b, keys));
    assert forall|x: (Seq<char>, u64)| c.contains(x) <==> #[trigger] r.contains(x) by {
        assert(c.contains(x) <==> b.contains(x));
    }
    assert(r[i] == b[o[i]] && r[j] == b[o[j]]);
    assert(keys[o[i]] <= keys[o[j]]);
    if r[i].1 == r[j].1 {
        assert(o[i] < o[j]);
        lemma_ranks(ts, a[o[j]], a[o[i]]);
        assert(ranks(ts)[a[o[i]]] <= ranks(ts)[a[o[j]]]);
        assert(b[o[i]] == c[a[o[i]]] && b[o[j]] == c[a[o[j]]]);
    }
}

/// What waits on some sockets is what waits on each of them, added up.
pub proof fn lemma_waiting(a: Seq<SocketRow<Seq<char>>>, b: Seq<SocketRow<Seq<char>>>)
    ensures
        waiting(a + b) == waiting(a) + waiting(b),
        b.len() == 1 ==> waiting(b) == b[0].rx_queue,
    decreases b.len(),
{
    reveal_with_fuel(waiting, 2);
    if b.len() == 0 {
        assert(a + b =~= a);
    } else {
        assert((a + b).drop_last() =~= a + b.drop_last());
        assert((a + b).last() == b.last());
        lemma_waiting(a, b.drop_last());
        if b.len() == 1 {
            assert(b.drop_last().len() == 0);
        }
    }
}

/// The name of an open socket gives back the inode that it was written with.
pub proof fn lemma_socket_in(n: u64)
    ensures
        socket_in("socket:["@ + decimal(n as nat) + "]"@) == Some(n as nat),
{
    let a = "socket:["@;
    let d = decimal(n as nat);
    let s = a + d + "]"@;
    lemma_decimal_reads_back(n as nat);
    assert(s.subrange(0, a.len() as int) =~= a);
    let t = s.skip(a.len() as int);
    assert(t =~= d + "]"@);
    assert(t.subrange(d.len() as int, t.len() as int) =~= "]"@);
    assert(t.take(d.len() as int) =~= d);
}

/// An end of a connection: the address, in brackets where it has colons of its own, and behind it
/// the port.
pub proof fn lemma_endpoint_text(ip: Seq<char>, port: u16)
    ensures
        finishes(endpoint_text(ip, port), seq![':'] + decimal(port as nat)),
        ip.contains(':') ==> begins(endpoint_text(ip, port), seq!['['] + ip + seq![']']),
        !ip.contains(':') ==> begins(endpoint_text(ip, port), ip),
        endpoint_text(ip, port).len() == ip.len() + decimal(port as nat).len() + (if ip.contains(
            ':',
        ) {
            3int
        } else {
            1
        }),
{
    reveal_strlit("[");
    reveal_strlit("]:");
    reveal_strlit(":");
    let d = decimal(port as nat);
    let e = endpoint_text(ip, port);
    let tail = seq![':'] + d;
    if ip.contains(':') {
        assert(e =~= seq!['['] + ip + seq![']'] + tail);
        let head = seq!['['] + ip + seq![']'];
        assert(e.subrange(0, head.len() as int) =~= head);
    } else {
        assert(e =~= ip + tail);
        assert(e.subrange(0, ip.len() as int) =~= ip);
    }
    assert(e.subrange(e.len() - tail.len(), e.len() as int) =~= tail);
}

/// How far a port can be reached from: an address that is bound on every interface opens it to the
/// network, whatever the others are; where all are of the loopback nothing from outside gets in.
pub proof fn lemma_reach_text(b: Seq<SocketRow<Seq<char>>>, k: int)
    requires
        0 <= k < b.len(),
    ensures
        b[k].local_ip == "0.0.0.0"@ || b[k].local_ip == "::"@ ==> reach_text(b)
            == "qualquer endereço desta máquina — alcançável pela rede"@,
        (forall|i: int|
            0 <= i < b.len() ==> (#[trigger] b[i]).local_ip == "127.0.0.1"@ || b[i].local_ip
                == "::1"@) ==> reach_text(b)
            == "só o loopback — nada de fora desta máquina chega aqui"@,
{
    if b[k].local_ip == "0.0.0.0"@ || b[k].local_ip == "::"@ {
        assert(is_wildcard(b[k].local_ip));
    }
    reveal_strlit("0.0.0.0");
    reveal_strlit("::");
    reveal_strlit("::1");
    reveal_strlit("127.0.0.1");
    reveal_strlit("127.");
    assert("0.0.0.0"@.len() == 7 && "::"@.len() == 2 && "::1"@.len() == 3 && "127.0.0.1"@.len()
        == 9);
    assert("127.0.0.1"@.subrange(0, 4) =~= "127."@);
    if forall|i: int|
        0 <= i < b.len() ==> (#[trigger] b[i]).local_ip == "127.0.0.1"@ || b[i].local_ip
            == "::1"@ {
        assert forall|i: int| 0 <= i < b.len() implies is_loopback((#[trigger] b[i]).local_ip)
            && !is_wildcard(b[i].local_ip) by {}
    }
}

} // verus!
