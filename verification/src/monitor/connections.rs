//! Open connections: reading the kernel's socket dump, following each connection from one
//! dump to the next, and saying all that is known about one.

use vstd::prelude::*;
use vstd::slice::slice_subrange;
use crate::bytes::{
    bytes16, bytes32, lemma_reads_back, number, number_at, push16, push32, u16_at, u32_at, u64_at,
    u8_at, Endian,
};
use crate::dict::{find_pair, pairs, put, put_pair, under};
use crate::number::{
    dec, decimal, human, human_bytes, human_bytes_per_sec, human_rate, micros, micros_text,
};
use crate::order::{
    goes_before, is_order, lemma_order_distinct, lemma_order_exists, lemma_sorted, sorted_by,
    stable_order,
};
use crate::text::{cat2, cat3, cat4, cat5, cat6, maybe, same, views};
use crate::monitor::{
    is_leaf, offers_of, sections_of, with_field, with_some, Detail, DetailSection, Handoff,
    HandoffV, Rates, SectionV, TableRow,
};
use crate::monitor::ip::{
    ipv4, ipv4_says, ipv4_text, ipv6, ipv6_says, ipv6_text, lemma_ipv4_reads_back,
    lemma_ipv6_reads_back, segments_of, to_segments,
};
use crate::monitor::owner::{
    at, describe_owner, find_proc, lemma_place_of, owner_cells, place_of, Extra, Proc,
};
use crate::monitor::ports::{
    capped, endpoint, endpoint_text, owner_of, pid_of, set_cell, with_cell, Proto, SEM_DONO,
    TCP_LISTEN, UDP_UNCONN,
};
use crate::monitor::resolve::{entries_of, owner_label, owner_text, service_of, Lookup, Services};

verus! {

/// The headers of the table.
pub const HEADERS: [&'static str; 6] = ["Proto", "Process", "Connection", "Age", "Traffic", "Rate"];

pub const AF_INET: u8 = 2;

pub const AF_INET6: u8 = 10;

/// A request for a dump: the flags for a request, the root and a match.
pub const NLM_F_DUMP_REQUEST: u16 = 0x301;

pub const NLMSG_ERROR: u16 = 2;

pub const NLMSG_DONE: u16 = 3;

pub const SOCK_DIAG_BY_FAMILY: u16 = 20;

pub const IPPROTO_TCP: u8 = 6;

pub const IPPROTO_UDP: u8 = 17;

/// The states of a connection that is open: established, being opened from either side, or
/// closed by the other side alone. As bits.
pub const TCP_OPEN_STATES: u32 = 0x10e;

/// The state of a connected UDP socket, as a bit.
pub const UDP_OPEN_STATES: u32 = 0x2;

/// The attribute that carries the counters of a TCP connection, and the bit that asks for it.
pub const INET_DIAG_INFO: u16 = 2;

pub const INET_DIAG_REQ_EXT_INFO: u8 = 2;

/// How many bytes a request has.
pub const REQUEST_LEN: u32 = 72;

/// How many bytes of a message come before its body.
pub const HEADER_LEN: usize = 16;

/// How many bytes of a message's body come before its attributes.
pub const BODY_LEN: usize = 72;

// --- the request -----------------------------------------------------------------------------------------

/// So many bytes of one value.
pub open spec fn repeated(b: u8, n: nat) -> Seq<u8> {
    Seq::new(n, |i: int| b)
}

/// A request for every socket of a protocol and a family in one of some states.
pub open spec fn request(family: u8, protocol: u8, states: u32, e: Endian) -> Seq<u8> {
    bytes32(REQUEST_LEN, e) + bytes16(SOCK_DIAG_BY_FAMILY, e) + bytes16(NLM_F_DUMP_REQUEST, e)
        + repeated(0, 8) + seq![family, protocol, INET_DIAG_REQ_EXT_INFO, 0] + bytes32(states, e)
        + repeated(0, 40) + repeated(0xff, 8)
}

fn push_repeated(v: &mut Vec<u8>, b: u8, n: usize)
    ensures
        final(v)@ == old(v)@ + repeated(b, n as nat),
{
    let ghost before = v@;
    for i in 0..n
        invariant
            v@ =~= before + repeated(b, i as nat),
    {
        v.push(b);
    }
}

/// Builds a request for every socket of a protocol and a family in one of some states. The
/// kernel reads numbers as the machine lays them out.
pub fn build_request(family: u8, protocol: u8, states: u32, e: Endian) -> (r: Vec<u8>)
    ensures
        r@ == request(family, protocol, states, e),
        r@.len() == REQUEST_LEN,
{
    let mut v: Vec<u8> = Vec::new();
    push32(&mut v, REQUEST_LEN, e);
    push16(&mut v, SOCK_DIAG_BY_FAMILY, e);
    push16(&mut v, NLM_F_DUMP_REQUEST, e);
    push_repeated(&mut v, 0, 8);
    let ghost a = v@;
    v.push(family);
    v.push(protocol);
    v.push(INET_DIAG_REQ_EXT_INFO);
    v.push(0);
    assert(v@ =~= a + seq![family, protocol, INET_DIAG_REQ_EXT_INFO, 0]);
    push32(&mut v, states, e);
    push_repeated(&mut v, 0, 40);
    push_repeated(&mut v, 0xff, 8);
    assert(v@ =~= request(family, protocol, states, e));
    v
}

// --- the answer ------------------------------------------------------------------------------------------

/// The next multiple of four.
pub open spec fn aligned(n: int) -> int {
    (n + 3) / 4 * 4
}

/// What is kept of the counters of a TCP connection. A field that the kernel does not give is
/// zero.
#[derive(Clone, Copy, PartialEq, Eq, Debug, Structural)]
pub struct TcpInfo {
    pub retransmits: u8,
    pub probes: u8,
    pub rto: u32,
    pub ato: u32,
    pub snd_mss: u32,
    pub rcv_mss: u32,
    pub advmss: u32,
    pub lost: u32,
    pub retrans: u32,
    pub total_retrans: u32,
    pub last_data_sent: u32,
    pub last_data_recv: u32,
    pub pmtu: u32,
    pub rtt: u32,
    pub rttvar: u32,
    pub min_rtt: u32,
    pub snd_cwnd: u32,
    pub notsent_bytes: u32,
    pub pacing_rate: u64,
    pub delivery_rate: u64,
    pub bytes_acked: u64,
    pub bytes_received: u64,
    pub segs_out: u32,
    pub segs_in: u32,
    pub data_segs_in: u32,
    pub data_segs_out: u32,
}

/// The byte at a place, 0 past the end.
pub open spec fn byte_at(s: Seq<u8>, at: int) -> u8 {
    if at < s.len() {
        s[at]
    } else {
        0
    }
}

/// The number of four bytes at a place.
pub open spec fn n32(s: Seq<u8>, at: int, e: Endian) -> u32 {
    number_at(s, at, 4, e) as u32
}

/// The number of eight bytes at a place.
pub open spec fn n64(s: Seq<u8>, at: int, e: Endian) -> u64 {
    number_at(s, at, 8, e) as u64
}

/// The counters that a payload holds, each at its place in the kernel's structure.
pub open spec fn tcp_info_in(s: Seq<u8>, e: Endian) -> TcpInfo {
    TcpInfo {
        retransmits: byte_at(s, 2),
        probes: byte_at(s, 3),
        rto: n32(s, 8, e),
        ato: n32(s, 12, e),
        snd_mss: n32(s, 16, e),
        rcv_mss: n32(s, 20, e),
        lost: n32(s, 32, e),
        retrans: n32(s, 36, e),
        last_data_sent: n32(s, 44, e),
        last_data_recv: n32(s, 52, e),
        pmtu: n32(s, 60, e),
        rtt: n32(s, 68, e),
        rttvar: n32(s, 72, e),
        snd_cwnd: n32(s, 80, e),
        advmss: n32(s, 84, e),
        total_retrans: n32(s, 100, e),
        pacing_rate: n64(s, 104, e),
        bytes_acked: n64(s, 120, e),
        bytes_received: n64(s, 128, e),
        segs_out: n32(s, 136, e),
        segs_in: n32(s, 140, e),
        notsent_bytes: n32(s, 144, e),
        min_rtt: n32(s, 148, e),
        data_segs_in: n32(s, 152, e),
        data_segs_out: n32(s, 156, e),
        delivery_rate: n64(s, 160, e),
    }
}

/// Reads the counters of a payload.
pub fn parse_tcp_info(s: &[u8], e: Endian) -> (r: TcpInfo)
    ensures
        r == tcp_info_in(s@, e),
{
    TcpInfo {
        retransmits: u8_at(s, 2),
        probes: u8_at(s, 3),
        rto: u32_at(s, 8, e),
        ato: u32_at(s, 12, e),
        snd_mss: u32_at(s, 16, e),
        rcv_mss: u32_at(s, 20, e),
        lost: u32_at(s, 32, e),
        retrans: u32_at(s, 36, e),
        last_data_sent: u32_at(s, 44, e),
        last_data_recv: u32_at(s, 52, e),
        pmtu: u32_at(s, 60, e),
        rtt: u32_at(s, 68, e),
        rttvar: u32_at(s, 72, e),
        snd_cwnd: u32_at(s, 80, e),
        advmss: u32_at(s, 84, e),
        total_retrans: u32_at(s, 100, e),
        pacing_rate: u64_at(s, 104, e),
        bytes_acked: u64_at(s, 120, e),
        bytes_received: u64_at(s, 128, e),
        segs_out: u32_at(s, 136, e),
        segs_in: u32_at(s, 140, e),
        notsent_bytes: u32_at(s, 144, e),
        min_rtt: u32_at(s, 148, e),
        data_segs_in: u32_at(s, 152, e),
        data_segs_out: u32_at(s, 156, e),
        delivery_rate: u64_at(s, 160, e),
    }
}

/// No counters at all.
pub open spec fn no_info() -> TcpInfo {
    tcp_info_in(Seq::empty(), Endian::Little)
}

/// A connection as the kernel dumps it.
#[derive(Debug)]
pub struct RawConn<T> {
    pub protocol: u8,
    pub family: u8,
    pub state: u8,
    pub timer: u8,
    pub expires_ms: u32,
    pub local_ip: T,
    pub local_port: u16,
    pub remote_ip: T,
    pub remote_port: u16,
    /// The bytes that wait to be read, and to be sent.
    pub rqueue: u32,
    pub wqueue: u32,
    pub uid: u32,
    pub inode: u32,
    pub info: TcpInfo,
}

impl View for RawConn<String> {
    type V = RawConn<Seq<char>>;

    open spec fn view(&self) -> RawConn<Seq<char>> {
        RawConn {
            protocol: self.protocol,
            family: self.family,
            state: self.state,
            timer: self.timer,
            expires_ms: self.expires_ms,
            local_ip: self.local_ip@,
            local_port: self.local_port,
            remote_ip: self.remote_ip@,
            remote_port: self.remote_port,
            rqueue: self.rqueue,
            wqueue: self.wqueue,
            uid: self.uid,
            inode: self.inode,
            info: self.info,
        }
    }
}

/// Connections, in contracts.
pub open spec fn conns_of(v: Seq<RawConn<String>>) -> Seq<RawConn<Seq<char>>> {
    Seq::new(v.len(), |i: int| v[i]@)
}

/// An address of a family out of its bytes, in the order they come.
pub open spec fn ip_in(family: u8, raw: Seq<u8>) -> Seq<char> {
    if family == AF_INET {
        ipv4_text(raw.take(4))
    } else {
        ipv6_text(segments_of(raw))
    }
}

/// Writes an address of a family.
pub fn format_ip(family: u8, raw: &[u8]) -> (r: String)
    requires
        raw@.len() == 16,
    ensures
        r@ == ip_in(family, raw@),
{
    if family == AF_INET {
        assert(raw@.take(4) =~= seq![raw@[0], raw@[1], raw@[2], raw@[3]]);
        ipv4(raw[0], raw[1], raw[2], raw[3])
    } else {
        let s = to_segments(raw);
        ipv6(s.as_slice())
    }
}

/// An address is written from its bytes in the order of the network: what is written reads back as
/// the first four bytes where the family is the old one, and otherwise as eight segments of two
/// bytes each, the more significant byte first.
pub proof fn lemma_format_ip(family: u8, raw: Seq<u8>)
    requires
        raw.len() == 16,
    ensures
        family == 2 ==> ipv4_says(ip_in(family, raw), seq![raw[0], raw[1], raw[2], raw[3]]),
        family != 2 ==> ipv6_says(
            ip_in(family, raw),
            Seq::new(8, |k: int| (raw[2 * k] * 256 + raw[2 * k + 1]) as u16),
        ),
{
    if family == 2 {
        assert(raw.take(4) =~= seq![raw[0], raw[1], raw[2], raw[3]]);
        lemma_ipv4_reads_back(raw.take(4));
    } else {
        let s = Seq::new(8, |k: int| (raw[2 * k] * 256 + raw[2 * k + 1]) as u16);
        assert(segments_of(raw) =~= s);
        lemma_ipv6_reads_back(s);
    }
}

/// The counters that the attributes of a message give, from a place on: the last that are
/// given.
pub open spec fn info_from(msg: Seq<u8>, at: int, known: TcpInfo, e: Endian) -> TcpInfo
    decreases msg.len() + 4 - at,
{
    if at < 0 || at + 4 > msg.len() {
        known
    } else {
        let len = number_at(msg, at, 2, e) as int;
        if len < 4 || at + len > msg.len() {
            known
        } else {
            info_from(
                msg,
                at + aligned(len),
                if number_at(msg, at + 2, 2, e) == INET_DIAG_INFO {
                    tcp_info_in(msg.subrange(at + 4, at + len), e)
                } else {
                    known
                },
                e,
            )
        }
    }
}

/// The connection that the body of a message describes.
#[verifier::opaque]
pub open spec fn conn_in(msg: Seq<u8>, protocol: u8, e: Endian) -> RawConn<Seq<char>> {
    RawConn {
        protocol,
        family: msg[0],
        state: msg[1],
        timer: msg[2],
        expires_ms: n32(msg, 52, e),
        local_ip: ip_in(msg[0], msg.subrange(8, 24)),
        local_port: number_at(msg, 4, 2, Endian::Big) as u16,
        remote_ip: ip_in(msg[0], msg.subrange(24, 40)),
        remote_port: number_at(msg, 6, 2, Endian::Big) as u16,
        rqueue: n32(msg, 56, e),
        wqueue: n32(msg, 60, e),
        uid: n32(msg, 64, e),
        inode: n32(msg, 68, e),
        info: info_from(msg, BODY_LEN as int, no_info(), e),
    }
}

/// The body of a message as the kernel lays it out, field after field.
pub open spec fn laid_out(
    family: u8,
    state: u8,
    timer: u8,
    retrans: u8,
    ports: (u16, u16),
    ends: (Seq<u8>, Seq<u8>),
    interface: u32,
    cookie: (u32, u32),
    expires: u32,
    queues: (u32, u32),
    uid: u32,
    inode: u32,
    e: Endian,
) -> Seq<u8> {
    seq![family, state, timer, retrans] + bytes16(ports.0, Endian::Big) + bytes16(
        ports.1,
        Endian::Big,
    ) + ends.0 + ends.1 + bytes32(interface, e) + bytes32(cookie.0, e) + bytes32(cookie.1, e)
        + bytes32(expires, e) + bytes32(queues.0, e) + bytes32(queues.1, e) + bytes32(uid, e)
        + bytes32(inode, e)
}

/// A number that was laid out at a place is the one that is read there.
proof fn lemma_laid_at(m: Seq<u8>, at: int, n: u32, e: Endian)
    requires
        0 <= at,
        at + 4 <= m.len(),
        m.subrange(at, at + 4) == bytes32(n, e),
    ensures
        n32(m, at, e) == n,
{
    lemma_reads_back(n, 0, e);
}

/// What the kernel laid out in a message is what is read of it: the ports, which come in the order
/// of the network, the two ends, the near one first, and the numbers, each in its place. Without
/// attributes there are no counters.
pub proof fn lemma_message_reads_back(
    family: u8,
    state: u8,
    timer: u8,
    retrans: u8,
    ports: (u16, u16),
    ends: (Seq<u8>, Seq<u8>),
    interface: u32,
    cookie: (u32, u32),
    expires: u32,
    queues: (u32, u32),
    uid: u32,
    inode: u32,
    protocol: u8,
    e: Endian,
)
    requires
        ends.0.len() == 16,
        ends.1.len() == 16,
    ensures
        ({
            let m = laid_out(
                family,
                state,
                timer,
                retrans,
                ports,
                ends,
                interface,
                cookie,
                expires,
                queues,
                uid,
                inode,
                e,
            );
            let c = conn_in(m, protocol, e);
            &&& m.len() == BODY_LEN
            &&& c.protocol == protocol && c.family == family && c.state == state && c.timer == timer
            &&& c.local_port == ports.0 && c.remote_port == ports.1
            &&& c.local_ip == ip_in(family, ends.0) && c.remote_ip == ip_in(family, ends.1)
            &&& c.expires_ms == expires && c.rqueue == queues.0 && c.wqueue == queues.1
            &&& c.uid == uid && c.inode == inode
            &&& c.info.bytes_acked == 0 && c.info.bytes_received == 0 && c.info.rtt == 0
        }),
{
    reveal(conn_in);
    let m = laid_out(
        family,
        state,
        timer,
        retrans,
        ports,
        ends,
        interface,
        cookie,
        expires,
        queues,
        uid,
        inode,
        e,
    );
    assert(m.subrange(4, 6) =~= bytes16(ports.0, Endian::Big));
    assert(m.subrange(6, 8) =~= bytes16(ports.1, Endian::Big));
    assert(m.subrange(8, 24) =~= ends.0);
    assert(m.subrange(24, 40) =~= ends.1);
    assert(m.subrange(52, 56) =~= bytes32(expires, e));
    assert(m.subrange(56, 60) =~= bytes32(queues.0, e));
    assert(m.subrange(60, 64) =~= bytes32(queues.1, e));
    assert(m.subrange(64, 68) =~= bytes32(uid, e));
    assert(m.subrange(68, 72) =~= bytes32(inode, e));
    lemma_reads_back(0, ports.0, Endian::Big);
    lemma_reads_back(0, ports.1, Endian::Big);
    lemma_laid_at(m, 52, expires, e);
    lemma_laid_at(m, 56, queues.0, e);
    lemma_laid_at(m, 60, queues.1, e);
    lemma_laid_at(m, 64, uid, e);
    lemma_laid_at(m, 68, inode, e);
}

/// The connections of a dump from a place on, and whether it ended there.
#[verifier::opaque]
pub open spec fn dump_from(data: Seq<u8>, at: int, protocol: u8, e: Endian) -> (
    Seq<RawConn<Seq<char>>>,
    bool,
)
    decreases data.len() + 4 - at,
{
    if at < 0 || at + HEADER_LEN > data.len() {
        (Seq::empty(), false)
    } else {
        let len = number_at(data, at, 4, e) as int;
        let kind = number_at(data, at + 4, 2, e);
        if len < HEADER_LEN || at + len > data.len() {
            (Seq::empty(), false)
        } else if kind == NLMSG_DONE || kind == NLMSG_ERROR {
            (Seq::empty(), true)
        } else {
            let rest = dump_from(data, at + aligned(len), protocol, e);
            if kind == SOCK_DIAG_BY_FAMILY && len >= HEADER_LEN + BODY_LEN {
                (
                    seq![conn_in(data.subrange(at + HEADER_LEN, at + len), protocol, e)] + rest.0,
                    rest.1,
                )
            } else {
                rest
            }
        }
    }
}

/// There is no whole message at a place of a dump.
pub open spec fn dump_stops(data: Seq<u8>, at: int, e: Endian) -> bool {
    at + HEADER_LEN > data.len() || number_at(data, at, 4, e) < HEADER_LEN || at + number_at(
        data,
        at,
        4,
        e,
    ) > data.len()
}

/// The message at a place ends a dump.
pub open spec fn dump_ends(data: Seq<u8>, at: int, e: Endian) -> bool {
    number_at(data, at + 4, 2, e) == NLMSG_DONE || number_at(data, at + 4, 2, e) == NLMSG_ERROR
}

/// What one message more makes of a dump.
proof fn lemma_dump_step(data: Seq<u8>, at: int, protocol: u8, e: Endian)
    requires
        0 <= at,
    ensures
        dump_stops(data, at, e) ==> dump_from(data, at, protocol, e) == (
            Seq::<RawConn<Seq<char>>>::empty(),
            false,
        ),
        !dump_stops(data, at, e) && dump_ends(data, at, e) ==> dump_from(data, at, protocol, e) == (
            Seq::<RawConn<Seq<char>>>::empty(),
            true,
        ),
        !dump_stops(data, at, e) && !dump_ends(data, at, e) ==> dump_from(data, at, protocol, e) == ({
            let len = number_at(data, at, 4, e) as int;
            let rest = dump_from(data, at + aligned(len), protocol, e);
            if number_at(data, at + 4, 2, e) == SOCK_DIAG_BY_FAMILY && len >= HEADER_LEN + BODY_LEN {
                (
                    seq![conn_in(data.subrange(at + HEADER_LEN, at + len), protocol, e)] + rest.0,
                    rest.1,
                )
            } else {
                rest
            }
        }),
{
    reveal(dump_from);
}

/// Reads the counters that the attributes of a message give.
fn read_info(msg: &[u8], e: Endian) -> (r: TcpInfo)
    requires
        msg@.len() >= BODY_LEN,
    ensures
        r == info_from(msg@, BODY_LEN as int, no_info(), e),
{
    let empty: Vec<u8> = Vec::new();
    let mut known = parse_tcp_info(empty.as_slice(), Endian::Little);
    assert(empty@ =~= Seq::empty());
    let n: usize = msg.len();
    let mut at: usize = BODY_LEN;
    loop
        invariant
            n == msg@.len(),
            at <= n,
            info_from(msg@, at as int, known, e) == info_from(
                msg@,
                BODY_LEN as int,
                no_info(),
                e,
            ),
        decreases n - at,
    {
        if n - at < 4 {
            return known;
        }
        let len: usize = u16_at(msg, at, e) as usize;
        let kind: u16 = u16_at(msg, at + 2, e);
        if len < 4 || len > n - at {
            return known;
        }
        if kind == INET_DIAG_INFO {
            let payload = slice_subrange(msg, at + 4, at + len);
            known = parse_tcp_info(payload, e);
        }
        let step: usize = (len + 3) / 4 * 4;
        if step >= n - at {
            proof {
                assert(info_from(msg@, at + step, known, e) == known);
            }
            return known;
        }
        at = at + step;
    }
}

/// Reads the connection that the body of a message describes.
fn read_conn(msg: &[u8], protocol: u8, e: Endian) -> (r: RawConn<String>)
    requires
        msg@.len() >= BODY_LEN,
    ensures
        r@ == conn_in(msg@, protocol, e),
{
    proof {
        reveal(conn_in);
    }
    let family = msg[0];
    let local = slice_subrange(msg, 8, 24);
    let remote = slice_subrange(msg, 24, 40);
    RawConn {
        protocol,
        family,
        state: msg[1],
        timer: msg[2],
        expires_ms: u32_at(msg, 52, e),
        local_ip: format_ip(family, local),
        local_port: u16_at(msg, 4, Endian::Big),
        remote_ip: format_ip(family, remote),
        remote_port: u16_at(msg, 6, Endian::Big),
        rqueue: u32_at(msg, 56, e),
        wqueue: u32_at(msg, 60, e),
        uid: u32_at(msg, 64, e),
        inode: u32_at(msg, 68, e),
        info: read_info(msg, e),
    }
}

/// Reads every whole message of one stretch of a dump. The result says whether the dump is
/// done, or has failed: there is nothing more to wait for.
#[verifier::spinoff_prover]
#[verifier::rlimit(40)]
pub fn parse_dump(data: &[u8], protocol: u8, e: Endian, out: &mut Vec<RawConn<String>>) -> (r: bool)
    ensures
        conns_of(final(out)@) == conns_of(old(out)@) + dump_from(data@, 0, protocol, e).0,
        r == dump_from(data@, 0, protocol, e).1,
{
    let ghost before = conns_of(out@);
    let ghost all = dump_from(data@, 0, protocol, e);
    let n: usize = data.len();
    let mut at: usize = 0;
    loop
        invariant
            n == data@.len(),
            at <= n,
            before == conns_of(old(out)@),
            all == dump_from(data@, 0, protocol, e),
            all.1 == dump_from(data@, at as int, protocol, e).1,
            conns_of(out@) + dump_from(data@, at as int, protocol, e).0 == before + all.0,
        decreases n - at,
    {
        proof {
            lemma_dump_step(data@, at as int, protocol, e);
        }
        if n - at < HEADER_LEN {
            assert(conns_of(out@) =~= before + all.0);
            return false;
        }
        let len: usize = u32_at(data, at, e) as usize;
        if len < HEADER_LEN || len > n - at {
            assert(conns_of(out@) =~= before + all.0);
            return false;
        }
        let kind: u16 = u16_at(data, at + 4, e);
        if kind == NLMSG_DONE || kind == NLMSG_ERROR {
            assert(conns_of(out@) =~= before + all.0);
            return true;
        }
        let ghost rest = dump_from(data@, at + aligned(len as int), protocol, e);
        if kind == SOCK_DIAG_BY_FAMILY && len >= HEADER_LEN + BODY_LEN {
            let msg = slice_subrange(data, at + HEADER_LEN, at + len);
            let c = read_conn(msg, protocol, e);
            let ghost x = c@;
            let ghost so_far = conns_of(out@);
            out.push(c);
            assert(conns_of(out@) =~= so_far.push(x));
            assert(so_far + (seq![x] + rest.0) =~= conns_of(out@) + rest.0);
        }
        let pad: usize = (4 - len % 4) % 4;
        assert(aligned(len as int) == len + pad);
        if pad >= n - at - len {
            proof {
                lemma_dump_step(data@, at + aligned(len as int), protocol, e);
            }
            assert(rest.0.len() == 0 && !rest.1);
            assert(conns_of(out@) =~= before + all.0);
            return false;
        }
        at = at + len + pad;
    }
}

// --- names -----------------------------------------------------------------------------------------------

/// The name of a state.
pub open spec fn state_text(state: u8) -> Seq<char> {
    if state == 1 {
        "ESTABLISHED"@
    } else if state == 2 {
        "SYN_SENT"@
    } else if state == 3 {
        "SYN_RECV"@
    } else if state == 4 {
        "FIN_WAIT1"@
    } else if state == 5 {
        "FIN_WAIT2"@
    } else if state == 6 {
        "TIME_WAIT"@
    } else if state == 7 {
        "CLOSE"@
    } else if state == 8 {
        "CLOSE_WAIT"@
    } else if state == 9 {
        "LAST_ACK"@
    } else if state == 10 {
        "LISTEN"@
    } else if state == 11 {
        "CLOSING"@
    } else {
        "?"@
    }
}

/// The name of a state.
pub fn state_name(state: u8) -> (r: &'static str)
    ensures
        r@ == state_text(state),
{
    match state {
        1 => "ESTABLISHED",
        2 => "SYN_SENT",
        3 => "SYN_RECV",
        4 => "FIN_WAIT1",
        5 => "FIN_WAIT2",
        6 => "TIME_WAIT",
        7 => "CLOSE",
        8 => "CLOSE_WAIT",
        9 => "LAST_ACK",
        10 => "LISTEN",
        11 => "CLOSING",
        _ => "?",
    }
}

/// The name of the timer that runs against a socket, where one does.
pub open spec fn timer_text(timer: u8) -> Option<Seq<char>> {
    if timer == 1 {
        Some("retransmissão"@)
    } else if timer == 2 {
        Some("keepalive"@)
    } else if timer == 3 {
        Some("timewait"@)
    } else if timer == 4 {
        Some("janela zero"@)
    } else {
        None
    }
}

/// The name of the timer that runs against a socket.
pub fn timer_name(timer: u8) -> (r: Option<&'static str>)
    ensures
        (match r {
            Some(s) => timer_text(timer) == Some(s@),
            None => timer_text(timer) is None,
        }),
{
    match timer {
        1 => Some("retransmissão"),
        2 => Some("keepalive"),
        3 => Some("timewait"),
        4 => Some("janela zero"),
        _ => None,
    }
}

/// A count of milliseconds, `long` being how its seconds read.
pub open spec fn since_text(ms: u32, long: Seq<char>) -> Seq<char> {
    if ms < 1_000 {
        decimal(ms as nat) + " ms"@
    } else {
        long
    }
}

/// Writes a count of milliseconds.
pub fn millis_since(ms: u32, long: &str) -> (r: String)
    ensures
        r@ == since_text(ms, long@),
{
    if ms < 1_000 {
        cat2(dec(ms as u64).as_str(), " ms")
    } else {
        long.to_owned()
    }
}

/// The name of a protocol.
pub open spec fn proto_text(protocol: u8) -> Seq<char> {
    if protocol == IPPROTO_TCP {
        "TCP"@
    } else {
        "UDP"@
    }
}

fn proto_name(protocol: u8) -> (r: &'static str)
    ensures
        r@ == proto_text(protocol),
{
    if protocol == IPPROTO_TCP {
        "TCP"
    } else {
        "UDP"
    }
}

impl RawConn<Seq<char>> {
    /// The near end.
    pub open spec fn near(self) -> Seq<char> {
        endpoint_text(self.local_ip, self.local_port)
    }

    /// The far end.
    pub open spec fn far(self) -> Seq<char> {
        endpoint_text(self.remote_ip, self.remote_port)
    }

    /// What tells a connection from others in every dump.
    pub open spec fn key(self) -> Seq<char> {
        decimal(self.protocol as nat) + "|"@ + self.near() + "|"@ + self.far()
    }

    /// The bytes of its whole life, both ways.
    pub open spec fn total(self) -> nat {
        self.info.bytes_acked as nat + self.info.bytes_received as nat
    }
}

/// What tells a connection from others in every dump.
pub fn conn_key(protocol: u8, local: &str, remote: &str) -> (r: String)
    ensures
        r@ == decimal(protocol as nat) + "|"@ + local@ + "|"@ + remote@,
{
    cat5(dec(protocol as u64).as_str(), "|", local, "|", remote)
}

impl RawConn<String> {
    /// The near end.
    pub fn local(&self) -> (r: String)
        ensures
            r@ == self@.near(),
    {
        endpoint(self.local_ip.as_str(), self.local_port)
    }

    /// The far end.
    pub fn remote(&self) -> (r: String)
        ensures
            r@ == self@.far(),
    {
        endpoint(self.remote_ip.as_str(), self.remote_port)
    }

    /// What tells the connection from others.
    pub fn key_of(&self) -> (r: String)
        ensures
            r@ == self@.key(),
    {
        conn_key(self.protocol, self.local().as_str(), self.remote().as_str())
    }

    /// The bytes of its whole life, both ways.
    pub fn total_bytes(&self) -> (r: u128)
        ensures
            r == self@.total(),
    {
        self.info.bytes_acked as u128 + self.info.bytes_received as u128
    }
}

// --- tunnels ---------------------------------------------------------------------------------------------

/// The offer of a tunnel to one end of a connection.
pub open spec fn tunnel(proto: Seq<char>, ip: Seq<char>, port: u16, side: Seq<char>) -> HandoffV {
    let target = endpoint_text(ip, port);
    HandoffV {
        label: "túnel "@ + proto + " para "@ + target + " ("@ + side + ")"@,
        tool: "tunnel"@,
        params: seq![
            ("proto"@, proto),
            ("listen"@, "127.0.0.1:"@ + decimal(port as nat)),
            ("target"@, target),
        ],
    }
}

/// An end that a tunnel can lead to.
pub open spec fn is_end(ip: Seq<char>, port: u16) -> bool {
    port != 0 && ip.len() > 0
}

/// The tunnels that a connection describes: one to each of its ends, as which of them is the
/// server would be a guess. Ends that are the same are one.
pub open spec fn tunnels_of(c: RawConn<Seq<char>>, proto: Seq<char>) -> Seq<HandoffV> {
    let a = if is_end(c.remote_ip, c.remote_port) {
        seq![tunnel(proto, c.remote_ip, c.remote_port, "o outro lado"@)]
    } else {
        Seq::empty()
    };
    if is_end(c.local_ip, c.local_port) && !(is_end(c.remote_ip, c.remote_port) && c.near()
        == c.far()) {
        a.push(tunnel(proto, c.local_ip, c.local_port, "este lado"@))
    } else {
        a
    }
}

fn offer_tunnel(proto: &str, ip: &str, port: u16, side: &str) -> (r: Handoff)
    ensures
        r@ == tunnel(proto@, ip@, port, side@),
{
    let target = endpoint(ip, port);
    let head = cat4("túnel ", proto, " para ", target.as_str());
    let mut params: Vec<(&'static str, String)> = Vec::new();
    params.push(("proto", proto.to_owned()));
    params.push(("listen", cat2("127.0.0.1:", dec(port as u64).as_str())));
    params.push(("target", target));
    let h = Handoff { label: cat4(head.as_str(), " (", side, ")"), tool: "tunnel", params };
    assert(h@.params =~= tunnel(proto@, ip@, port, side@).params);
    h
}

/// The tunnels that a connection describes.
pub fn tunnels(c: &RawConn<String>, proto: &str) -> (r: Vec<Handoff>)
    ensures
        offers_of(r@) == tunnels_of(c@, proto@),
{
    let mut offers: Vec<Handoff> = Vec::new();
    assert(offers_of(offers@) =~= Seq::empty());
    let remote_ok = c.remote_port != 0 && !c.remote_ip.as_str().is_empty();
    let local_ok = c.local_port != 0 && !c.local_ip.as_str().is_empty();
    if remote_ok {
        let h = offer_tunnel(proto, c.remote_ip.as_str(), c.remote_port, "o outro lado");
        let ghost x = h@;
        offers.push(h);
        assert(offers_of(offers@) =~= seq![x]);
    }
    if local_ok && !(remote_ok && same(c.local().as_str(), c.remote().as_str())) {
        let h = offer_tunnel(proto, c.local_ip.as_str(), c.local_port, "este lado");
        let ghost before = offers_of(offers@);
        let ghost x = h@;
        offers.push(h);
        assert(offers_of(offers@) =~= before.push(x));
    }
    offers
}

// --- from one dump to the next -----------------------------------------------------------------------------

/// The counters of a connection at one dump.
#[derive(Clone, Copy, PartialEq, Eq, Debug, Structural)]
pub struct Count {
    pub acked: u64,
    pub received: u64,
    pub at: u64,
}

/// What a connection moved since the dump before, and in how many milliseconds; nothing is
/// known of one that is seen for the first time.
#[derive(Clone, Copy, PartialEq, Eq, Debug, Structural)]
pub struct Moved {
    pub down: u64,
    pub up: u64,
    pub ms: u64,
}

/// A connection of a dump, and what it moved.
#[derive(Debug)]
pub struct Followed {
    pub conn: RawConn<String>,
    pub moved: Option<Moved>,
}

/// What moved between two counts. A counter that went back counts as still.
pub open spec fn moved_between(a: Count, b: Count) -> Moved {
    Moved {
        down: if b.received >= a.received {
            (b.received - a.received) as u64
        } else {
            0
        },
        up: if b.acked >= a.acked {
            (b.acked - a.acked) as u64
        } else {
            0
        },
        ms: if b.at >= a.at {
            (b.at - a.at) as u64
        } else {
            0
        },
    }
}

/// The counters of a connection now.
pub open spec fn count_of(c: RawConn<String>, now: u64) -> Count {
    Count { acked: c.info.bytes_acked, received: c.info.bytes_received, at: now }
}

/// A connection with what it moved since the counts of the dump before.
pub open spec fn followed(c: RawConn<String>, history: Seq<(Seq<char>, Count)>, now: u64) -> Followed {
    Followed {
        conn: c,
        moved: match under(history, c@.key()) {
            Some(before) => Some(moved_between(before, count_of(c, now))),
            None => None,
        },
    }
}

/// The connections of a dump by key, with what each moved.
pub open spec fn snapshot_of(
    raw: Seq<RawConn<String>>,
    history: Seq<(Seq<char>, Count)>,
    now: u64,
) -> Seq<(Seq<char>, Followed)>
    decreases raw.len(),
{
    if raw.len() == 0 {
        Seq::empty()
    } else {
        put(
            snapshot_of(raw.drop_last(), history, now),
            raw.last()@.key(),
            followed(raw.last(), history, now),
        )
    }
}

/// The counts that the next dump is held against: those of the connections of this one, and
/// of no other.
pub open spec fn counts_of(raw: Seq<RawConn<String>>, now: u64) -> Seq<(Seq<char>, Count)>
    decreases raw.len(),
{
    if raw.len() == 0 {
        Seq::empty()
    } else {
        put(counts_of(raw.drop_last(), now), raw.last()@.key(), count_of(raw.last(), now))
    }
}

/// What is remembered of the dump before.
#[derive(Debug)]
pub struct ConnectionsMonitor {
    pub history: Vec<(String, Count)>,
}

impl ConnectionsMonitor {
    /// Nothing seen yet.
    pub fn new() -> (r: ConnectionsMonitor)
        ensures
            pairs(r.history@) == Seq::<(Seq<char>, Count)>::empty(),
    {
        let r = ConnectionsMonitor { history: Vec::new() };
        assert(pairs(r.history@) =~= Seq::empty());
        r
    }

    /// Takes a dump in: each connection by its key with what it moved, and the counts for the
    /// next dump. A connection that has closed is forgotten.
    pub fn refresh_snapshot(&mut self, raw: Vec<RawConn<String>>, now: u64) -> (r: Vec<
        (String, Followed),
    >)
        ensures
            pairs(r@) == snapshot_of(raw@, pairs(old(self).history@), now),
            pairs(final(self).history@) == counts_of(raw@, now),
    {
        let ghost h = pairs(self.history@);
        let ghost all = raw@;
        let mut left = raw;
        let n: usize = left.len();
        let mut next: Vec<(String, Count)> = Vec::new();
        let mut snapshot: Vec<(String, Followed)> = Vec::new();
        let mut i: usize = 0;
        proof {
            assert(all.take(0) =~= Seq::empty());
            assert(left@ =~= all.skip(0));
            assert(pairs(next@) =~= Seq::empty());
            assert(pairs(snapshot@) =~= Seq::empty());
        }
        while i < n
            invariant
                i <= n,
                n == all.len(),
                left@ == all.skip(i as int),
                h == pairs(self.history@),
                pairs(next@) == counts_of(all.take(i as int), now),
                pairs(snapshot@) == snapshot_of(all.take(i as int), h, now),
            decreases n - i,
        {
            let c = left.remove(0);
            proof {
                assert(c == all[i as int]);
                assert(left@ =~= all.skip(i + 1));
                assert(all.take(i + 1).drop_last() =~= all.take(i as int));
                assert(all.take(i + 1).last() == c);
            }
            let key = c.key_of();
            let count = Count {
                acked: c.info.bytes_acked,
                received: c.info.bytes_received,
                at: now,
            };
            let moved = match find_pair(&self.history, key.as_str()) {
                Some(k) => {
                    let before = self.history[k].1;
                    Some(
                        Moved {
                            down: count.received.saturating_sub(before.received),
                            up: count.acked.saturating_sub(before.acked),
                            ms: now.saturating_sub(before.at),
                        },
                    )
                },
                None => None,
            };
            put_pair(&mut next, key.as_str(), count);
            let f = Followed { conn: c, moved };
            assert(f == followed(all[i as int], h, now));
            put_pair(&mut snapshot, key.as_str(), f);
            i = i + 1;
        }
        assert(all.take(n as int) =~= all);
        self.history = next;
        snapshot
    }
}

/// A connection that was in the dump before, and whose counters did not go back, moved what
/// its counters grew by.
pub proof fn lemma_moved(a: Count, b: Count)
    requires
        a.acked <= b.acked,
        a.received <= b.received,
        a.at <= b.at,
    ensures
        a.received + moved_between(a, b).down == b.received,
        a.acked + moved_between(a, b).up == b.acked,
        a.at + moved_between(a, b).ms == b.at,
{
}

// --- rows ------------------------------------------------------------------------------------------------

/// The two rates of a connection, as they read.
pub open spec fn rate_text(down: Seq<char>, up: Seq<char>) -> Seq<char> {
    "↓"@ + down + " ↑"@ + up
}

/// Writes the two rates of a connection.
pub fn format_rate(down: &str, up: &str) -> (r: String)
    ensures
        r@ == rate_text(down@, up@),
{
    cat4("↓", down, " ↑", up)
}

/// How a byte count of up to 65 bits reads: as the greatest of 64 bits where it is above.
pub open spec fn human_total(n: nat) -> Seq<char> {
    if n > u64::MAX {
        human(u64::MAX as nat)
    } else {
        human(n)
    }
}

fn write_total(n: u128) -> (r: String)
    ensures
        r@ == human_total(n as nat),
{
    if n > 0xffff_ffff_ffff_ffff {
        human_bytes(0xffff_ffff_ffff_ffff)
    } else {
        human_bytes(n as u64)
    }
}

/// The row of a connection.
pub open spec fn conn_row(
    r: TableRow,
    c: RawConn<Seq<char>>,
    rate: (Seq<char>, Seq<char>),
    ps: Seq<Proc>,
    owners: Seq<(u64, u32)>,
) -> bool {
    let pid = owner_of(owners, c.inode as u64);
    let o = owner_cells(ps, pid);
    is_leaf(
        r,
        seq![
            proto_text(c.protocol),
            o.0,
            c.near() + " → "@ + c.far(),
            o.1,
            human_total(c.total()),
            rate_text(rate.0, rate.1),
        ],
        pid,
        c.key(),
    )
}

/// Builds the row of a connection, `down` and `up` being how its rates read.
pub fn build_row(
    ps: &Vec<Proc>,
    owners: &Vec<(u64, u32)>,
    c: &RawConn<String>,
    down: &str,
    up: &str,
) -> (r: TableRow)
    ensures
        conn_row(r, c@, (down@, up@), ps@, owners@),
{
    let pid = pid_of(owners, c.inode as u64);
    let (process, age) = describe_owner(ps, pid);
    let ghost o = owner_cells(ps@, pid);
    let mut cells: Vec<String> = Vec::new();
    cells.push(proto_name(c.protocol).to_owned());
    cells.push(process);
    cells.push(cat3(c.local().as_str(), " → ", c.remote().as_str()));
    cells.push(age);
    cells.push(write_total(c.total_bytes()));
    cells.push(format_rate(down, up));
    assert(views(cells@) =~= seq![
        proto_text(c.protocol),
        o.0,
        c@.near() + " → "@ + c@.far(),
        o.1,
        human_total(c@.total()),
        rate_text(down@, up@),
    ]);
    TableRow::keyed(cells, pid, c.key_of())
}

/// A connection to be shown: what it is, how its rates read, and a number that orders
/// connections by their rates together.
#[derive(Debug)]
pub struct Shown {
    pub conn: RawConn<String>,
    pub down: String,
    pub up: String,
    pub weight: i64,
}

/// Connections, those that move the most now first.
pub open spec fn ranked(es: Seq<Shown>) -> Seq<Shown> {
    sorted_by(es, Seq::new(es.len(), |i: int| (-es[i].weight) as i128))
}

/// The connections as rows, those that move the most now first, no more than the limit. What
/// was moved an hour ago does not count.
pub fn sample(
    entries: &Vec<Shown>,
    ps: &Vec<Proc>,
    owners: &Vec<(u64, u32)>,
    limit: Option<usize>,
) -> (r: Vec<TableRow>)
    ensures
        r@.len() == capped(entries@.len(), limit),
        forall|i: int|
            0 <= i < r@.len() ==> conn_row(
                #[trigger] r@[i],
                ranked(entries@)[i].conn@,
                (ranked(entries@)[i].down@, ranked(entries@)[i].up@),
                ps@,
                owners@,
            ),
{
    let mut keys: Vec<i128> = Vec::new();
    for i in 0..entries.len()
        invariant
            keys@ =~= Seq::new(i as nat, |k: int| (-entries@[k].weight) as i128),
    {
        keys.push(-(entries[i].weight as i128));
    }
    let o = stable_order(keys.as_slice());
    let ghost v = ranked(entries@);
    proof {
        assert(keys@ =~= Seq::new(entries@.len(), |k: int| (-entries@[k].weight) as i128));
        lemma_sorted(entries@, keys@, o@);
    }
    let n: usize = match limit {
        Some(l) => if l < o.len() {
            l
        } else {
            o.len()
        },
        None => o.len(),
    };
    let mut r: Vec<TableRow> = Vec::new();
    for i in 0..n
        invariant
            is_order(keys@, o@),
            keys@.len() == entries@.len(),
            n <= o@.len(),
            v == Seq::new(entries@.len(), |i: int| entries@[o@[i] as int]),
            r@.len() == i,
            forall|k: int|
                0 <= k < i ==> conn_row(
                    #[trigger] r@[k],
                    v[k].conn@,
                    (v[k].down@, v[k].up@),
                    ps@,
                    owners@,
                ),
    {
        let s = &entries[o[i]];
        r.push(build_row(ps, owners, &s.conn, s.down.as_str(), s.up.as_str()));
    }
    r
}

/// The first connection with a key.
pub open spec fn shown_at(es: Seq<Shown>, key: Seq<char>) -> Option<int>
    decreases es.len(),
{
    if es.len() == 0 {
        None
    } else {
        match shown_at(es.drop_last(), key) {
            Some(i) => Some(i),
            None => if es.last().conn@.key() == key {
                Some(es.len() - 1)
            } else {
                None
            },
        }
    }
}

/// The first shown connection with a key has it, and none before it does.
pub proof fn lemma_shown_at(es: Seq<Shown>, key: Seq<char>)
    ensures
        (match shown_at(es, key) {
            Some(i) => 0 <= i < es.len() && es[i].conn@.key() == key && forall|j: int|
                0 <= j < i ==> (#[trigger] es[j]).conn@.key() != key,
            None => forall|j: int| 0 <= j < es.len() ==> (#[trigger] es[j]).conn@.key() != key,
        }),
    decreases es.len(),
{
    if es.len() > 0 {
        lemma_shown_at(es.drop_last(), key);
        assert(forall|j: int| 0 <= j < es.len() - 1 ==> es.drop_last()[j] == #[trigger] es[j]);
    }
}

/// The place of the first connection with a key.
pub fn find_shown(es: &Vec<Shown>, key: &str) -> (r: Option<usize>)
    ensures
        (match r {
            Some(i) => shown_at(es@, key@) == Some(i as int) && i < es@.len(),
            None => shown_at(es@, key@) is None,
        }),
{
    for i in 0..es.len()
        invariant
            forall|j: int| 0 <= j < i ==> (#[trigger] es@[j]).conn@.key() != key@,
    {
        if same(es[i].conn.key_of().as_str(), key) {
            proof {
                lemma_shown_at(es@, key@);
            }
            return Some(i);
        }
    }
    proof {
        lemma_shown_at(es@, key@);
    }
    None
}

/// The cells of a row after a dump: renewed where its connection is still there, as they were
/// where it has closed.
pub open spec fn renewed(
    row: TableRow,
    es: Seq<Shown>,
    ps: Seq<Proc>,
    owners: Seq<(u64, u32)>,
) -> (u32, Seq<Seq<char>>) {
    match shown_at(es, row.key@) {
        None => (row.pid, views(row.cells@)),
        Some(i) => {
            let c = es[i].conn@;
            let pid = owner_of(owners, c.inode as u64);
            let o = owner_cells(ps, pid);
            (
                pid,
                with_cell(
                    with_cell(
                        with_cell(with_cell(views(row.cells@), 1, o.0), 3, o.1),
                        4,
                        human_total(c.total()),
                    ),
                    5,
                    rate_text(es[i].down@, es[i].up@),
                ),
            )
        },
    }
}

/// Renews the rows of a table in place.
pub fn refresh_values(
    es: &Vec<Shown>,
    ps: &Vec<Proc>,
    owners: &Vec<(u64, u32)>,
    rows: &mut Vec<TableRow>,
)
    ensures
        final(rows)@.len() == old(rows)@.len(),
        forall|i: int|
            0 <= i < old(rows)@.len() ==> ((#[trigger] final(rows)@[i]).pid, views(
                final(rows)@[i].cells@,
            )) == renewed(old(rows)@[i], es@, ps@, owners@) && final(rows)@[i] == (TableRow {
                pid: final(rows)@[i].pid,
                cells: final(rows)@[i].cells,
                ..old(rows)@[i]
            }),
{
    let n: usize = rows.len();
    for i in 0..n
        invariant
            n == rows@.len(),
            rows@.len() == old(rows)@.len(),
            forall|k: int|
                0 <= k < i ==> ((#[trigger] rows@[k]).pid, views(rows@[k].cells@)) == renewed(
                    old(rows)@[k],
                    es@,
                    ps@,
                    owners@,
                ) && rows@[k] == (TableRow {
                    pid: rows@[k].pid,
                    cells: rows@[k].cells,
                    ..old(rows)@[k]
                }),
            forall|k: int| i <= k < rows@.len() ==> #[trigger] rows@[k] == old(rows)@[k],
    {
        match find_shown(es, rows[i].key.as_str()) {
            None => {},
            Some(k) => {
                let pid = pid_of(owners, es[k].conn.inode as u64);
                let (process, age) = describe_owner(ps, pid);
                let row = &mut rows[i];
                row.pid = pid;
                set_cell(&mut row.cells, 1, process);
                set_cell(&mut row.cells, 3, age);
                set_cell(&mut row.cells, 4, write_total(es[k].conn.total_bytes()));
                set_cell(&mut row.cells, 5, format_rate(es[k].down.as_str(), es[k].up.as_str()));
            },
        }
    }
}

// --- details ----------------------------------------------------------------------------------------------

/// What is known of a connection besides the dump.
#[derive(Debug)]
pub struct Context {
    /// The name of the far address.
    pub host: Lookup,
    /// The user that the socket belongs to.
    pub user: Option<String>,
    /// How its rates read, and as bit patterns of doubles.
    pub down: String,
    pub up: String,
    pub rates: (u64, u64),
    /// How the time to its timer reads, and the times since it last received and sent.
    pub expires: String,
    pub received: String,
    pub sent: String,
}

/// How the name of an address reads.
pub open spec fn host_text(l: Lookup) -> Seq<char> {
    match l {
        Lookup::Name(n) => n@,
        Lookup::Pending => "resolvendo…"@,
        Lookup::Unnamed => Seq::empty(),
    }
}

fn host_name(l: &Lookup) -> (r: String)
    ensures
        r@ == host_text(*l),
{
    match l {
        Lookup::Name(n) => n.clone(),
        Lookup::Pending => "resolvendo…".to_owned(),
        Lookup::Unnamed => {
            let r = String::new();
            assert(r@ =~= Seq::empty());
            r
        },
    }
}

/// An end with the name of its service, where it has one.
pub open spec fn end_text(
    end: Seq<char>,
    services: Seq<(bool, u16, Seq<char>)>,
    protocol: u8,
    port: u16,
) -> Seq<char> {
    match service_of(services, protocol == IPPROTO_TCP, port) {
        Some(s) => end + " ("@ + s + ")"@,
        None => end,
    }
}

/// An end with the name of its service.
pub fn with_service(services: &Services, protocol: u8, port: u16, end: String) -> (r: String)
    ensures
        r@ == end_text(end@, entries_of(services.entries@), protocol, port),
{
    match services.name(protocol == IPPROTO_TCP, port) {
        Some(s) => cat4(end.as_str(), " (", s, ")"),
        None => end,
    }
}

/// The lines about what a connection is.
pub open spec fn conn_lines(
    c: RawConn<Seq<char>>,
    x: Context,
    services: Seq<(bool, u16, Seq<char>)>,
) -> Seq<(Seq<char>, Seq<char>)> {
    let f = Seq::empty();
    let f = with_field(f, "Estado"@, state_text(c.state));
    let f = with_field(
        f,
        "Protocolo"@,
        proto_text(c.protocol) + " · "@ + (if c.family == AF_INET {
            "IPv4"@
        } else {
            "IPv6"@
        }),
    );
    let f = with_field(f, "Local"@, end_text(c.near(), services, c.protocol, c.local_port));
    let f = with_field(f, "Remoto"@, end_text(c.far(), services, c.protocol, c.remote_port));
    let f = with_field(f, "Host remoto"@, host_text(x.host));
    let f = with_some(
        f,
        "Timer armado"@,
        match timer_text(c.timer) {
            Some(t) => Some(t + " · dispara em "@ + since_text(c.expires_ms, x.expires@)),
            None => None,
        },
    );
    with_field(f, "Dono do socket"@, owner_text(c.uid, maybe(x.user)))
}

fn conn_section(c: &RawConn<String>, x: &Context, services: &Services) -> (r: DetailSection)
    ensures
        r@ == (SectionV {
            title: "Conexão"@,
            fields: conn_lines(c@, *x, entries_of(services.entries@)),
        }),
{
    let mut s = DetailSection::new("Conexão");
    s.push("Estado", state_name(c.state).to_owned());
    let family = if c.family == AF_INET {
        "IPv4"
    } else {
        "IPv6"
    };
    s.push("Protocolo", cat3(proto_name(c.protocol), " · ", family));
    s.push("Local", with_service(services, c.protocol, c.local_port, c.local()));
    s.push("Remoto", with_service(services, c.protocol, c.remote_port, c.remote()));
    s.push("Host remoto", host_name(&x.host));
    match timer_name(c.timer) {
        Some(t) => {
            let when = millis_since(c.expires_ms, x.expires.as_str());
            s.push("Timer armado", cat3(t, " · dispara em ", when.as_str()));
        },
        None => {},
    }
    s.push("Dono do socket", owner_label(c.uid, &x.user));
    s
}

/// The lines about the process behind a connection.
pub open spec fn process_lines(p: Option<Proc>, x: Extra) -> Seq<(Seq<char>, Seq<char>)> {
    let f = Seq::empty();
    match p {
        None => with_field(f, "PID"@, SEM_DONO@),
        Some(p) => {
            let f = with_field(f, "PID"@, decimal(p.pid as nat));
            let f = with_field(f, "Ativo há"@, p.age@);
            let f = with_some(f, "Executável"@, maybe(x.exe));
            let f = with_some(f, "Diretório"@, maybe(x.cwd));
            with_field(f, "Linha de comando"@, p.command@)
        },
    }
}

fn copied(t: &Option<String>) -> (r: Option<String>)
    ensures
        maybe(r) == maybe(*t),
{
    match t {
        Some(s) => Some(s.clone()),
        None => None,
    }
}

fn process_section(ps: &Vec<Proc>, pid: u32, x: &Extra) -> (r: DetailSection)
    ensures
        r@ == (SectionV {
            title: "Processo"@,
            fields: process_lines(at(ps@, place_of(ps@, pid)), *x),
        }),
{
    let mut s = DetailSection::new("Processo");
    match find_proc(ps, pid) {
        None => {
            s.push("PID", SEM_DONO.to_owned());
        },
        Some(i) => {
            let p = &ps[i];
            proof {
                lemma_place_of(ps@, pid);
            }
            s.push("PID", dec(p.pid as u64));
            s.push("Ativo há", p.age.clone());
            s.push_some("Executável", copied(&x.exe));
            s.push_some("Diretório", copied(&x.cwd));
            s.push("Linha de comando", p.command.clone());
        },
    }
    s
}

/// Two counts of segments on one line.
pub open spec fn both_ways(received: u32, sent: u32) -> Seq<char> {
    decimal(received as nat) + " recebidos · "@ + decimal(sent as nat) + " enviados"@
}

fn write_both_ways(received: u32, sent: u32) -> (r: String)
    ensures
        r@ == both_ways(received, sent),
{
    cat4(
        dec(received as u64).as_str(),
        " recebidos · ",
        dec(sent as u64).as_str(),
        " enviados",
    )
}

/// The lines about what a connection moves. The kernel keeps no counters for UDP, but its
/// queues are as real.
pub open spec fn traffic_lines(c: RawConn<Seq<char>>, x: Context) -> Seq<(Seq<char>, Seq<char>)> {
    let f = Seq::empty();
    let tcp = c.protocol == IPPROTO_TCP;
    let f = if tcp {
        let f = with_field(f, "Taxa atual"@, rate_text(x.down@, x.up@));
        let f = with_field(f, "Recebido"@, human(c.info.bytes_received as nat));
        let f = with_field(f, "Enviado"@, human(c.info.bytes_acked as nat));
        let f = with_field(f, "Segmentos"@, both_ways(c.info.segs_in, c.info.segs_out));
        let f = with_field(
            f,
            "Destes, com dados"@,
            both_ways(c.info.data_segs_in, c.info.data_segs_out),
        );
        let f = with_field(
            f,
            "Último recebimento"@,
            since_text(c.info.last_data_recv, x.received@),
        );
        with_field(f, "Último envio"@, since_text(c.info.last_data_sent, x.sent@))
    } else {
        with_field(
            f,
            "Contadores"@,
            "o kernel não conta bytes por socket UDP — só as filas abaixo"@,
        )
    };
    let f = with_field(
        f,
        "Fila de recepção"@,
        human(c.rqueue as nat) + " esperando o processo ler"@,
    );
    let f = with_field(f, "Fila de envio"@, human(c.wqueue as nat) + " esperando a rede"@);
    if tcp && c.info.notsent_bytes > 0 {
        with_field(f, "Sem sair do socket"@, human(c.info.notsent_bytes as nat))
    } else {
        f
    }
}

fn traffic_section(c: &RawConn<String>, x: &Context) -> (r: DetailSection)
    ensures
        r@ == (SectionV { title: "Tráfego"@, fields: traffic_lines(c@, *x) }),
{
    let mut s = DetailSection::new("Tráfego");
    let tcp = c.protocol == IPPROTO_TCP;
    if tcp {
        s.push("Taxa atual", format_rate(x.down.as_str(), x.up.as_str()));
        s.push("Recebido", human_bytes(c.info.bytes_received));
        s.push("Enviado", human_bytes(c.info.bytes_acked));
        s.push("Segmentos", write_both_ways(c.info.segs_in, c.info.segs_out));
        s.push(
            "Destes, com dados",
            write_both_ways(c.info.data_segs_in, c.info.data_segs_out),
        );
        s.push(
            "Último recebimento",
            millis_since(c.info.last_data_recv, x.received.as_str()),
        );
        s.push("Último envio", millis_since(c.info.last_data_sent, x.sent.as_str()));
    } else {
        s.push(
            "Contadores",
            "o kernel não conta bytes por socket UDP — só as filas abaixo".to_owned(),
        );
    }
    s.push(
        "Fila de recepção",
        cat2(human_bytes(c.rqueue as u64).as_str(), " esperando o processo ler"),
    );
    s.push(
        "Fila de envio",
        cat2(human_bytes(c.wqueue as u64).as_str(), " esperando a rede"),
    );
    if tcp && c.info.notsent_bytes > 0 {
        s.push("Sem sair do socket", human_bytes(c.info.notsent_bytes as u64));
    }
    s
}

/// The lines about how the path under a connection behaves: its delay, its losses, and how
/// much the sender may push.
pub open spec fn path_lines(i: TcpInfo) -> Seq<(Seq<char>, Seq<char>)> {
    let f = Seq::empty();
    let f = if i.rtt > 0 {
        with_field(f, "RTT"@, micros_text(i.rtt as nat) + " ± "@ + micros_text(i.rttvar as nat))
    } else {
        f
    };
    let f = with_field(f, "RTT mínimo"@, micros_text(i.min_rtt as nat));
    let f = with_field(
        f,
        "Retransmissões"@,
        decimal(i.total_retrans as nat) + " no total · "@ + decimal(i.retrans as nat)
            + " pendentes · "@ + decimal(i.lost as nat) + " tidos como perdidos"@,
    );
    let f = if i.retransmits > 0 || i.probes > 0 {
        with_field(
            f,
            "Insistindo agora"@,
            decimal(i.retransmits as nat) + " retransmissões seguidas · "@ + decimal(
                i.probes as nat,
            ) + " sondagens"@,
        )
    } else {
        f
    };
    let f = if i.snd_cwnd > 0 {
        with_field(
            f,
            "Janela de congestão"@,
            decimal(i.snd_cwnd as nat) + " segmentos (~"@ + human(
                (i.snd_cwnd as nat * i.snd_mss as nat),
            ) + " em voo)"@,
        )
    } else {
        f
    };
    let f = with_field(
        f,
        "MSS"@,
        decimal(i.snd_mss as nat) + " envio · "@ + decimal(i.rcv_mss as nat) + " recepção · "@
            + decimal(i.advmss as nat) + " anunciado"@,
    );
    let f = if i.pmtu > 0 {
        with_field(f, "PMTU"@, decimal(i.pmtu as nat) + " bytes"@)
    } else {
        f
    };
    let f = with_field(f, "Ritmo permitido"@, human_rate(i.pacing_rate as nat));
    let f = with_field(f, "Entrega medida"@, human_rate(i.delivery_rate as nat));
    let f = with_field(f, "Timeout de retransmissão"@, micros_text(i.rto as nat));
    with_field(f, "ACK atrasado"@, micros_text(i.ato as nat))
}

/// How the path under a connection behaves.
pub fn path_section(i: &TcpInfo) -> (r: DetailSection)
    ensures
        r@ == (SectionV { title: "Caminho"@, fields: path_lines(*i) }),
{
    let mut s = DetailSection::new("Caminho");
    if i.rtt > 0 {
        s.push("RTT", cat3(micros(i.rtt).as_str(), " ± ", micros(i.rttvar).as_str()));
    }
    s.push("RTT mínimo", micros(i.min_rtt));
    s.push(
        "Retransmissões",
        cat6(
            dec(i.total_retrans as u64).as_str(),
            " no total · ",
            dec(i.retrans as u64).as_str(),
            " pendentes · ",
            dec(i.lost as u64).as_str(),
            " tidos como perdidos",
        ),
    );
    if i.retransmits > 0 || i.probes > 0 {
        s.push(
            "Insistindo agora",
            cat4(
                dec(i.retransmits as u64).as_str(),
                " retransmissões seguidas · ",
                dec(i.probes as u64).as_str(),
                " sondagens",
            ),
        );
    }
    if i.snd_cwnd > 0 {
        assert(i.snd_cwnd as int * i.snd_mss as int <= 0xffff_ffff * 0xffff_ffff)
            by (nonlinear_arith)
            requires
                i.snd_cwnd <= 0xffff_ffff,
                i.snd_mss <= 0xffff_ffff,
        ;
        let flight: u64 = (i.snd_cwnd as u64) * (i.snd_mss as u64);
        s.push(
            "Janela de congestão",
            cat4(
                dec(i.snd_cwnd as u64).as_str(),
                " segmentos (~",
                human_bytes(flight).as_str(),
                " em voo)",
            ),
        );
    }
    s.push(
        "MSS",
        cat6(
            dec(i.snd_mss as u64).as_str(),
            " envio · ",
            dec(i.rcv_mss as u64).as_str(),
            " recepção · ",
            dec(i.advmss as u64).as_str(),
            " anunciado",
        ),
    );
    if i.pmtu > 0 {
        s.push("PMTU", cat2(dec(i.pmtu as u64).as_str(), " bytes"));
    }
    s.push("Ritmo permitido", human_bytes_per_sec(i.pacing_rate));
    s.push("Entrega medida", human_bytes_per_sec(i.delivery_rate));
    s.push("Timeout de retransmissão", micros(i.rto));
    s.push("ACK atrasado", micros(i.ato));
    s
}

/// The sections of the detail of a connection.
pub open spec fn conn_sections(
    c: RawConn<Seq<char>>,
    x: Context,
    services: Seq<(bool, u16, Seq<char>)>,
    p: Option<Proc>,
    extra: Extra,
) -> Seq<SectionV> {
    let head = seq![
        SectionV { title: "Conexão"@, fields: conn_lines(c, x, services) },
        SectionV { title: "Processo"@, fields: process_lines(p, extra) },
        SectionV { title: "Tráfego"@, fields: traffic_lines(c, x) },
    ];
    if c.protocol == IPPROTO_TCP {
        head.push(SectionV { title: "Caminho"@, fields: path_lines(c.info) })
    } else {
        head
    }
}

/// All that is known about a connection: what it is, who owns it, what it has moved, and how
/// the path under it behaves.
pub fn build_detail(
    c: &RawConn<String>,
    x: &Context,
    services: &Services,
    ps: &Vec<Proc>,
    pid: u32,
    extra: &Extra,
) -> (r: Detail)
    ensures
        r.title@ == proto_text(c.protocol) + " "@ + c@.near() + " → "@ + c@.far(),
        r.gone_note@ == "encerrada"@,
        sections_of(r.sections@) == conn_sections(
            c@,
            *x,
            entries_of(services.entries@),
            at(ps@, place_of(ps@, pid)),
            *extra,
        ),
        (match r.rates {
            Some(y) => c.protocol == IPPROTO_TCP && y.values == x.rates && y.labels.0@
                == "↓ Recebendo"@ && y.labels.1@ == "↑ Enviando"@,
            None => c.protocol != IPPROTO_TCP,
        }),
        offers_of(r.handoffs@) == tunnels_of(c@, proto_text(c.protocol)),
        r.handoff_title@ == "Abrir um túnel desta conexão"@,
{
    let proto = proto_name(c.protocol);
    let tcp = c.protocol == IPPROTO_TCP;
    let mut sections: Vec<DetailSection> = Vec::new();
    sections.push(conn_section(c, x, services));
    sections.push(process_section(ps, pid, extra));
    sections.push(traffic_section(c, x));
    if tcp {
        sections.push(path_section(&c.info));
    }
    assert(sections_of(sections@) =~= conn_sections(
        c@,
        *x,
        entries_of(services.entries@),
        at(ps@, place_of(ps@, pid)),
        *extra,
    ));
    Detail {
        title: cat5(proto, " ", c.local().as_str(), " → ", c.remote().as_str()),
        gone_note: "encerrada",
        sections,
        rates: if tcp {
            Some(Rates { labels: ("↓ Recebendo", "↑ Enviando"), values: x.rates })
        } else {
            None
        },
        handoffs: tunnels(c, proto),
        handoff_title: "Abrir um túnel desta conexão",
    }
}

/// The numbers that the kernel goes by: the families of addresses, the protocols, the kinds of
/// message, and the states that are asked for, each a bit at its own place: established, the two
/// of a handshake and the one that waits to be closed; of UDP those with a far end.
pub proof fn lemma_kernel_numbers()
    ensures
        AF_INET == 2,
        AF_INET6 == 10,
        IPPROTO_TCP == 6,
        IPPROTO_UDP == 17,
        SOCK_DIAG_BY_FAMILY == 20,
        NLMSG_ERROR == 2,
        NLMSG_DONE == 3,
        TCP_OPEN_STATES == 2 + 4 + 8 + 256,
        UDP_OPEN_STATES == 2,
        INET_DIAG_REQ_EXT_INFO == 2,
        state_text(1) == "ESTABLISHED"@,
        state_text(2) == "SYN_SENT"@,
        state_text(3) == "SYN_RECV"@,
        state_text(8) == "CLOSE_WAIT"@,
        state_text(TCP_LISTEN) == "LISTEN"@,
        state_text(UDP_UNCONN) == "CLOSE"@,
        proto_text(IPPROTO_TCP) == Proto::Tcp.text(),
        proto_text(IPPROTO_UDP) == Proto::Udp.text(),
{
}

/// What a request says: its own length, that sockets are asked for, all of them, of a family and a
/// protocol, in the states whose bits are set.
pub proof fn lemma_request(family: u8, protocol: u8, states: u32, e: Endian)
    ensures
        ({
            let r = request(family, protocol, states, e);
            &&& r.len() == 72
            &&& number_at(r, 0, 4, e) == 72
            &&& number_at(r, 4, 2, e) == SOCK_DIAG_BY_FAMILY
            &&& number_at(r, 6, 2, e) == NLM_F_DUMP_REQUEST
            &&& r[16] == family
            &&& r[17] == protocol
            &&& r[18] == INET_DIAG_REQ_EXT_INFO
            &&& number_at(r, 20, 4, e) == states
        }),
{
    let r = request(family, protocol, states, e);
    lemma_reads_back(REQUEST_LEN, SOCK_DIAG_BY_FAMILY, e);
    lemma_reads_back(states, NLM_F_DUMP_REQUEST, e);
    assert(r.subrange(0, 4) =~= bytes32(REQUEST_LEN, e));
    assert(r.subrange(4, 6) =~= bytes16(SOCK_DIAG_BY_FAMILY, e));
    assert(r.subrange(6, 8) =~= bytes16(NLM_F_DUMP_REQUEST, e));
    assert(r.subrange(20, 24) =~= bytes32(states, e));
}

/// The number that the four bytes at a place of a list of such make.
pub open spec fn word_of(words: Seq<u8>, k: int, e: Endian) -> nat {
    number(words.subrange(4 * k, 4 * k + 4), e)
}

/// The number that the eight bytes at a place of a list of such make.
pub open spec fn long_of(longs: Seq<u8>, k: int, e: Endian) -> nat {
    number(longs.subrange(8 * k, 8 * k + 8), e)
}

proof fn lemma_word_in(s: Seq<u8>, before: Seq<u8>, words: Seq<u8>, after: Seq<u8>, k: int, e: Endian)
    requires
        s == before + words + after,
        0 <= k,
        4 * k + 4 <= words.len(),
    ensures
        number_at(s, before.len() + 4 * k, 4, e) == word_of(words, k, e),
{
    let at = before.len() + 4 * k;
    assert(s.subrange(at, at + 4) =~= words.subrange(4 * k, 4 * k + 4));
}

proof fn lemma_long_in(s: Seq<u8>, before: Seq<u8>, longs: Seq<u8>, after: Seq<u8>, k: int, e: Endian)
    requires
        s == before + longs + after,
        0 <= k,
        8 * k + 8 <= longs.len(),
    ensures
        number_at(s, before.len() + 8 * k, 8, e) == long_of(longs, k, e),
{
    let at = before.len() + 8 * k;
    assert(s.subrange(at, at + 8) =~= longs.subrange(8 * k, 8 * k + 8));
}

/// The counters of a connection as the kernel lays them out: eight bytes, then twenty-four words,
/// four longs, six words and a long, each counter at its place among those of its size.
pub proof fn lemma_tcp_info(
    head: Seq<u8>,
    words: Seq<u8>,
    longs: Seq<u8>,
    more: Seq<u8>,
    last: Seq<u8>,
    e: Endian,
)
    requires
        head.len() == 8,
        words.len() == 4 * 24,
        longs.len() == 8 * 4,
        more.len() == 4 * 6,
        last.len() >= 8,
    ensures
        ({
            let i = tcp_info_in(head + words + longs + more + last, e);
            &&& i.retransmits == head[2]
            &&& i.probes == head[3]
            &&& i.rto == word_of(words, 0, e) as u32
            &&& i.ato == word_of(words, 1, e) as u32
            &&& i.snd_mss == word_of(words, 2, e) as u32
            &&& i.rcv_mss == word_of(words, 3, e) as u32
            &&& i.lost == word_of(words, 6, e) as u32
            &&& i.retrans == word_of(words, 7, e) as u32
            &&& i.last_data_sent == word_of(words, 9, e) as u32
            &&& i.last_data_recv == word_of(words, 11, e) as u32
            &&& i.pmtu == word_of(words, 13, e) as u32
            &&& i.rtt == word_of(words, 15, e) as u32
            &&& i.rttvar == word_of(words, 16, e) as u32
            &&& i.snd_cwnd == word_of(words, 18, e) as u32
            &&& i.advmss == word_of(words, 19, e) as u32
            &&& i.total_retrans == word_of(words, 23, e) as u32
            &&& i.pacing_rate == long_of(longs, 0, e) as u64
            &&& i.bytes_acked == long_of(longs, 2, e) as u64
            &&& i.bytes_received == long_of(longs, 3, e) as u64
            &&& i.segs_out == word_of(more, 0, e) as u32
            &&& i.segs_in == word_of(more, 1, e) as u32
            &&& i.notsent_bytes == word_of(more, 2, e) as u32
            &&& i.min_rtt == word_of(more, 3, e) as u32
            &&& i.data_segs_in == word_of(more, 4, e) as u32
            &&& i.data_segs_out == word_of(more, 5, e) as u32
            &&& i.delivery_rate == long_of(last, 0, e) as u64
        }),
{
    let s = head + words + longs + more + last;
    let b1 = head + words;
    let b2 = b1 + longs;
    let b3 = b2 + more;
    assert(s =~= head + words + (longs + more + last));
    assert(s =~= b1 + longs + (more + last));
    assert(s =~= b2 + more + last);
    assert(s =~= b3 + last + Seq::<u8>::empty());
    assert forall|k: int| 0 <= k < 24 implies number_at(s, 8 + 4 * k, 4, e) == #[trigger] word_of(
        words,
        k,
        e,
    ) by {
        lemma_word_in(s, head, words, longs + more + last, k, e);
    }
    assert forall|k: int| 0 <= k < 4 implies number_at(s, 104 + 8 * k, 8, e) == #[trigger] long_of(
        longs,
        k,
        e,
    ) by {
        lemma_long_in(s, b1, longs, more + last, k, e);
    }
    assert forall|k: int| 0 <= k < 6 implies number_at(s, 136 + 4 * k, 4, e) == #[trigger] word_of(
        more,
        k,
        e,
    ) by {
        lemma_word_in(s, b2, more, last, k, e);
    }
    lemma_long_in(s, b3, last, Seq::<u8>::empty(), 0, e);
}

proof fn lemma_number_shift(data: Seq<u8>, k: int, at: int, n: int, e: Endian)
    requires
        0 <= k <= data.len(),
        0 <= at,
        0 <= n,
    ensures
        number_at(data, k + at, n, e) == number_at(data.skip(k), at, n, e),
{
    if k + at + n <= data.len() {
        assert(data.subrange(k + at, k + at + n) =~= data.skip(k).subrange(at, at + n));
    }
}

/// Reading from a place on is reading what follows that place.
proof fn lemma_dump_shift(data: Seq<u8>, k: int, at: int, protocol: u8, e: Endian)
    requires
        0 <= k <= data.len(),
        0 <= at,
    ensures
        dump_from(data, k + at, protocol, e) == dump_from(data.skip(k), at, protocol, e),
    decreases data.len() + 4 - (k + at),
{
    reveal(dump_from);
    let t = data.skip(k);
    if k + at + HEADER_LEN <= data.len() {
        lemma_number_shift(data, k, at, 4, e);
        lemma_number_shift(data, k, at + 4, 2, e);
        let len = number_at(data, k + at, 4, e) as int;
        if len >= HEADER_LEN && k + at + len <= data.len() {
            lemma_dump_shift(data, k, at + aligned(len), protocol, e);
            assert(data.subrange(k + at + HEADER_LEN, k + at + len) =~= t.subrange(
                at + HEADER_LEN,
                at + len,
            ));
        }
    }
}

/// A dump is read message by message: what one of a socket says comes first, and then what the
/// rest of the dump says; the end of the dump ends it, whatever follows.
pub proof fn lemma_dump_goes_on(m: Seq<u8>, rest: Seq<u8>, protocol: u8, e: Endian)
    requires
        m.len() >= 16,
        16 <= number_at(m, 0, 4, e) <= m.len(),
        m.len() < number_at(m, 0, 4, e) + 4,
        m.len() % 4 == 0,
    ensures
        ({
            let len = number_at(m, 0, 4, e) as int;
            let kind = number_at(m, 4, 2, e);
            let whole = dump_from(m + rest, 0, protocol, e);
            let later = dump_from(rest, 0, protocol, e);
            &&& kind == 3 || kind == 2 ==> whole.0.len() == 0 && whole.1
            &&& kind == 20 && len >= 16 + 72 ==> whole.1 == later.1 && whole.0 == seq![
                conn_in(m.subrange(16, len), protocol, e),
            ] + later.0
            &&& kind != 2 && kind != 3 && (kind != 20 || len < 16 + 72) ==> whole == later
        }),
{
    reveal(dump_from);
    let data = m + rest;
    let len = number_at(m, 0, 4, e) as int;
    assert(data.subrange(0, 4) =~= m.subrange(0, 4));
    assert(data.subrange(4, 6) =~= m.subrange(4, 6));
    assert(aligned(len) == m.len());
    lemma_dump_shift(data, m.len() as int, 0, protocol, e);
    assert(data.skip(m.len() as int) =~= rest);
    assert(data.subrange(16, len) =~= m.subrange(16, len));
}

/// Of two connections that are shown the first weighs no less; those that weigh the same stand as
/// they did; and each is shown once.
pub proof fn lemma_ranked(es: Seq<Shown>) -> (o: Seq<int>)
    requires
        es.len() <= usize::MAX,
    ensures
        ranked(es).len() == es.len(),
        o.len() == es.len(),
        o.no_duplicates(),
        forall|i: int| 0 <= i < o.len() ==> 0 <= #[trigger] o[i] < es.len() && ranked(es)[i] == es[o[i]],
        forall|i: int, j: int|
            0 <= i < j < es.len() ==> (#[trigger] ranked(es)[i]).weight >= (#[trigger] ranked(
                es,
            )[j]).weight,
        forall|i: int, j: int|
            0 <= i < j < es.len() && ranked(es)[i].weight == ranked(es)[j].weight ==> #[trigger] o[i]
                < #[trigger] o[j],
{
    let keys = Seq::new(es.len(), |i: int| (-es[i].weight) as i128);
    lemma_order_exists(keys);
    let r = choose|r: Seq<usize>| is_order(keys, r);
    lemma_sorted(es, keys, r);
    let s = ranked(es);
    assert(s == sorted_by(es, keys));
    let o = Seq::new(r.len(), |i: int| r[i] as int);
    assert forall|i: int, j: int| 0 <= i < o.len() && 0 <= j < o.len() && i != j implies o[i]
        != o[j] by {
        lemma_order_distinct(keys, r, i, j);
    }
    assert forall|i: int, j: int| 0 <= i < j < es.len() implies (#[trigger] s[i]).weight >= (
    #[trigger] s[j]).weight by {
        assert(goes_before(keys, r[i] as int, r[j] as int));
    }
    assert forall|i: int, j: int|
        0 <= i < j < es.len() && s[i].weight == s[j].weight implies #[trigger] o[i]
        < #[trigger] o[j] by {
        assert(goes_before(keys, r[i] as int, r[j] as int));
    }
    o
}

/// The bytes that came in are told as received and those that went out as sent, in the totals, in
/// the segments and in the times.
pub proof fn lemma_traffic_lines(c: RawConn<Seq<char>>, x: Context)
    requires
        c.protocol == IPPROTO_TCP,
        x.received@.len() > 0,
        x.sent@.len() > 0,
    ensures
        ({
            let f = traffic_lines(c, x);
            &&& f[1] == ("Recebido"@, human(c.info.bytes_received as nat))
            &&& f[2] == ("Enviado"@, human(c.info.bytes_acked as nat))
            &&& f[3] == ("Segmentos"@, both_ways(c.info.segs_in, c.info.segs_out))
            &&& f[4] == ("Destes, com dados"@, both_ways(c.info.data_segs_in, c.info.data_segs_out))
            &&& f[5] == ("Último recebimento"@, since_text(c.info.last_data_recv, x.received@))
            &&& f[6] == ("Último envio"@, since_text(c.info.last_data_sent, x.sent@))
            &&& f[7] == ("Fila de recepção"@, human(c.rqueue as nat) + " esperando o processo ler"@)
            &&& f[8] == ("Fila de envio"@, human(c.wqueue as nat) + " esperando a rede"@)
        }),
{
    reveal_strlit("↓");
    reveal_strlit(" recebidos · ");
    reveal_strlit(" ms");
    reveal_strlit(" esperando o processo ler");
    reveal_strlit(" esperando a rede");
    assert(human(c.info.bytes_received as nat).len() > 0);
    assert(human(c.info.bytes_acked as nat).len() > 0);
    assert("↓"@.len() == 1);
    assert(" recebidos · "@.len() > 0 && " ms"@.len() > 0);
}

/// What moved between two readings is told each way as it went: what came in is what the received
/// counter grew by, and what went out what the acknowledged one did.
pub proof fn lemma_moved_between(a: Count, b: Count)
    requires
        a.acked <= b.acked,
        a.received <= b.received,
        a.at <= b.at,
    ensures
        a.received + moved_between(a, b).down == b.received,
        a.acked + moved_between(a, b).up == b.acked,
        a.at + moved_between(a, b).ms == b.at,
{
}

/// A tunnel of a connection leads to an end that it has: the far one first, and the near one unless
/// it is the same.
pub proof fn lemma_tunnels_of(c: RawConn<Seq<char>>, proto: Seq<char>)
    ensures
        ({
            let t = tunnels_of(c, proto);
            let far = c.remote_port != 0 && c.remote_ip.len() > 0;
            let near = c.local_port != 0 && c.local_ip.len() > 0;
            &&& far ==> t.len() > 0 && t[0] == tunnel(proto, c.remote_ip, c.remote_port, "o outro lado"@)
            &&& near && !far ==> t == seq![tunnel(proto, c.local_ip, c.local_port, "este lado"@)]
            &&& near && far && c.near() != c.far() ==> t.len() == 2 && t[1] == tunnel(
                proto,
                c.local_ip,
                c.local_port,
                "este lado"@,
            )
            &&& !near && !far ==> t.len() == 0
            &&& far && (!near || c.near() == c.far()) ==> t.len() == 1
        }),
{
    let t = tunnels_of(c, proto);
    let far = c.remote_port != 0 && c.remote_ip.len() > 0;
    let near = c.local_port != 0 && c.local_ip.len() > 0;
    if near && !far {
        assert(t =~= seq![tunnel(proto, c.local_ip, c.local_port, "este lado"@)]);
    }
}

} // verus!
