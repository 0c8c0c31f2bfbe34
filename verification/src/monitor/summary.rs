//! Who and what this machine is.

use vstd::prelude::*;
use crate::dict::{find_word, lemma_place, under, words_of};
use crate::number::{
    all_digits, dec, decimal, hexadecimal, human, human_bytes, lemma_decimal_reads_back, natural,
    parse_upto, within, zero_fill, zero_filled,
};
use crate::pick::picked;
use crate::scan::{find_for, find_in, pick_in};
use crate::text::{
    ascii_lower, begins, cat3, cat4, cat5, chars_of, contains, cut_once, first_some, holds,
    is_without, join, joined, lines, lower_ascii, maybe, past, pieces, same, split, split_lines,
    split_once, split_words, starts_with, strip_prefix, trim, trim_of, trimmed, trimmed_of, views,
    words, Cut,
};
use crate::monitor::iface::{below_header, holder, interface_of, is_wildcard, Held};
use crate::monitor::ip::{address_of, hex_ipv4, ipv4_text};
use crate::monitor::process_detail::or_empty;
use crate::monitor::resolve::{user_line, user_name};

verus! {

/// The headers of the table.
pub const HEADERS: [&'static str; 2] = ["Field", "Value"];

// --- small files ---------------------------------------------------------------------------------------------

/// The one line of a file, unless it is blank.
pub open spec fn line_of(content: Option<Seq<char>>) -> Option<Seq<char>> {
    match content {
        Some(c) => if trimmed(c).len() > 0 {
            Some(trimmed(c))
        } else {
            None
        },
        None => None,
    }
}

/// The one line of a file, unless it is blank.
pub fn read_line(content: &Option<String>) -> (r: Option<String>)
    ensures
        maybe(r) == line_of(maybe(*content)),
{
    match content {
        Some(c) => {
            let t = trim(c.as_str());
            if t.as_str().is_empty() {
                None
            } else {
                Some(t)
            }
        },
        None => None,
    }
}

/// A text, or a mark for one that is not there.
pub open spec fn or_mark(o: Option<Seq<char>>) -> Seq<char> {
    match o {
        Some(s) => s,
        None => "?"@,
    }
}

fn or_question(o: Option<String>) -> (r: String)
    ensures
        r@ == or_mark(maybe(o)),
{
    match o {
        Some(s) => s,
        None => "?".to_owned(),
    }
}

/// The name of the machine.
pub fn hostname(content: &Option<String>) -> (r: String)
    ensures
        r@ == or_mark(line_of(maybe(*content))),
{
    or_question(read_line(content))
}

/// The lines of a file; none of one that is not there.
pub open spec fn lines_in(content: Option<Seq<char>>) -> Seq<Seq<char>> {
    match content {
        Some(c) => lines(c),
        None => Seq::empty(),
    }
}

/// The lines of a file.
pub fn read_lines(content: &Option<String>) -> (r: Vec<String>)
    ensures
        views(r@) == lines_in(maybe(*content)),
{
    match content {
        Some(c) => split_lines(c.as_str()),
        None => {
            let r: Vec<String> = Vec::new();
            assert(views(r@) =~= Seq::empty());
            r
        },
    }
}

/// The lines of a table without its header; none of one that is not there.
pub open spec fn rows_in(content: Option<Seq<char>>) -> Seq<Seq<char>> {
    match content {
        Some(c) => below_header(c),
        None => Seq::empty(),
    }
}

/// The lines of a table without its header.
pub fn read_rows(content: &Option<String>) -> (r: Vec<String>)
    ensures
        views(r@) == rows_in(maybe(*content)),
{
    let mut r: Vec<String> = Vec::new();
    match content {
        Some(c) => {
            let ls = split_lines(c.as_str());
            let ghost vs = views(ls@);
            assert(vs.len() == ls@.len());
            if ls.len() == 0 {
                assert(views(r@) =~= vs);
                return r;
            }
            for i in 1..ls.len()
                invariant
                    vs == views(ls@),
                    ls@.len() > 0,
                    views(r@) =~= vs.skip(1).take(i - 1),
            {
                let ghost before = views(r@);
                r.push(ls[i].clone());
                assert(views(r@) =~= before.push(ls@[i as int]@));
            }
            assert(vs.skip(1).take(ls@.len() - 1) =~= vs.skip(1));
        },
        None => {
            assert(views(r@) =~= Seq::empty());
        },
    }
    r
}

// --- the user ------------------------------------------------------------------------------------------------

/// The user that logged in, where the machine recorded one.
pub open spec fn login_user(loginuid: Option<Seq<char>>, passwd: Option<Seq<char>>) -> Option<
    Seq<char>,
> {
    match (loginuid, passwd) {
        (Some(s), Some(users)) => match within(natural(trimmed(s)), u32::MAX as nat) {
            Some(uid) => if uid == u32::MAX {
                None
            } else {
                first_some(lines(users), |l: Seq<char>| user_line(l, uid as u32))
            },
            None => None,
        },
        _ => None,
    }
}

/// The user of the machine: the one that logged in, or else what the environment says.
pub open spec fn user_of(
    loginuid: Option<Seq<char>>,
    passwd: Option<Seq<char>>,
    user: Option<Seq<char>>,
    logname: Option<Seq<char>>,
) -> Seq<char> {
    match (login_user(loginuid, passwd), user, logname) {
        (Some(n), _, _) => n,
        (None, Some(n), _) => n,
        (None, None, Some(n)) => n,
        (None, None, None) => "?"@,
    }
}

/// The user of the machine, rather than the owner of this process.
pub fn current_user(
    loginuid: &Option<String>,
    passwd: &Option<String>,
    user: &Option<String>,
    logname: &Option<String>,
) -> (r: String)
    ensures
        r@ == user_of(maybe(*loginuid), maybe(*passwd), maybe(*user), maybe(*logname)),
{
    let logged = match (loginuid, passwd) {
        (Some(s), Some(users)) => {
            match parse_upto(trim(s.as_str()).as_str(), u32::MAX as u64) {
                Some(uid) => if uid == u32::MAX as u64 {
                    None
                } else {
                    user_name(users.as_str(), uid as u32)
                },
                None => None,
            }
        },
        _ => None,
    };
    match logged {
        Some(n) => n,
        None => match user {
            Some(n) => n.clone(),
            None => match logname {
                Some(n) => n.clone(),
                None => "?".to_owned(),
            },
        },
    }
}

// --- its place on the network --------------------------------------------------------------------------------

/// The server that a line names.
pub open spec fn server_line(line: Seq<char>) -> Option<Seq<char>> {
    match past(line, "nameserver "@) {
        Some(rest) => Some(trimmed(rest)),
        None => None,
    }
}

/// The name servers on one line.
pub open spec fn servers_text(content: Option<Seq<char>>) -> Seq<char> {
    let v = picked(lines_in(content), |l: Seq<char>| server_line(l));
    if v.len() == 0 {
        "?"@
    } else {
        joined(v, ", "@)
    }
}

fn read_server(line: &str) -> (r: Option<String>)
    ensures
        maybe(r) == server_line(line@),
{
    match strip_prefix(line, "nameserver ") {
        Some(rest) => Some(trim(rest.as_str())),
        None => None,
    }
}

/// The name servers on one line.
pub fn dns_servers(content: &Option<String>) -> (r: String)
    ensures
        r@ == servers_text(maybe(*content)),
{
    let v = pick_in(
        &read_lines(content),
        read_server,
        Ghost(|l: Seq<char>| server_line(l)),
    );
    assert(views(v@).len() == v@.len());
    if v.len() == 0 {
        "?".to_owned()
    } else {
        join(v.as_slice(), ", ")
    }
}

/// The gateway of a route to anywhere, where it has one.
pub open spec fn gateway_line(line: Seq<char>) -> Option<Seq<char>> {
    let f = words(line);
    if f.len() < 3 {
        None
    } else if f[1] == "00000000"@ && f[2] != "00000000"@ {
        hex_address(f[2])
    } else {
        None
    }
}

/// The address that hexadecimal digits write, as text.
pub open spec fn hex_address(s: Seq<char>) -> Option<Seq<char>> {
    match within(hexadecimal(s), u32::MAX as nat) {
        Some(n) => Some(ipv4_text(address_of(n).octets())),
        None => None,
    }
}

fn read_address(s: &str) -> (r: Option<String>)
    ensures
        maybe(r) == hex_address(s@),
{
    match hex_ipv4(s) {
        Some(ip) => Some(ip.text()),
        None => None,
    }
}

fn read_gateway(line: &str) -> (r: Option<String>)
    ensures
        maybe(r) == gateway_line(line@),
{
    let f = split_words(line);
    assert(views(f@).len() == f@.len());
    if f.len() < 3 {
        return None;
    }
    assert(views(f@)[1] == f@[1]@ && views(f@)[2] == f@[2]@);
    if same(f[1].as_str(), "00000000") && !same(f[2].as_str(), "00000000") {
        read_address(f[2].as_str())
    } else {
        None
    }
}

/// The gateway of the default route.
pub fn default_gateway(content: &Option<String>) -> (r: Option<String>)
    ensures
        maybe(r) == first_some(rows_in(maybe(*content)), |l: Seq<char>| gateway_line(l)),
{
    find_in(
        &read_rows(content),
        read_gateway,
        Ghost(|l: Seq<char>| gateway_line(l)),
    )
}

/// The address that traffic leaves by, and the interface it leaves through.
pub open spec fn outbound_text(ip: Option<Seq<char>>, held: Seq<Held>) -> Seq<char> {
    match ip {
        None => "sem rota de saída"@,
        Some(a) => match (if a.len() == 0 || is_wildcard(a) {
            None
        } else {
            holder(held, a)
        }) {
            Some(i) => a + "  ·  "@ + i,
            None => a,
        },
    }
}

/// The address that traffic leaves by, and the interface it leaves through.
pub fn outbound_address(ip: &Option<String>, held: &Vec<Held>) -> (r: String)
    ensures
        r@ == outbound_text(maybe(*ip), held@),
{
    match ip {
        None => "sem rota de saída".to_owned(),
        Some(a) => match interface_of(held, a.as_str()) {
            Some(i) => cat3(a.as_str(), "  ·  ", i.as_str()),
            None => a.clone(),
        },
    }
}

// --- the firmware --------------------------------------------------------------------------------------------

/// A field that its maker did not fill in.
pub open spec fn is_blank(value: Seq<char>) -> bool {
    let v = ascii_lower(value);
    value.len() == 0 || v == "to be filled by o.e.m."@ || v == "default string"@ || v
        == "system product name"@ || v == "unknown"@
}

/// What the firmware says of a field, where it says something.
pub open spec fn dmi_of(d: Seq<(Seq<char>, Seq<char>)>, field: Seq<char>) -> Option<Seq<char>> {
    match under(d, field) {
        Some(c) => if is_blank(trimmed(c)) {
            None
        } else {
            Some(trimmed(c))
        },
        None => None,
    }
}

/// What the firmware says of a field, where it says something, by the files it left.
pub fn dmi(d: &Vec<(String, String)>, field: &str) -> (r: Option<String>)
    ensures
        maybe(r) == dmi_of(words_of(d@), field@),
{
    match find_word(d, field) {
        None => None,
        Some(i) => {
            proof {
                lemma_place(words_of(d@), field@);
            }
            let value = trim(d[i].1.as_str());
            let v = lower_ascii(value.as_str());
            let blank = value.as_str().is_empty() || same(v.as_str(), "to be filled by o.e.m.")
                || same(v.as_str(), "default string") || same(v.as_str(), "system product name")
                || same(v.as_str(), "unknown");
            if blank {
                None
            } else {
                Some(value)
            }
        },
    }
}

/// The form of a machine, by the number of its chassis.
pub open spec fn chassis_text(n: Seq<char>) -> Option<Seq<char>> {
    if n == "3"@ || n == "4"@ || n == "6"@ || n == "7"@ || n == "15"@ || n == "24"@ {
        Some("desktop"@)
    } else if n == "5"@ || n == "17"@ || n == "23"@ || n == "25"@ {
        Some("servidor"@)
    } else if n == "8"@ || n == "9"@ || n == "10"@ || n == "14"@ {
        Some("notebook"@)
    } else if n == "11"@ || n == "30"@ || n == "31"@ || n == "32"@ {
        Some("portátil"@)
    } else if n == "13"@ {
        Some("all-in-one"@)
    } else {
        None
    }
}

/// The form of the machine, as its firmware has it.
pub open spec fn chassis_of(d: Seq<(Seq<char>, Seq<char>)>) -> Option<Seq<char>> {
    match dmi_of(d, "chassis_type"@) {
        Some(n) => chassis_text(n),
        None => None,
    }
}

/// The form of the machine.
pub fn chassis(d: &Vec<(String, String)>) -> (r: Option<String>)
    ensures
        maybe(r) == chassis_of(words_of(d@)),
{
    match dmi(d, "chassis_type") {
        None => None,
        Some(t) => {
            let n = t.as_str();
            if same(n, "3") || same(n, "4") || same(n, "6") || same(n, "7") || same(n, "15")
                || same(n, "24") {
                Some("desktop".to_owned())
            } else if same(n, "5") || same(n, "17") || same(n, "23") || same(n, "25") {
                Some("servidor".to_owned())
            } else if same(n, "8") || same(n, "9") || same(n, "10") || same(n, "14") {
                Some("notebook".to_owned())
            } else if same(n, "11") || same(n, "30") || same(n, "31") || same(n, "32") {
                Some("portátil".to_owned())
            } else if same(n, "13") {
                Some("all-in-one".to_owned())
            } else {
                None
            }
        },
    }
}

/// How many bytes a character takes.
pub open spec fn width_of(c: char) -> nat {
    if (c as u32) < 0x80 {
        1
    } else if (c as u32) < 0x800 {
        2
    } else if (c as u32) < 0x10000 {
        3
    } else {
        4
    }
}

/// How many bytes a text takes.
pub open spec fn bytes_in(s: Seq<char>) -> nat
    decreases s.len(),
{
    if s.len() == 0 {
        0
    } else {
        bytes_in(s.drop_last()) + width_of(s.last())
    }
}

/// Whether a text takes four bytes.
fn is_four_bytes(s: &str) -> (r: bool)
    ensures
        r == (bytes_in(s@) == 4),
{
    let v = chars_of(s);
    let mut n: usize = 0;
    assert(v@.take(0) =~= Seq::empty());
    for i in 0..v.len()
        invariant
            n == bytes_in(v@.take(i as int)) || (n == 5 && bytes_in(v@.take(i as int)) >= 5),
            n <= 5,
    {
        assert(v@.take(i + 1).drop_last() =~= v@.take(i as int));
        let c: u32 = v[i] as u32;
        let w: usize = if c < 0x80 {
            1
        } else if c < 0x800 {
            2
        } else if c < 0x10000 {
            3
        } else {
            4
        };
        n = if n + w > 5 {
            5
        } else {
            n + w
        };
    }
    assert(v@.take(v@.len() as int) =~= v@);
    n == 4
}

/// A date with its month first, brought to one with its year first.
pub open spec fn iso_text(date: Seq<char>) -> Seq<char> {
    let p = pieces(date, Cut::At('/'));
    if p.len() == 3 && bytes_in(p[2]) == 4 {
        p[2] + "-"@ + zero_filled(p[0], 2) + "-"@ + zero_filled(p[1], 2)
    } else {
        date
    }
}

/// Brings a date with its month first to one with its year first; any other text stays.
pub fn iso_date(date: &str) -> (r: String)
    ensures
        r@ == iso_text(date@),
{
    let p = split(date, Cut::At('/'));
    assert(views(p@).len() == p@.len());
    if p.len() == 3 {
        assert(views(p@)[0] == p@[0]@ && views(p@)[1] == p@[1]@ && views(p@)[2] == p@[2]@);
        if is_four_bytes(p[2].as_str()) {
            let month = zero_fill(p[0].as_str(), 2);
            let day = zero_fill(p[1].as_str(), 2);
            return cat5(p[2].as_str(), "-", month.as_str(), "-", day.as_str());
        }
    }
    date.to_owned()
}

/// What is made of two names, where there is at least one.
pub open spec fn both(a: Option<Seq<char>>, b: Option<Seq<char>>) -> Option<Seq<char>> {
    match (a, b) {
        (Some(x), Some(y)) => Some(x + " "@ + y),
        (Some(x), None) => Some(x),
        (None, Some(y)) => Some(y),
        (None, None) => None,
    }
}

/// A piece behind what is there.
pub open spec fn then_part(s: Seq<char>, lead: Seq<char>, part: Option<Seq<char>>) -> Seq<char> {
    match part {
        Some(p) => s + lead + p,
        None => s,
    }
}

/// The firmware, as it reads.
pub open spec fn bios_text(d: Seq<(Seq<char>, Seq<char>)>) -> Option<Seq<char>> {
    match dmi_of(d, "bios_version"@) {
        Some(v) => Some(
            match dmi_of(d, "bios_date"@) {
                Some(t) => v + " ("@ + iso_text(t) + ")"@,
                None => v,
            },
        ),
        None => None,
    }
}

/// Maker, model, form and firmware on one line.
pub open spec fn machine_text(d: Seq<(Seq<char>, Seq<char>)>) -> Option<Seq<char>> {
    match both(dmi_of(d, "sys_vendor"@), dmi_of(d, "product_name"@)) {
        None => None,
        Some(s) => Some(
            then_part(then_part(s, "  ·  "@, chassis_of(d)), "  ·  BIOS "@, bios_text(d)),
        ),
    }
}

fn join_both(a: Option<String>, b: Option<String>) -> (r: Option<String>)
    ensures
        maybe(r) == both(maybe(a), maybe(b)),
{
    match (a, b) {
        (Some(x), Some(y)) => Some(cat3(x.as_str(), " ", y.as_str())),
        (Some(x), None) => Some(x),
        (None, Some(y)) => Some(y),
        (None, None) => None,
    }
}

fn add_part(s: String, lead: &str, part: Option<String>) -> (r: String)
    ensures
        r@ == then_part(s@, lead@, maybe(part)),
{
    match part {
        Some(p) => cat3(s.as_str(), lead, p.as_str()),
        None => s,
    }
}

fn write_bios(d: &Vec<(String, String)>) -> (r: Option<String>)
    ensures
        maybe(r) == bios_text(words_of(d@)),
{
    match dmi(d, "bios_version") {
        Some(v) => match dmi(d, "bios_date") {
            Some(t) => Some(cat4(v.as_str(), " (", iso_date(t.as_str()).as_str(), ")")),
            None => Some(v),
        },
        None => None,
    }
}

/// Maker, model, form and firmware on one line, where the firmware names the machine.
pub fn machine_summary(d: &Vec<(String, String)>) -> (r: Option<String>)
    ensures
        maybe(r) == machine_text(words_of(d@)),
{
    match join_both(dmi(d, "sys_vendor"), dmi(d, "product_name")) {
        None => None,
        Some(s) => {
            let a = add_part(s, "  ·  ", chassis(d));
            Some(add_part(a, "  ·  BIOS ", write_bios(d)))
        },
    }
}

/// The board, where it says something that the name of the machine does not.
pub open spec fn board_text(d: Seq<(Seq<char>, Seq<char>)>) -> Option<Seq<char>> {
    let product = or_empty(dmi_of(d, "product_name"@));
    match dmi_of(d, "board_name"@) {
        None => None,
        Some(name) => if name == product {
            None
        } else {
            match dmi_of(d, "board_vendor"@) {
                Some(vendor) => if begins(product, vendor) {
                    Some(name)
                } else {
                    Some(vendor + " "@ + name)
                },
                None => Some(name),
            }
        },
    }
}

fn or_nothing(o: Option<String>) -> (r: String)
    ensures
        r@ == or_empty(maybe(o)),
{
    match o {
        Some(s) => s,
        None => {
            let r = String::new();
            assert(r@ =~= Seq::empty());
            r
        },
    }
}

/// The board, where it says something that the name of the machine does not.
pub fn board_summary(d: &Vec<(String, String)>) -> (r: Option<String>)
    ensures
        maybe(r) == board_text(words_of(d@)),
{
    match dmi(d, "board_name") {
        None => None,
        Some(name) => {
            let product = or_nothing(dmi(d, "product_name"));
            if same(name.as_str(), product.as_str()) {
                return None;
            }
            match dmi(d, "board_vendor") {
                Some(vendor) => if starts_with(product.as_str(), vendor.as_str()) {
                    Some(name)
                } else {
                    Some(cat3(vendor.as_str(), " ", name.as_str()))
                },
                None => Some(name),
            }
        },
    }
}

/// The kind of container that the control groups of the first process show.
pub open spec fn container_text(cgroup: Option<Seq<char>>) -> Option<Seq<char>> {
    match cgroup {
        None => None,
        Some(c) => if holds(c, "docker"@) {
            Some("contêiner Docker"@)
        } else if holds(c, "lxc"@) {
            Some("contêiner LXC"@)
        } else if holds(c, "kubepods"@) {
            Some("pod Kubernetes"@)
        } else {
            None
        },
    }
}

/// The hypervisor that a name of a machine shows.
pub open spec fn hypervisor_text(hint: Seq<char>) -> Option<Seq<char>> {
    if holds(hint, "KVM"@) {
        Some("KVM"@)
    } else if holds(hint, "QEMU"@) {
        Some("QEMU"@)
    } else if holds(hint, "VirtualBox"@) {
        Some("VirtualBox"@)
    } else if holds(hint, "VMware"@) {
        Some("VMware"@)
    } else if holds(hint, "Hyper-V"@) {
        Some("Hyper-V"@)
    } else if holds(hint, "Virtual Machine"@) {
        Some("Hyper-V"@)
    } else if holds(hint, "Xen"@) {
        Some("Xen"@)
    } else if holds(hint, "Parallels"@) {
        Some("Parallels"@)
    } else if holds(hint, "Amazon EC2"@) {
        Some("Amazon EC2"@)
    } else if holds(hint, "Google"@) {
        Some("Google Compute Engine"@)
    } else {
        None
    }
}

/// What the machine runs on top of, where it does.
pub open spec fn virtual_text(
    dockerenv: bool,
    cgroup: Option<Seq<char>>,
    d: Seq<(Seq<char>, Seq<char>)>,
) -> Option<Seq<char>> {
    if dockerenv {
        Some("contêiner Docker"@)
    } else {
        match container_text(cgroup) {
            Some(t) => Some(t),
            None => hypervisor_text(
                or_empty(dmi_of(d, "sys_vendor"@)) + " "@ + or_empty(dmi_of(d, "product_name"@)),
            ),
        }
    }
}

fn name_container(cgroup: &Option<String>) -> (r: Option<String>)
    ensures
        maybe(r) == container_text(maybe(*cgroup)),
{
    match cgroup {
        None => None,
        Some(t) => {
            let c = t.as_str();
            if contains(c, "docker") {
                Some("contêiner Docker".to_owned())
            } else if contains(c, "lxc") {
                Some("contêiner LXC".to_owned())
            } else if contains(c, "kubepods") {
                Some("pod Kubernetes".to_owned())
            } else {
                None
            }
        },
    }
}

fn name_hypervisor(hint: &str) -> (r: Option<String>)
    ensures
        maybe(r) == hypervisor_text(hint@),
{
    if contains(hint, "KVM") {
        Some("KVM".to_owned())
    } else if contains(hint, "QEMU") {
        Some("QEMU".to_owned())
    } else if contains(hint, "VirtualBox") {
        Some("VirtualBox".to_owned())
    } else if contains(hint, "VMware") {
        Some("VMware".to_owned())
    } else if contains(hint, "Hyper-V") {
        Some("Hyper-V".to_owned())
    } else if contains(hint, "Virtual Machine") {
        Some("Hyper-V".to_owned())
    } else if contains(hint, "Xen") {
        Some("Xen".to_owned())
    } else if contains(hint, "Parallels") {
        Some("Parallels".to_owned())
    } else if contains(hint, "Amazon EC2") {
        Some("Amazon EC2".to_owned())
    } else if contains(hint, "Google") {
        Some("Google Compute Engine".to_owned())
    } else {
        None
    }
}

/// What the machine runs on top of, where it does. On bare metal there is nothing to say.
pub fn virtualization(dockerenv: bool, cgroup: &Option<String>, d: &Vec<(String, String)>) -> (r:
    Option<String>)
    ensures
        maybe(r) == virtual_text(dockerenv, maybe(*cgroup), words_of(d@)),
{
    if dockerenv {
        return Some("contêiner Docker".to_owned());
    }
    match name_container(cgroup) {
        Some(t) => Some(t),
        None => {
            let vendor = or_nothing(dmi(d, "sys_vendor"));
            let product = or_nothing(dmi(d, "product_name"));
            name_hypervisor(cat3(vendor.as_str(), " ", product.as_str()).as_str())
        },
    }
}

// --- the system ----------------------------------------------------------------------------------------------

/// What a line says of a key, unquoted.
pub open spec fn release_line(line: Seq<char>, key: Seq<char>) -> Option<Seq<char>> {
    match cut_once(line, Cut::At('=')) {
        Some((name, value)) => if trimmed(name) == key {
            Some(trimmed_of(trimmed(value), Cut::At('"')))
        } else {
            None
        },
        None => None,
    }
}

/// What the distribution says of a key.
pub open spec fn release_of(content: Option<Seq<char>>, key: Seq<char>) -> Option<Seq<char>> {
    first_some(lines_in(content), |l: Seq<char>| release_line(l, key))
}

fn read_release(line: &str, key: &str) -> (r: Option<String>)
    ensures
        maybe(r) == release_line(line@, key@),
{
    match split_once(line, '=') {
        Some((name, value)) => {
            if same(trim(name.as_str()).as_str(), key) {
                Some(trim_of(trim(value.as_str()).as_str(), Cut::At('"')))
            } else {
                None
            }
        },
        None => None,
    }
}

/// What the distribution says of a key, unquoted.
pub fn os_release(content: &Option<String>, key: &str) -> (r: Option<String>)
    ensures
        maybe(r) == release_of(maybe(*content), key@),
{
    find_for(
        &read_lines(content),
        key,
        read_release,
        Ghost(|l: Seq<char>| release_line(l, key@)),
    )
}

/// The distribution as it names itself.
pub open spec fn distribution_of(content: Option<Seq<char>>, system: Option<Seq<char>>) -> Option<
    Seq<char>,
> {
    match (release_of(content, "NAME"@), release_of(content, "VERSION"@)) {
        (Some(name), Some(version)) => Some(name + " "@ + version),
        (Some(name), None) => Some(name),
        _ => match release_of(content, "PRETTY_NAME"@) {
            Some(t) => Some(t),
            None => system,
        },
    }
}

/// The distribution as it names itself: by name and version, which has the code name, or by
/// what else is there.
pub fn distribution(content: &Option<String>, system: &Option<String>) -> (r: Option<String>)
    ensures
        maybe(r) == distribution_of(maybe(*content), maybe(*system)),
{
    match (os_release(content, "NAME"), os_release(content, "VERSION")) {
        (Some(name), Some(version)) => Some(cat3(name.as_str(), " ", version.as_str())),
        (Some(name), None) => Some(name),
        _ => match os_release(content, "PRETTY_NAME") {
            Some(t) => Some(t),
            None => match system {
                Some(t) => Some(t.clone()),
                None => None,
            },
        },
    }
}

/// Distribution, kernel and architecture on one line.
pub open spec fn os_text(
    content: Option<Seq<char>>,
    system: Option<Seq<char>>,
    kernel: Option<Seq<char>>,
    arch: Seq<char>,
) -> Seq<char> {
    let d = match distribution_of(content, system) {
        Some(t) => t,
        None => "Linux"@,
    };
    then_part(d, "  ·  kernel "@, kernel) + "  ·  "@ + arch
}

/// Distribution, kernel and architecture on one line.
pub fn os_summary(
    content: &Option<String>,
    system: &Option<String>,
    kernel: &Option<String>,
    arch: &str,
) -> (r: String)
    ensures
        r@ == os_text(maybe(*content), maybe(*system), maybe(*kernel), arch@),
{
    let d = match distribution(content, system) {
        Some(t) => t,
        None => "Linux".to_owned(),
    };
    let k = match kernel {
        Some(t) => Some(t.clone()),
        None => None,
    };
    let a = add_part(d, "  ·  kernel ", k);
    cat3(a.as_str(), "  ·  ", arch)
}

/// The processors on one line.
pub fn cpu_summary(count: usize, brand: &Option<String>) -> (r: String)
    ensures
        r@ == (match maybe(*brand) {
            Some(b) => decimal(count as nat) + " cores · "@ + b,
            None => "?"@,
        }),
{
    match brand {
        Some(b) => cat3(dec(count as u64).as_str(), " cores · ", b.as_str()),
        None => "?".to_owned(),
    }
}

/// The size of the main disk.
pub fn disk_summary(total: Option<u64>) -> (r: String)
    ensures
        r@ == (match total {
            Some(n) => human(n as nat),
            None => "?"@,
        }),
{
    match total {
        Some(n) => human_bytes(n),
        None => "?".to_owned(),
    }
}

/// The graphics card on one line.
pub open spec fn gpu_text(name: Option<Seq<char>>, total: Option<u64>) -> Option<Seq<char>> {
    match total {
        Some(n) => Some((match name {
            Some(s) => s,
            None => "GPU"@,
        }) + " · "@ + human(n as nat)),
        None => None,
    }
}

/// The graphics card on one line, where its memory is known.
pub fn gpu_summary(name: &Option<String>, total: Option<u64>) -> (r: Option<String>)
    ensures
        maybe(r) == gpu_text(maybe(*name), total),
{
    match total {
        Some(n) => {
            let h = human_bytes(n);
            match name {
                Some(s) => Some(cat3(s.as_str(), " · ", h.as_str())),
                None => Some(cat3("GPU", " · ", h.as_str())),
            }
        },
        None => None,
    }
}

/// A date of the firmware, month first, reads with the year first.
pub proof fn lemma_iso_text(m: Seq<char>, d: Seq<char>, y: Seq<char>)
    requires
        is_without(m, '/'),
        is_without(d, '/'),
        is_without(y, '/'),
        m.len() == 2,
        d.len() == 2,
        y.len() == 4,
        all_digits(y),
    ensures
        iso_text(m + seq!['/'] + d + seq!['/'] + y) == y + "-"@ + m + "-"@ + d,
{
    crate::text::lemma_join_and_cut(seq![m, d, y], '/');
    crate::invest::tempo::lemma_joined_three(m, d, y, '/');
    lemma_bytes_in(y);
}

proof fn lemma_bytes_in(s: Seq<char>)
    requires
        forall|i: int| 0 <= i < s.len() ==> crate::text::is_digit(#[trigger] s[i]),
    ensures
        bytes_in(s) == s.len(),
    decreases s.len(),
{
    if s.len() > 0 {
        let w = s.drop_last();
        assert forall|i: int| 0 <= i < w.len() implies crate::text::is_digit(#[trigger] w[i]) by {
            assert(w[i] == s[i]);
        }
        lemma_bytes_in(w);
        assert(crate::text::is_digit(s[s.len() - 1]));
    }
}

/// Who is at this machine: whoever logged in, and only where that is not known what the
/// environment says, the user's name before the login's.
pub proof fn lemma_user_of(
    loginuid: Option<Seq<char>>,
    passwd: Option<Seq<char>>,
    user: Option<Seq<char>>,
    logname: Option<Seq<char>>,
)
    ensures
        login_user(loginuid, passwd) is Some ==> user_of(loginuid, passwd, user, logname)
            == login_user(loginuid, passwd)->0,
        login_user(loginuid, passwd) is None && user is Some ==> user_of(
            loginuid,
            passwd,
            user,
            logname,
        ) == user->0,
        login_user(loginuid, passwd) is None && user is None && logname is Some ==> user_of(
            loginuid,
            passwd,
            user,
            logname,
        ) == logname->0,
        loginuid == Some(decimal(u32::MAX as nat)) ==> login_user(loginuid, passwd) is None,
{
    lemma_decimal_reads_back(u32::MAX as nat);
    let d = decimal(u32::MAX as nat);
    let r = crate::text::lemma_trimmed(d);
    assert(r.0 == 0) by {
        if r.0 > 0 {
            assert(crate::text::is_digit(d[0]));
            assert(crate::text::is_space(d[0]));
        }
    }
    assert(r.1 == d.len()) by {
        if r.1 < d.len() {
            assert(crate::text::is_digit(d[d.len() - 1]));
            assert(crate::text::is_space(d[d.len() - 1]));
        }
    }
    assert(trimmed(d) =~= d);
}

/// What the maker left blank says nothing, and what is told of a field has no white space around
/// it.
pub proof fn lemma_dmi_of(d: Seq<(Seq<char>, Seq<char>)>, field: Seq<char>)
    ensures
        dmi_of(d, field) is Some ==> under(d, field) is Some && dmi_of(d, field) == Some(
            trimmed(under(d, field)->0),
        ) && dmi_of(d, field)->0.len() > 0,
        under(d, field) is None ==> dmi_of(d, field) is None,
{
}

/// A line of the release file: what is behind the equals sign, without its quotes.
pub proof fn lemma_release_line(key: Seq<char>, value: Seq<char>)
    requires
        is_without(key, '='),
        trimmed(key) == key,
        value.len() > 0,
        value[0] != '"',
        value.last() != '"',
    ensures
        release_line(key + seq!['='] + seq!['"'] + value + seq!['"'], key) == Some(value),
{
    let q = seq!['"'] + value + seq!['"'];
    let s = key + seq!['='] + seq!['"'] + value + seq!['"'];
    let n = key.len() as int;
    assert(s =~= key + seq!['='] + q);
    assert forall|j: int| 0 <= j < n implies !Cut::At('=').cuts(#[trigger] s[j]) by {
        assert(s[j] == key[j]);
    }
    assert(s[n] == '=');
    crate::text::lemma_reach(s, Cut::At('='), n);
    assert(s.take(n) =~= key);
    assert(s.skip(n + 1) =~= q);
    let r = crate::text::lemma_trimmed(q);
    assert(q[0] == '"' && q[q.len() - 1] == '"');
    assert(r.0 == 0) by {
        if r.0 > 0 {
            assert(crate::text::is_space(q[0]));
        }
    }
    assert(r.1 == q.len()) by {
        if r.1 < q.len() {
            assert(crate::text::is_space(q[q.len() - 1]));
        }
    }
    assert(trimmed(q) =~= q);
    reveal_with_fuel(crate::text::trimmed_start, 3);
    reveal_with_fuel(crate::text::trimmed_end, 3);
    let u = value + seq!['"'];
    assert(q.skip(1) =~= u);
    assert(u[0] == value[0]);
    assert(u.last() == '"');
    assert(u.drop_last() =~= value);
}

} // verus!
