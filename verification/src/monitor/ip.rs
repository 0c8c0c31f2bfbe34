//! Addresses as text.

use vstd::prelude::*;
use crate::number::{
    dec, decimal, hex16, hexadecimal, hexadecimal_text, lemma_decimal_reads_back,
    lemma_hexadecimal_reads_back, natural, parse_hex_upto, within,
};
use crate::text::{
    begins, found, holds, is_digit, is_hex, is_without, join, joined, lemma_found,
    lemma_join_and_cut, occurs_at, past, pieces, views, Cut,
};

verus! {

/// An IPv4 address as text.
pub open spec fn ipv4_text(o: Seq<u8>) -> Seq<char> {
    decimal(o[0] as nat) + "."@ + decimal(o[1] as nat) + "."@ + decimal(o[2] as nat) + "."@
        + decimal(o[3] as nat)
}

/// Writes an IPv4 address.
pub fn ipv4(a: u8, b: u8, c: u8, d: u8) -> (r: String)
    ensures
        r@ == ipv4_text(seq![a, b, c, d]),
{
    let mut r = dec(a as u64);
    r.append(".");
    r.append(dec(b as u64).as_str());
    r.append(".");
    r.append(dec(c as u64).as_str());
    r.append(".");
    r.append(dec(d as u64).as_str());
    r
}

/// How many zeros stand at the end of the first `n` segments.
pub open spec fn zeros_before(s: Seq<u16>, n: int) -> int
    decreases n,
{
    if n <= 0 || s[n - 1] != 0 {
        0
    } else {
        zeros_before(s, n - 1) + 1
    }
}

/// Where the longest run of zeros among the first `n` segments starts, and how long it is; of
/// several, the first.
pub open spec fn longest_zeros(s: Seq<u16>, n: int) -> (int, int)
    decreases n,
{
    if n <= 0 {
        (0, 0)
    } else {
        let b = longest_zeros(s, n - 1);
        let c = zeros_before(s, n);
        if c > b.1 {
            (n - c, c)
        } else {
            b
        }
    }
}

/// Segments in hexadecimal with colons between them.
pub open spec fn segments_text(s: Seq<u16>) -> Seq<char> {
    joined(Seq::new(s.len(), |i: int| hexadecimal_text(s[i] as nat)), ":"@)
}

/// The address stands for an IPv4 one.
pub open spec fn is_mapped(s: Seq<u16>) -> bool {
    s[0] == 0 && s[1] == 0 && s[2] == 0 && s[3] == 0 && s[4] == 0 && s[5] == 0xffff
}

/// An IPv6 address as text: the longest run of two or more zero segments is left out, and one
/// that stands for an IPv4 address shows it as such.
pub open spec fn ipv6_text(s: Seq<u16>) -> Seq<char> {
    if is_mapped(s) {
        "::ffff:"@ + ipv4_text(
            seq![
                (s[6] / 256) as u8,
                (s[6] % 256) as u8,
                (s[7] / 256) as u8,
                (s[7] % 256) as u8,
            ],
        )
    } else {
        let z = longest_zeros(s, 8);
        if z.1 > 1 {
            segments_text(s.take(z.0)) + "::"@ + segments_text(s.skip(z.0 + z.1))
        } else {
            segments_text(s)
        }
    }
}

proof fn lemma_zeros(s: Seq<u16>, n: int)
    requires
        0 <= n,
    ensures
        0 <= zeros_before(s, n) <= n,
        0 <= longest_zeros(s, n).0,
        0 <= longest_zeros(s, n).1,
        longest_zeros(s, n).0 + longest_zeros(s, n).1 <= n,
    decreases n,
{
    if n > 0 {
        lemma_zeros(s, n - 1);
    }
}

/// Writes the segments from one place to another.
fn write_segments(s: &[u16], from: usize, to: usize) -> (r: String)
    requires
        from <= to <= s@.len(),
    ensures
        r@ == segments_text(s@.subrange(from as int, to as int)),
{
    let ghost t = s@.subrange(from as int, to as int);
    let mut v: Vec<String> = Vec::new();
    for i in from..to
        invariant
            from <= to <= s@.len(),
            t == s@.subrange(from as int, to as int),
            views(v@) =~= Seq::new((i - from) as nat, |k: int| hexadecimal_text(t[k] as nat)),
    {
        let ghost before = v@;
        v.push(hex16(s[i]));
        assert(t[i - from] == s@[i as int]);
        assert(views(v@) =~= views(before).push(hexadecimal_text(s@[i as int] as nat)));
    }
    assert(views(v@) =~= Seq::new(t.len(), |k: int| hexadecimal_text(t[k] as nat)));
    join(v.as_slice(), ":")
}

/// Writes an IPv6 address.
pub fn ipv6(s: &[u16]) -> (r: String)
    requires
        s@.len() == 8,
    ensures
        r@ == ipv6_text(s@),
{
    if s[0] == 0 && s[1] == 0 && s[2] == 0 && s[3] == 0 && s[4] == 0 && s[5] == 0xffff {
        let mut r = "::ffff:".to_owned();
        let v4 = ipv4(
            (s[6] / 256) as u8,
            (s[6] % 256) as u8,
            (s[7] / 256) as u8,
            (s[7] % 256) as u8,
        );
        r.append(v4.as_str());
        return r;
    }
    let mut start: usize = 0;
    let mut len: usize = 0;
    let mut current: usize = 0;
    for i in 0..8
        invariant
            s@.len() == 8,
            current == zeros_before(s@, i as int),
            current <= i,
            (start as int, len as int) == longest_zeros(s@, i as int),
            start + len <= i,
    {
        proof {
            lemma_zeros(s@, i + 1);
        }
        if s[i] == 0 {
            current = current + 1;
            if current > len {
                start = i + 1 - current;
                len = current;
            }
        } else {
            current = 0;
        }
    }
    proof {
        lemma_zeros(s@, 8);
        assert(s@.subrange(0, start as int) =~= s@.take(start as int));
        assert(s@.subrange(start + len, 8) =~= s@.skip(start + len));
        assert(s@.subrange(0, 8) =~= s@);
    }
    if len > 1 {
        let mut r = write_segments(s, 0, start);
        r.append("::");
        let rest = write_segments(s, start + len, 8);
        r.append(rest.as_str());
        r
    } else {
        write_segments(s, 0, 8)
    }
}

/// The eight segments of sixteen bytes.
pub open spec fn segments_of(o: Seq<u8>) -> Seq<u16> {
    Seq::new(8, |i: int| (o[2 * i] as int * 256 + o[2 * i + 1] as int) as u16)
}

/// The segments of sixteen bytes.
pub fn to_segments(o: &[u8]) -> (r: Vec<u16>)
    requires
        o@.len() >= 16,
    ensures
        r@ == segments_of(o@),
        r@.len() == 8,
        forall|k: int| 0 <= k < 8 ==> #[trigger] r@[k] == o@[2 * k] * 256 + o@[2 * k + 1],
{
    let mut r: Vec<u16> = Vec::new();
    for i in 0..8usize
        invariant
            o@.len() >= 16,
            r@ =~= segments_of(o@).take(i as int),
    {
        r.push(o[2 * i] as u16 * 256 + o[2 * i + 1] as u16);
    }
    assert(r@ =~= segments_of(o@));
    r
}

// --- reading addresses back ---------------------------------------------------------------------------

/// A text, read as an IPv4 address is, is these four bytes: four decimal numbers with dots between
/// them, the first byte first.
pub open spec fn ipv4_says(t: Seq<char>, o: Seq<u8>) -> bool {
    let p = pieces(t, Cut::At('.'));
    p.len() == 4 && o.len() == 4 && forall|k: int|
        0 <= k < 4 ==> natural(#[trigger] p[k]) == Some(o[k] as nat)
}

/// A text is these segments in hexadecimal, a colon between each and the next; no text is none.
pub open spec fn groups_say(t: Seq<char>, s: Seq<u16>) -> bool {
    if t.len() == 0 {
        s.len() == 0
    } else {
        let p = pieces(t, Cut::At(':'));
        p.len() == s.len() && forall|k: int|
            0 <= k < s.len() ==> hexadecimal(#[trigger] p[k]) == Some(s[k] as nat)
    }
}

/// The segments from one place to another are all zero.
pub open spec fn zeros(s: Seq<u16>, from: int, to: int) -> bool {
    forall|k: int| from <= k < to ==> #[trigger] s[k] == 0
}

/// The first `a` segments are those before a double colon, the last `b` those after it, and the
/// rest is zero.
pub open spec fn halves_say(left: Seq<char>, right: Seq<char>, s: Seq<u16>, a: int, b: int) -> bool {
    &&& 0 <= a
    &&& 0 <= b
    &&& a + b <= 6
    &&& groups_say(left, s.take(a))
    &&& groups_say(right, s.skip(8 - b))
    &&& zeros(s, a, 8 - b)
}

/// A text, read as an IPv6 address is, is these eight segments: groups in hexadecimal, the first
/// segment first; a double colon stands for the zeros that are missing; and where there are dots,
/// the last two segments are written as an IPv4 address.
pub open spec fn ipv6_says(t: Seq<char>, s: Seq<u16>) -> bool {
    if t.contains('.') {
        past(t, "::ffff:"@) is Some && zeros(s, 0, 5) && s[5] == 0xffff && ipv4_says(
            past(t, "::ffff:"@)->0,
            seq![
                (s[6] / 256) as u8,
                (s[6] % 256) as u8,
                (s[7] / 256) as u8,
                (s[7] % 256) as u8,
            ],
        )
    } else {
        match found(t, "::"@, 0) {
            None => groups_say(t, s),
            Some(i) => exists|a: int, b: int| #[trigger]
                halves_say(t.take(i), t.skip(i + 2), s, a, b),
        }
    }
}

proof fn lemma_hex_plain(n: nat)
    ensures
        hexadecimal_text(n).len() > 0,
        is_without(hexadecimal_text(n), ':'),
        is_without(hexadecimal_text(n), '.'),
{
    lemma_hexadecimal_reads_back(n);
    let t = hexadecimal_text(n);
    assert forall|i: int| 0 <= i < t.len() implies #[trigger] t[i] != ':' && t[i] != '.' by {
        assert(is_hex(t[i]));
    }
}

proof fn lemma_decimal_plain(n: nat)
    ensures
        is_without(decimal(n), '.'),
        natural(decimal(n)) == Some(n),
{
    lemma_decimal_reads_back(n);
    let t = decimal(n);
    assert forall|i: int| 0 <= i < t.len() implies #[trigger] t[i] != '.' by {
        assert(is_digit(t[i]));
    }
}

/// What an IPv4 address is written as reads back as its bytes, in their order.
pub proof fn lemma_ipv4_reads_back(o: Seq<u8>)
    requires
        o.len() == 4,
    ensures
        ipv4_says(ipv4_text(o), o),
        ipv4_text(o).contains('.'),
{
    reveal_strlit(".");
    let ws = Seq::new(4, |k: int| decimal(o[k] as nat));
    let dot = seq!['.'];
    assert("."@ =~= dot);
    assert forall|k: int| 0 <= k < 4 implies is_without(#[trigger] ws[k], '.') && natural(ws[k])
        == Some(o[k] as nat) by {
        lemma_decimal_plain(o[k] as nat);
    }
    lemma_join_and_cut(ws, '.');
    reveal_with_fuel(joined, 5);
    let w3 = ws.drop_last();
    let w2 = w3.drop_last();
    let w1 = w2.drop_last();
    assert(joined(ws, dot) =~= ipv4_text(o));
    assert(ipv4_text(o)[decimal(o[0] as nat).len() as int] == '.');
}

/// The shape of segments with colons between them: no colon at either end, and no two together.
proof fn lemma_segments_shape(s: Seq<u16>)
    ensures
        s.len() == 0 ==> segments_text(s).len() == 0,
        s.len() > 0 ==> segments_text(s).len() > 0 && segments_text(s)[0] != ':'
            && segments_text(s).last() != ':',
        is_without(segments_text(s), '.'),
        forall|i: int, j: int|
            0 <= i < segments_text(s).len() - 1 && j == i + 1 && #[trigger] segments_text(s)[i]
                == ':' ==> #[trigger] segments_text(s)[j] != ':',
    decreases s.len(),
{
    reveal_strlit(":");
    let ws = Seq::new(s.len(), |i: int| hexadecimal_text(s[i] as nat));
    let r = segments_text(s);
    if s.len() == 1 {
        lemma_hex_plain(s[0] as nat);
        assert(r == ws[0]);
    } else if s.len() > 1 {
        let a = s.drop_last();
        let t = segments_text(a);
        let w = hexadecimal_text(s.last() as nat);
        lemma_segments_shape(a);
        lemma_hex_plain(s.last() as nat);
        assert(ws.drop_last() =~= Seq::new(a.len(), |i: int| hexadecimal_text(a[i] as nat)));
        assert(r =~= t.push(':') + w);
        assert forall|i: int| 0 <= i < r.len() implies #[trigger] r[i] != '.' by {
            if i < t.len() {
                assert(r[i] == t[i]);
            } else if i > t.len() {
                assert(r[i] == w[i - t.len() - 1]);
            }
        }
        assert forall|i: int, j: int|
            0 <= i < r.len() - 1 && j == i + 1 && #[trigger] r[i] == ':' implies #[trigger] r[j]
            != ':' by {
            if j < t.len() {
                assert(r[i] == t[i] && r[j] == t[j]);
            } else if j == t.len() {
                assert(r[i] == t.last());
            } else if i == t.len() {
                assert(r[j] == w[0]);
            } else {
                assert(r[i] == w[i - t.len() - 1]);
            }
        }
        assert(r[0] == t[0]);
        assert(r.last() == w.last());
    }
}

/// Segments read back in their order.
proof fn lemma_segments_read_back(s: Seq<u16>)
    ensures
        groups_say(segments_text(s), s),
{
    lemma_segments_shape(s);
    if s.len() > 0 {
        reveal_strlit(":");
        let ws = Seq::new(s.len(), |i: int| hexadecimal_text(s[i] as nat));
        assert(":"@ =~= seq![':']);
        assert forall|k: int| 0 <= k < ws.len() implies is_without(#[trigger] ws[k], ':')
            && hexadecimal(ws[k]) == Some(s[k] as nat) by {
            lemma_hex_plain(s[k] as nat);
            lemma_hexadecimal_reads_back(s[k] as nat);
        }
        lemma_join_and_cut(ws, ':');
    }
}

/// The run that is left out: zeros all of it, as long as any run of zeros, and the first of those
/// as long.
pub proof fn lemma_longest_zeros(s: Seq<u16>, n: int)
    requires
        0 <= n <= s.len(),
    ensures
        ({
            let z = longest_zeros(s, n);
            let c = zeros_before(s, n);
            &&& 0 <= z.0 && 0 <= z.1 && z.0 + z.1 <= n && zeros(s, z.0, z.0 + z.1)
            &&& 0 <= c <= n && zeros(s, n - c, n) && (c < n ==> s[n - c - 1] != 0)
            &&& forall|i: int, j: int| #![trigger zeros(s, i, j)]
                0 <= i <= j <= n && zeros(s, i, j) ==> j - i <= z.1 && (j - i == z.1 && z.1 > 0
                    ==> z.0 <= i)
        }),
    decreases n,
{
    if n > 0 {
        lemma_longest_zeros(s, n - 1);
        let b = longest_zeros(s, n - 1);
        let z = longest_zeros(s, n);
        let c = zeros_before(s, n);
        assert forall|i: int, j: int| #![trigger zeros(s, i, j)]
            0 <= i <= j <= n && zeros(s, i, j) implies j - i <= z.1 && (j - i == z.1 && z.1 > 0
            ==> z.0 <= i) by {
            if j == n && i < j {
                assert(s[n - 1] == 0);
                if i < n - c {
                    assert(s[n - c - 1] == 0);
                }
            } else {
                assert(zeros(s, i, j));
            }
        }
    }
}

/// What an IPv6 address is written as reads back as its segments, in their order.
pub proof fn lemma_ipv6_reads_back(s: Seq<u16>)
    requires
        s.len() == 8,
    ensures
        ipv6_says(ipv6_text(s), s),
{
    let t = ipv6_text(s);
    reveal_strlit("::");
    reveal_strlit("::ffff:");
    if is_mapped(s) {
        let o = seq![
            (s[6] / 256) as u8,
            (s[6] % 256) as u8,
            (s[7] / 256) as u8,
            (s[7] % 256) as u8,
        ];
        lemma_ipv4_reads_back(o);
        let x = ipv4_text(o);
        let k = choose|k: int| 0 <= k < x.len() && x[k] == '.';
        assert(t[k + 7] == '.');
        assert(t.skip(7) =~= x);
        assert(t.subrange(0, 7) =~= "::ffff:"@);
        assert(begins(t, "::ffff:"@));
    } else {
        lemma_longest_zeros(s, 8);
        let z = longest_zeros(s, 8);
        if z.1 > 1 {
            let left = s.take(z.0);
            let right = s.skip(z.0 + z.1);
            let l = segments_text(left);
            let r = segments_text(right);
            lemma_segments_shape(left);
            lemma_segments_shape(right);
            lemma_segments_read_back(left);
            lemma_segments_read_back(right);
            let n = l.len() as int;
            assert(t =~= l + "::"@ + r);
            assert(!t.contains('.')) by {
                assert forall|i: int| 0 <= i < t.len() implies t[i] != '.' by {
                    if i < n {
                        assert(t[i] == l[i]);
                    } else if i >= n + 2 {
                        assert(t[i] == r[i - n - 2]);
                    }
                }
            }
            lemma_found(t, "::"@, 0);
            assert(t.subrange(n, n + 2) =~= "::"@);
            assert(occurs_at(t, "::"@, n));
            assert forall|j: int| 0 <= j < n implies !#[trigger] occurs_at(t, "::"@, j) by {
                if occurs_at(t, "::"@, j) {
                    assert(t.subrange(j, j + 2)[0] == ':');
                    assert(t.subrange(j, j + 2)[1] == ':');
                    assert(t[j] == ':' && t[j + 1] == ':');
                    assert(l[j] == t[j]);
                    if j + 1 < n {
                        assert(l[j + 1] == t[j + 1]);
                    }
                }
            }
            assert(t.take(n) =~= l);
            assert(t.skip(n + 2) =~= r);
            assert(halves_say(t.take(n), t.skip(n + 2), s, z.0, 8 - z.0 - z.1));
        } else {
            lemma_segments_shape(s);
            lemma_segments_read_back(s);
            assert(!t.contains('.'));
            lemma_found(t, "::"@, 0);
            if found(t, "::"@, 0) is Some {
                let i = found(t, "::"@, 0)->0;
                assert(t.subrange(i, i + 2)[0] == ':' && t.subrange(i, i + 2)[1] == ':');
                assert(t[i] == ':' && t[i + 1] == ':');
            }
        }
    }
}

/// An address is written as short as it can be: a double colon stands where two zeros stand
/// together somewhere, and letters are small.
pub proof fn lemma_ipv6_short(s: Seq<u16>)
    requires
        s.len() == 8,
        !(zeros(s, 0, 5) && s[5] == 0xffff),
    ensures
        holds(ipv6_text(s), "::"@) <==> exists|i: int| 0 <= i < 7 && #[trigger] zeros(s, i, i + 2),
{
    let t = ipv6_text(s);
    reveal_strlit("::");
    lemma_longest_zeros(s, 8);
    let z = longest_zeros(s, 8);
    if is_mapped(s) {
        assert(zeros(s, 0, 5));
    }
    if z.1 > 1 {
        assert(zeros(s, z.0, z.0 + 2));
        let n = segments_text(s.take(z.0)).len() as int;
        assert(t.subrange(n, n + 2) =~= "::"@);
        assert(occurs_at(t, "::"@, n));
    } else {
        lemma_segments_shape(s);
        if holds(t, "::"@) {
            let i = choose|i: int| #[trigger] occurs_at(t, "::"@, i);
            assert(t.subrange(i, i + 2)[0] == ':' && t.subrange(i, i + 2)[1] == ':');
            assert(t[i] == ':' && t[i + 1] == ':');
        }
        if exists|i: int| 0 <= i < 7 && #[trigger] zeros(s, i, i + 2) {
            let i = choose|i: int| 0 <= i < 7 && #[trigger] zeros(s, i, i + 2);
            assert(zeros(s, i, i + 2));
        }
    }
}

/// A text reads as one address only: two that are written alike are the same.
pub proof fn lemma_ipv6_told_apart(s: Seq<u16>, t: Seq<u16>)
    requires
        s.len() == 8,
        t.len() == 8,
        ipv6_text(s) == ipv6_text(t),
    ensures
        s == t,
{
    lemma_ipv6_reads_back(s);
    lemma_ipv6_reads_back(t);
    lemma_one_reading(ipv6_text(s), s, t);
}

proof fn lemma_one_reading(x: Seq<char>, s: Seq<u16>, t: Seq<u16>)
    requires
        s.len() == 8,
        t.len() == 8,
        ipv6_says(x, s),
        ipv6_says(x, t),
    ensures
        s == t,
{
    if x.contains('.') {
        let p = pieces(past(x, "::ffff:"@)->0, Cut::At('.'));
        assert(natural(p[0]) is Some && natural(p[1]) is Some && natural(p[2]) is Some && natural(
            p[3],
        ) is Some);
        assert forall|k: int| 0 <= k < 8 implies s[k] == t[k] by {
            if k < 5 {
                assert(s[k] == 0 && t[k] == 0);
            }
        }
        assert(s =~= t);
    } else {
        match found(x, "::"@, 0) {
            None => {
                let p = pieces(x, Cut::At(':'));
                assert forall|k: int| 0 <= k < 8 implies s[k] == t[k] by {
                    assert(hexadecimal(p[k]) == Some(s[k] as nat));
                }
                assert(s =~= t);
            },
            Some(i) => {
                let l = x.take(i);
                let r = x.skip(i + 2);
                let (a, b) = choose|a: int, b: int| #[trigger] halves_say(l, r, s, a, b);
                let (c, d) = choose|a: int, b: int| #[trigger] halves_say(l, r, t, a, b);
                assert(s.take(a).len() == a && t.take(c).len() == c);
                assert(s.skip(8 - b).len() == b && t.skip(8 - d).len() == d);
                let p = pieces(l, Cut::At(':'));
                let q = pieces(r, Cut::At(':'));
                assert forall|k: int| 0 <= k < 8 implies s[k] == t[k] by {
                    if k < a {
                        assert(hexadecimal(p[k]) == Some(s.take(a)[k] as nat));
                        assert(hexadecimal(p[k]) == Some(t.take(c)[k] as nat));
                    } else if k >= 8 - b {
                        assert(hexadecimal(q[k - (8 - b)]) == Some(
                            s.skip(8 - b)[k - (8 - b)] as nat,
                        ));
                        assert(hexadecimal(q[k - (8 - b)]) == Some(
                            t.skip(8 - b)[k - (8 - b)] as nat,
                        ));
                    }
                }
                assert(s =~= t);
            },
        }
    }
}

// --- the addresses of kernel tables -----------------------------------------------------------------

/// An IPv4 address.
#[derive(Clone, Copy, PartialEq, Eq, Debug, Structural)]
pub struct Ipv4 {
    pub a: u8,
    pub b: u8,
    pub c: u8,
    pub d: u8,
}

impl Ipv4 {
    /// The bytes of an address.
    pub open spec fn octets(self) -> Seq<u8> {
        seq![self.a, self.b, self.c, self.d]
    }

    /// An address as text.
    pub fn text(self) -> (r: String)
        ensures
            r@ == ipv4_text(self.octets()),
    {
        ipv4(self.a, self.b, self.c, self.d)
    }

    /// The address that stands for any.
    pub open spec fn is_any(self) -> bool {
        self.a == 0 && self.b == 0 && self.c == 0 && self.d == 0
    }

    /// Whether an address is the one that stands for any.
    pub fn is_unspecified(self) -> (r: bool)
        ensures
            r == self.is_any(),
    {
        self.a == 0 && self.b == 0 && self.c == 0 && self.d == 0
    }

    /// How many bits of an address are set.
    pub open spec fn ones(self) -> nat {
        bits_set(self.a as nat) + bits_set(self.b as nat) + bits_set(self.c as nat) + bits_set(
            self.d as nat,
        )
    }

    /// Counts the bits of an address that are set: the prefix of a mask.
    pub fn count_ones(self) -> (r: u32)
        ensures
            r == self.ones(),
            r <= 32,
    {
        count_bits(self.a) + count_bits(self.b) + count_bits(self.c) + count_bits(self.d)
    }
}

/// How many bits of a number are set.
pub open spec fn bits_set(n: nat) -> nat
    decreases n,
{
    if n == 0 {
        0
    } else {
        n % 2 + bits_set(n / 2)
    }
}

/// Counts the bits of a byte that are set.
fn count_bits(n: u8) -> (r: u32)
    ensures
        r == bits_set(n as nat),
        r <= 8,
{
    let mut m: u8 = n;
    let mut r: u32 = 0;
    let mut i: u32 = 0;
    while i < 8
        invariant
            i <= 8,
            r <= i,
            r + bits_set(m as nat) == bits_set(n as nat),
            i == 0 ==> m <= 255,
            i == 1 ==> m < 128,
            i == 2 ==> m < 64,
            i == 3 ==> m < 32,
            i == 4 ==> m < 16,
            i == 5 ==> m < 8,
            i == 6 ==> m < 4,
            i == 7 ==> m < 2,
            i == 8 ==> m < 1,
        decreases 8 - i,
    {
        r = r + (m % 2) as u32;
        m = m / 2;
        i = i + 1;
    }
    r
}

/// The address of a word as the kernel prints it: the least significant byte comes first.
pub open spec fn address_of(n: nat) -> Ipv4 {
    Ipv4 {
        a: (n % 256) as u8,
        b: (n / 256 % 256) as u8,
        c: (n / 65536 % 256) as u8,
        d: (n / 16777216) as u8,
    }
}

/// The address that a field of a kernel table writes, such as `0101A8C0`.
pub open spec fn address_in(hex: Seq<char>) -> Option<Ipv4> {
    match within(hexadecimal(hex), u32::MAX as nat) {
        Some(n) => Some(address_of(n)),
        None => None,
    }
}

/// The address of a word as the kernel prints it.
pub fn to_address(n: u32) -> (r: Ipv4)
    ensures
        r == address_of(n as nat),
{
    Ipv4 {
        a: (n % 256) as u8,
        b: (n / 256 % 256) as u8,
        c: (n / 65536 % 256) as u8,
        d: (n / 16777216) as u8,
    }
}

/// Reads the address that a field of a kernel table writes.
pub fn hex_ipv4(hex: &str) -> (r: Option<Ipv4>)
    ensures
        r == address_in(hex@),
{
    match parse_hex_upto(hex, 0xffff_ffff) {
        Some(n) => Some(to_address(n as u32)),
        None => None,
    }
}

/// The bits of a number that are set: those of its half, and the last one.
pub proof fn lemma_bits_set(n: nat, bit: nat)
    requires
        bit < 2,
    ensures
        bits_set(2 * n + bit) == bits_set(n) + bit,
        bits_set(0) == 0,
{
    if 2 * n + bit > 0 {
        assert((2 * n + bit) % 2 == bit);
        assert((2 * n + bit) / 2 == n);
    }
}

/// A word of the kernel's holds the bytes of an address, the first of them last.
pub proof fn lemma_address_of(a: u8, b: u8, c: u8, d: u8)
    ensures
        address_of((a + 256 * b + 65536 * c + 16777216 * d) as nat) == (Ipv4 { a, b, c, d }),
{
    let n = (a + 256 * b + 65536 * c + 16777216 * d) as nat;
    assert(n % 256 == a);
    assert(n / 256 % 256 == b);
    assert(n / 65536 % 256 == c);
    assert(n / 16777216 == d);
}

} // verus!
