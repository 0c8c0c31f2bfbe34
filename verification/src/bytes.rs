//! Numbers as a machine lays them out in bytes.

use vstd::prelude::*;

verus! {

/// The order in which a number's bytes stand.
#[derive(Clone, Copy, PartialEq, Eq, Debug, Structural)]
pub enum Endian {
    Little,
    Big,
}

/// The number that bytes write, the least significant first.
pub open spec fn little(s: Seq<u8>) -> nat
    decreases s.len(),
{
    if s.len() == 0 {
        0
    } else {
        s[0] as nat + 256 * little(s.skip(1))
    }
}

/// The number that bytes write, the most significant first.
pub open spec fn big(s: Seq<u8>) -> nat
    decreases s.len(),
{
    if s.len() == 0 {
        0
    } else {
        big(s.drop_last()) * 256 + s.last() as nat
    }
}

/// The number that bytes write.
pub open spec fn number(s: Seq<u8>, e: Endian) -> nat {
    match e {
        Endian::Little => little(s),
        Endian::Big => big(s),
    }
}

/// The number of `n` bytes at a place; 0 where the bytes stop short of it.
pub open spec fn number_at(s: Seq<u8>, at: int, n: int, e: Endian) -> nat {
    if 0 <= at && at + n <= s.len() {
        number(s.subrange(at, at + n), e)
    } else {
        0
    }
}

proof fn lemma_two(s: Seq<u8>)
    requires
        s.len() == 2,
    ensures
        little(s) == s[0] as nat + 256 * s[1] as nat,
        big(s) == s[0] as nat * 256 + s[1] as nat,
{
    reveal_with_fuel(little, 3);
    reveal_with_fuel(big, 3);
    assert(s.drop_last().last() == s[0]);
}

proof fn lemma_four(s: Seq<u8>)
    requires
        s.len() == 4,
    ensures
        little(s) == s[0] as nat + 256 * (s[1] as nat + 256 * (s[2] as nat + 256 * s[3] as nat)),
        big(s) == ((s[0] as nat * 256 + s[1] as nat) * 256 + s[2] as nat) * 256 + s[3] as nat,
{
    let t = s.skip(2);
    assert(s.skip(1).skip(1) =~= t);
    lemma_two(t);
    assert(little(s) == s[0] as nat + 256 * little(s.skip(1)));
    assert(little(s.skip(1)) == s.skip(1)[0] as nat + 256 * little(s.skip(1).skip(1)));
    let h = s.take(2);
    assert(s.drop_last().drop_last() =~= h);
    lemma_two(h);
    assert(big(s) == big(s.drop_last()) * 256 + s.last() as nat);
    assert(big(s.drop_last()) == big(s.drop_last().drop_last()) * 256 + s.drop_last().last() as nat);
}

proof fn lemma_little_split(s: Seq<u8>)
    requires
        s.len() == 8,
    ensures
        little(s) == little(s.take(4)) + 4294967296 * little(s.skip(4)),
        big(s) == big(s.take(4)) * 4294967296 + big(s.skip(4)),
{
    let a = s.take(4);
    let b = s.skip(4);
    lemma_four(a);
    lemma_four(b);
    let s1 = s.skip(1);
    let s2 = s1.skip(1);
    let s3 = s2.skip(1);
    assert(s3.skip(1) =~= b);
    assert(little(s) == s[0] as nat + 256 * little(s1));
    assert(little(s1) == s[1] as nat + 256 * little(s2));
    assert(little(s2) == s[2] as nat + 256 * little(s3));
    assert(little(s3) == s[3] as nat + 256 * little(b));
    let d1 = s.drop_last();
    let d2 = d1.drop_last();
    let d3 = d2.drop_last();
    assert(d3.drop_last() =~= a);
    assert(big(s) == big(d1) * 256 + s[7] as nat);
    assert(big(d1) == big(d2) * 256 + s[6] as nat);
    assert(big(d2) == big(d3) * 256 + s[5] as nat);
    assert(big(d3) == big(a) * 256 + s[4] as nat);
}

/// The byte at a place, 0 past the end.
pub fn u8_at(s: &[u8], at: usize) -> (r: u8)
    ensures
        r == (if at < s@.len() {
            s@[at as int]
        } else {
            0
        }),
{
    if at < s.len() {
        s[at]
    } else {
        0
    }
}

/// The number of two bytes at a place, 0 where the bytes stop short of it.
pub fn u16_at(s: &[u8], at: usize, e: Endian) -> (r: u16)
    ensures
        r == number_at(s@, at as int, 2, e),
{
    if s.len() < 2 || at > s.len() - 2 {
        return 0;
    }
    proof {
        let t = s@.subrange(at as int, at + 2);
        lemma_two(t);
        assert(t[0] == s@[at as int] && t[1] == s@[at + 1]);
    }
    match e {
        Endian::Little => s[at] as u16 + 256 * (s[at + 1] as u16),
        Endian::Big => s[at] as u16 * 256 + s[at + 1] as u16,
    }
}

/// The number of four bytes at a place, 0 where the bytes stop short of it.
pub fn u32_at(s: &[u8], at: usize, e: Endian) -> (r: u32)
    ensures
        r == number_at(s@, at as int, 4, e),
{
    if s.len() < 4 || at > s.len() - 4 {
        return 0;
    }
    proof {
        let t = s@.subrange(at as int, at + 4);
        lemma_four(t);
        assert(t[0] == s@[at as int] && t[1] == s@[at + 1] && t[2] == s@[at + 2] && t[3] == s@[at
            + 3]);
    }
    let a = s[at] as u32;
    let b = s[at + 1] as u32;
    let c = s[at + 2] as u32;
    let d = s[at + 3] as u32;
    match e {
        Endian::Little => a + 256 * (b + 256 * (c + 256 * d)),
        Endian::Big => ((a * 256 + b) * 256 + c) * 256 + d,
    }
}

/// The number of eight bytes at a place, 0 where the bytes stop short of it.
pub fn u64_at(s: &[u8], at: usize, e: Endian) -> (r: u64)
    ensures
        r == number_at(s@, at as int, 8, e),
{
    if s.len() < 8 || at > s.len() - 8 {
        return 0;
    }
    let a = u32_at(s, at, e) as u64;
    let b = u32_at(s, at + 4, e) as u64;
    proof {
        let t = s@.subrange(at as int, at + 8);
        lemma_little_split(t);
        assert(t.take(4) =~= s@.subrange(at as int, at + 4));
        assert(t.skip(4) =~= s@.subrange(at + 4, at + 8));
    }
    match e {
        Endian::Little => a + 4294967296 * b,
        Endian::Big => a * 4294967296 + b,
    }
}

/// The two bytes of a number.
pub open spec fn bytes16(n: u16, e: Endian) -> Seq<u8> {
    let a = (n % 256) as u8;
    let b = (n / 256) as u8;
    match e {
        Endian::Little => seq![a, b],
        Endian::Big => seq![b, a],
    }
}

/// The four bytes of a number.
pub open spec fn bytes32(n: u32, e: Endian) -> Seq<u8> {
    let a = (n % 256) as u8;
    let b = (n / 256 % 256) as u8;
    let c = (n / 65536 % 256) as u8;
    let d = (n / 16777216) as u8;
    match e {
        Endian::Little => seq![a, b, c, d],
        Endian::Big => seq![d, c, b, a],
    }
}

/// Appends the two bytes of a number.
pub fn push16(v: &mut Vec<u8>, n: u16, e: Endian)
    ensures
        final(v)@ == old(v)@ + bytes16(n, e),
{
    let ghost before = v@;
    let a = (n % 256) as u8;
    let b = (n / 256) as u8;
    match e {
        Endian::Little => {
            v.push(a);
            v.push(b);
        },
        Endian::Big => {
            v.push(b);
            v.push(a);
        },
    }
    assert(v@ =~= before + bytes16(n, e));
}

/// Appends the four bytes of a number.
pub fn push32(v: &mut Vec<u8>, n: u32, e: Endian)
    ensures
        final(v)@ == old(v)@ + bytes32(n, e),
{
    let ghost before = v@;
    let a = (n % 256) as u8;
    let b = (n / 256 % 256) as u8;
    let c = (n / 65536 % 256) as u8;
    let d = (n / 16777216) as u8;
    match e {
        Endian::Little => {
            v.push(a);
            v.push(b);
            v.push(c);
            v.push(d);
        },
        Endian::Big => {
            v.push(d);
            v.push(c);
            v.push(b);
            v.push(a);
        },
    }
    assert(v@ =~= before + bytes32(n, e));
}

/// What is written as bytes is what is read from them.
pub proof fn lemma_reads_back(n: u32, m: u16, e: Endian)
    ensures
        number(bytes32(n, e), e) == n,
        number(bytes16(m, e), e) == m,
{
    lemma_four(bytes32(n, e));
    lemma_two(bytes16(m, e));
    assert(n == n % 256 + 256 * (n / 256 % 256) + 65536 * (n / 65536 % 256) + 16777216 * (n
        / 16777216)) by {
        assert(n / 65536 == n / 256 / 256);
        assert(n / 16777216 == n / 65536 / 256);
    }
}

/// Which byte counts for more: the first where the order is big, the last where it is little.
pub proof fn lemma_byte_order(a: u8, b: u8, c: u8, d: u8)
    ensures
        big(seq![a, b]) == a * 256 + b,
        little(seq![a, b]) == b * 256 + a,
        big(seq![a, b, c, d]) == a * 16777216 + b * 65536 + c * 256 + d,
        little(seq![a, b, c, d]) == d * 16777216 + c * 65536 + b * 256 + a,
{
    reveal_with_fuel(big, 5);
    reveal_with_fuel(little, 5);
    let s = seq![a, b, c, d];
    assert(s.drop_last() =~= seq![a, b, c]);
    assert(seq![a, b, c].drop_last() =~= seq![a, b]);
    assert(seq![a, b].drop_last() =~= seq![a]);
    assert(seq![a].drop_last() =~= Seq::<u8>::empty());
    assert(s.skip(1) =~= seq![b, c, d]);
    assert(seq![b, c, d].skip(1) =~= seq![c, d]);
    assert(seq![c, d].skip(1) =~= seq![d]);
    assert(seq![d].skip(1) =~= Seq::<u8>::empty());
    assert(seq![a, b].skip(1) =~= seq![b]);
    assert(seq![b].skip(1) =~= Seq::<u8>::empty());
}

} // verus!
