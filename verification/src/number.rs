//! Numbers as text: reading decimal and hexadecimal, writing decimal, and byte counts in
//! the unit a person would pick.

use vstd::prelude::*;
use vstd::slice::slice_subrange;
use crate::text::{chars_of, digit_char, hex_worth, is_digit, is_hex, text_of, worth};

verus! {

// --- reading ---------------------------------------------------------------------------

/// What a run of decimal digits is worth.
pub open spec fn value(s: Seq<char>) -> nat
    decreases s.len(),
{
    if s.len() == 0 {
        0
    } else {
        value(s.drop_last()) * 10 + worth(s.last())
    }
}

/// What a run of hexadecimal digits is worth.
pub open spec fn hex_value(s: Seq<char>) -> nat
    decreases s.len(),
{
    if s.len() == 0 {
        0
    } else {
        hex_value(s.drop_last()) * 16 + hex_worth(s.last())
    }
}

/// At least one character, and decimal digits only.
pub open spec fn all_digits(s: Seq<char>) -> bool {
    s.len() > 0 && forall|i: int| 0 <= i < s.len() ==> is_digit(#[trigger] s[i])
}

/// At least one character, and hexadecimal digits only.
pub open spec fn all_hex(s: Seq<char>) -> bool {
    s.len() > 0 && forall|i: int| 0 <= i < s.len() ==> is_hex(#[trigger] s[i])
}

/// A text without the plus sign that a number may carry.
pub open spec fn unsigned_part(s: Seq<char>) -> Seq<char> {
    if s.len() > 0 && s[0] == '+' {
        s.skip(1)
    } else {
        s
    }
}

/// The natural number that a text writes in decimal, an optional plus sign before it.
pub open spec fn natural(s: Seq<char>) -> Option<nat> {
    let d = unsigned_part(s);
    if all_digits(d) {
        Some(value(d))
    } else {
        None
    }
}

/// The natural number that a text writes in hexadecimal, an optional plus sign before it.
pub open spec fn hexadecimal(s: Seq<char>) -> Option<nat> {
    let d = unsigned_part(s);
    if all_hex(d) {
        Some(hex_value(d))
    } else {
        None
    }
}

/// The integer that a text writes in decimal, an optional sign before it.
pub open spec fn integer(s: Seq<char>) -> Option<int> {
    if s.len() > 0 && s[0] == '-' {
        if all_digits(s.skip(1)) {
            Some(-(value(s.skip(1)) as int))
        } else {
            None
        }
    } else {
        match natural(s) {
            Some(n) => Some(n as int),
            None => None,
        }
    }
}

/// A number that fits under a bound.
pub open spec fn within(n: Option<nat>, max: nat) -> Option<nat> {
    match n {
        Some(v) => if v <= max {
            Some(v)
        } else {
            None
        },
        None => None,
    }
}

proof fn lemma_value_grows(s: Seq<char>, i: int)
    requires
        0 <= i <= s.len(),
    ensures
        value(s.take(i)) <= value(s),
    decreases s.len() - i,
{
    if i < s.len() {
        lemma_value_grows(s, i + 1);
        assert(s.take(i + 1).drop_last() =~= s.take(i));
    } else {
        assert(s.take(i) =~= s);
    }
}

proof fn lemma_hex_value_grows(s: Seq<char>, i: int)
    requires
        0 <= i <= s.len(),
    ensures
        hex_value(s.take(i)) <= hex_value(s),
    decreases s.len() - i,
{
    if i < s.len() {
        lemma_hex_value_grows(s, i + 1);
        assert(s.take(i + 1).drop_last() =~= s.take(i));
    } else {
        assert(s.take(i) =~= s);
    }
}

/// Reads a run of decimal digits no larger than `max`.
pub fn digits_upto(v: &[char], max: u64) -> (r: Option<u64>)
    ensures
        (match r {
            Some(n) => all_digits(v@) && value(v@) == n && n <= max,
            None => !all_digits(v@) || value(v@) > max,
        }),
{
    if v.len() == 0 {
        return None;
    }
    let mut acc: u64 = 0;
    assert(v@.take(0) =~= Seq::empty());
    for i in 0..v.len()
        invariant
            v@.len() > 0,
            acc <= max,
            acc == value(v@.take(i as int)),
            forall|j: int| 0 <= j < i ==> is_digit(#[trigger] v@[j]),
    {
        let c = v[i];
        if !('0' <= c && c <= '9') {
            assert(!is_digit(v@[i as int]));
            return None;
        }
        let d: u64 = (c as u64) - 48;
        proof {
            assert(v@.take(i + 1).drop_last() =~= v@.take(i as int));
            lemma_value_grows(v@, i + 1);
            assert(value(v@.take(i + 1)) == acc * 10 + d);
        }
        if acc > max / 10 || d > max - acc * 10 {
            return None;
        }
        acc = acc * 10 + d;
    }
    assert(v@.take(v@.len() as int) =~= v@);
    Some(acc)
}

/// Reads a run of hexadecimal digits no larger than `max`.
fn hex_upto(v: &[char], max: u64) -> (r: Option<u64>)
    ensures
        (match r {
            Some(n) => all_hex(v@) && hex_value(v@) == n && n <= max,
            None => !all_hex(v@) || hex_value(v@) > max,
        }),
{
    if v.len() == 0 {
        return None;
    }
    let mut acc: u64 = 0;
    assert(v@.take(0) =~= Seq::empty());
    for i in 0..v.len()
        invariant
            v@.len() > 0,
            acc <= max,
            acc == hex_value(v@.take(i as int)),
            forall|j: int| 0 <= j < i ==> is_hex(#[trigger] v@[j]),
    {
        let c = v[i];
        let d: u64 = if '0' <= c && c <= '9' {
            (c as u64) - 48
        } else if 'a' <= c && c <= 'f' {
            (c as u64) - 97 + 10
        } else if 'A' <= c && c <= 'F' {
            (c as u64) - 65 + 10
        } else {
            assert(!is_hex(v@[i as int]));
            return None;
        };
        proof {
            assert(v@.take(i + 1).drop_last() =~= v@.take(i as int));
            lemma_hex_value_grows(v@, i + 1);
            assert(hex_value(v@.take(i + 1)) == acc * 16 + d);
        }
        if acc > max / 16 || d > max - acc * 16 {
            return None;
        }
        acc = acc * 16 + d;
    }
    assert(v@.take(v@.len() as int) =~= v@);
    Some(acc)
}

/// The natural number as an optional result of a reader.
pub open spec fn as_nat(r: Option<u64>) -> Option<nat> {
    match r {
        Some(n) => Some(n as nat),
        None => None,
    }
}

/// The characters after an optional plus sign.
fn after_plus(v: &[char]) -> (r: &[char])
    ensures
        r@ == unsigned_part(v@),
{
    if v.len() > 0 && v[0] == '+' {
        let r = slice_subrange(v, 1, v.len());
        assert(r@ =~= v@.skip(1));
        r
    } else {
        v
    }
}

/// Reads a decimal natural number no larger than `max`.
pub fn parse_upto(s: &str, max: u64) -> (r: Option<u64>)
    ensures
        as_nat(r) == within(natural(s@), max as nat),
{
    let v = chars_of(s);
    digits_upto(after_plus(v.as_slice()), max)
}

/// Reads a hexadecimal natural number no larger than `max`.
pub fn parse_hex_upto(s: &str, max: u64) -> (r: Option<u64>)
    ensures
        as_nat(r) == within(hexadecimal(s@), max as nat),
{
    let v = chars_of(s);
    hex_upto(after_plus(v.as_slice()), max)
}

/// The integer as an optional result of a reader.
pub open spec fn as_int(r: Option<i64>) -> Option<int> {
    match r {
        Some(n) => Some(n as int),
        None => None,
    }
}

/// An integer that fits in 64 bits.
pub open spec fn within_i64(n: Option<int>) -> Option<int> {
    match n {
        Some(v) => if i64::MIN <= v <= i64::MAX {
            Some(v)
        } else {
            None
        },
        None => None,
    }
}

/// Reads a signed decimal number of 64 bits.
pub fn parse_i64(s: &str) -> (r: Option<i64>)
    ensures
        as_int(r) == within_i64(integer(s@)),
{
    let v = chars_of(s);
    if v.len() > 0 && v[0] == '-' {
        let t = slice_subrange(v.as_slice(), 1, v.len());
        assert(t@ =~= s@.skip(1));
        match digits_upto(t, 0x8000_0000_0000_0000) {
            Some(n) => {
                if n == 0x8000_0000_0000_0000 {
                    Some(i64::MIN)
                } else {
                    Some(-(n as i64))
                }
            },
            None => None,
        }
    } else {
        match digits_upto(after_plus(v.as_slice()), 0x7fff_ffff_ffff_ffff) {
            Some(n) => Some(n as i64),
            None => None,
        }
    }
}

// --- writing ---------------------------------------------------------------------------

/// A natural number in decimal, without leading zeros.
pub open spec fn decimal(n: nat) -> Seq<char>
    decreases n,
{
    if n < 10 {
        seq![digit_char(n)]
    } else {
        decimal(n / 10).push(digit_char(n % 10))
    }
}

/// Reading back what was written gives the number again, so no two numbers are written
/// alike.
pub proof fn lemma_decimal_reads_back(n: nat)
    ensures
        all_digits(decimal(n)),
        value(decimal(n)) == n,
        natural(decimal(n)) == Some(n),
    decreases n,
{
    reveal_with_fuel(value, 2);
    if n < 10 {
        let s = decimal(n);
        assert(s.drop_last() =~= Seq::empty());
        assert(is_digit(s[0]));
    } else {
        lemma_decimal_reads_back(n / 10);
        let p = decimal(n / 10);
        let s = decimal(n);
        assert(s.drop_last() =~= p);
        assert(is_digit(s.last()));
        assert forall|i: int| 0 <= i < s.len() implies is_digit(#[trigger] s[i]) by {
            if i < p.len() {
                assert(s[i] == p[i]);
            }
        }
    }
    assert(is_digit(decimal(n)[0]));
}

/// The character of a decimal digit.
fn digit_of(d: u64) -> (r: char)
    requires
        d < 10,
    ensures
        r == digit_char(d as nat),
{
    ((d as u8) + 48) as char
}

/// Writes the digits of `n` behind what is there.
fn push_decimal(n: u128, out: &mut Vec<char>)
    ensures
        final(out)@ == old(out)@ + decimal(n as nat),
    decreases n,
{
    if n >= 10 {
        push_decimal(n / 10, out);
    }
    out.push(digit_of((n % 10) as u64));
    proof {
        if n >= 10 {
            assert(out@ =~= old(out)@ + decimal((n / 10) as nat).push(digit_char((n % 10) as nat)));
        } else {
            assert(out@ =~= old(out)@ + seq![digit_char(n as nat)]);
        }
    }
}

/// Writes a natural number in decimal.
pub fn dec(n: u64) -> (r: String)
    ensures
        r@ == decimal(n as nat),
{
    dec_wide(n as u128)
}

/// Writes a natural number of up to 128 bits in decimal.
pub fn dec_wide(n: u128) -> (r: String)
    ensures
        r@ == decimal(n as nat),
{
    let mut out: Vec<char> = Vec::new();
    push_decimal(n, &mut out);
    assert(out@ =~= decimal(n as nat));
    text_of(out.as_slice())
}

/// `count` zeros.
pub open spec fn zeros(count: nat) -> Seq<char> {
    Seq::new(count, |i: int| '0')
}

/// A text brought to at least `width` characters by zeros before it.
pub open spec fn zero_filled(s: Seq<char>, width: nat) -> Seq<char> {
    if s.len() < width {
        zeros((width - s.len()) as nat) + s
    } else {
        s
    }
}

/// Puts zeros before a text until it has `width` characters.
pub fn zero_fill(s: &str, width: usize) -> (r: String)
    ensures
        r@ == zero_filled(s@, width as nat),
{
    let v = chars_of(s);
    let mut r = String::new();
    if v.len() < width {
        let n: usize = width - v.len();
        for i in 0..n
            invariant
                r@ == zeros(i as nat),
        {
            r.push('0');
            assert(r@ =~= zeros((i + 1) as nat));
        }
        r.append(s);
        r
    } else {
        s.to_owned()
    }
}

/// An integer in decimal, a minus sign before a negative one.
pub open spec fn decimal_signed(n: int) -> Seq<char> {
    if n < 0 {
        seq!['-'] + decimal((-n) as nat)
    } else {
        decimal(n as nat)
    }
}

/// Writes an integer in decimal.
pub fn dec_signed(n: i64) -> (r: String)
    ensures
        r@ == decimal_signed(n as int),
{
    if n >= 0 {
        return dec(n as u64);
    }
    let m: u64 = if n == i64::MIN {
        0x8000_0000_0000_0000
    } else {
        (-n) as u64
    };
    let mut out: Vec<char> = Vec::new();
    out.push('-');
    push_decimal(m as u128, &mut out);
    assert(out@ =~= seq!['-'] + decimal((-n) as nat));
    text_of(out.as_slice())
}

// --- byte counts -------------------------------------------------------------------------

/// The size of the unit a byte count is shown in: the largest power of 1024, up to the
/// terabyte, that the count reaches.
pub open spec fn byte_unit(n: nat) -> nat {
    if n < 1024 {
        1
    } else if n < 1048576 {
        1024
    } else if n < 1073741824 {
        1048576
    } else if n < 1099511627776 {
        1073741824
    } else {
        1099511627776
    }
}

/// The name of that unit.
pub open spec fn byte_unit_name(n: nat) -> Seq<char> {
    if n < 1024 {
        "B"@
    } else if n < 1048576 {
        "KB"@
    } else if n < 1073741824 {
        "MB"@
    } else if n < 1099511627776 {
        "GB"@
    } else {
        "TB"@
    }
}

/// The nearest whole number of tenths to `n / unit`; halfway, the even one.
pub open spec fn tenths(n: nat, unit: nat) -> nat {
    let q = n * 10 / unit;
    let twice = (n * 10 % unit) * 2;
    if twice > unit || (twice == unit && q % 2 == 1) {
        q + 1
    } else {
        q
    }
}

/// A byte count with one decimal in its unit, such as `1.5 MB`.
pub open spec fn human(n: nat) -> Seq<char> {
    let t = tenths(n, byte_unit(n));
    decimal(t / 10) + seq!['.', digit_char(t % 10), ' '] + byte_unit_name(n)
}

/// Rounds `n / unit` to tenths.
fn tenths_of(n: u64, unit: u64) -> (r: u64)
    requires
        0 < unit <= 0x1_0000_0000_0000,
        n as nat * 10 / unit as nat <= 0x1000_0000_0000_0000,
    ensures
        r == tenths(n as nat, unit as nat),
        r <= 0x1000_0000_0000_0001,
{
    let scaled: u128 = (n as u128) * 10;
    let q: u64 = (scaled / (unit as u128)) as u64;
    let left: u64 = (scaled % (unit as u128)) as u64;
    if left * 2 > unit || (left * 2 == unit && q % 2 == 1) {
        q + 1
    } else {
        q
    }
}

/// Writes a byte count with one decimal in the unit that suits it.
pub fn human_bytes(n: u64) -> (r: String)
    ensures
        r@ == human(n as nat),
{
    let (t, name): (u64, &str) = if n < 1024 {
        (tenths_of(n, 1), "B")
    } else if n < 1048576 {
        (tenths_of(n, 1024), "KB")
    } else if n < 1073741824 {
        (tenths_of(n, 1048576), "MB")
    } else if n < 1099511627776 {
        (tenths_of(n, 1073741824), "GB")
    } else {
        (tenths_of(n, 1099511627776), "TB")
    };
    let mut out: Vec<char> = Vec::new();
    push_decimal((t / 10) as u128, &mut out);
    out.push('.');
    out.push(digit_of(t % 10));
    out.push(' ');
    let mut r = text_of(out.as_slice());
    assert(r@ =~= decimal((t / 10) as nat) + seq!['.', digit_char((t % 10) as nat), ' ']);
    r.append(name);
    r
}

/// A byte rate, such as `1.5 MB/s`.
pub open spec fn human_rate(n: nat) -> Seq<char> {
    human(n) + "/s"@
}

/// Writes a byte rate.
pub fn human_bytes_per_sec(n: u64) -> (r: String)
    ensures
        r@ == human_rate(n as nat),
{
    let mut r = human_bytes(n);
    r.append("/s");
    r
}

// --- quotients with a fixed number of decimals ---------------------------------------------------

/// The whole number nearest to `a / b`; halfway, the even one.
pub open spec fn nearest(a: nat, b: nat) -> nat {
    let q = a / b;
    let twice = (a % b) * 2;
    if twice > b || (twice == b && q % 2 == 1) {
        q + 1
    } else {
        q
    }
}

/// By what a number from 1 to 4295 is scaled so that it has 53 bits before the point: those
/// that a double keeps of it.
pub open spec fn double_scale(whole: nat) -> nat {
    if whole < 2 {
        0x10_0000_0000_0000
    } else if whole < 4 {
        0x8_0000_0000_0000
    } else if whole < 8 {
        0x4_0000_0000_0000
    } else if whole < 16 {
        0x2_0000_0000_0000
    } else if whole < 32 {
        0x1_0000_0000_0000
    } else if whole < 64 {
        0x8000_0000_0000
    } else if whole < 128 {
        0x4000_0000_0000
    } else if whole < 256 {
        0x2000_0000_0000
    } else if whole < 512 {
        0x1000_0000_0000
    } else if whole < 1024 {
        0x800_0000_0000
    } else if whole < 2048 {
        0x400_0000_0000
    } else if whole < 4096 {
        0x200_0000_0000
    } else {
        0x100_0000_0000
    }
}

/// How many parts of size 1/`parts` the quotient of `n` and `d` shows, when it is taken as a
/// double and the double is rounded.
pub open spec fn shown(n: nat, d: nat, parts: nat) -> nat {
    let p = double_scale(n / d);
    nearest(nearest(n * p, d) * parts, p)
}

/// By what a number from 1 to 4295 is scaled.
fn scale_of(whole: u32) -> (r: u128)
    ensures
        r == double_scale(whole as nat),
        0 < r <= 0x10_0000_0000_0000,
{
    if whole < 2 {
        0x10_0000_0000_0000
    } else if whole < 4 {
        0x8_0000_0000_0000
    } else if whole < 8 {
        0x4_0000_0000_0000
    } else if whole < 16 {
        0x2_0000_0000_0000
    } else if whole < 32 {
        0x1_0000_0000_0000
    } else if whole < 64 {
        0x8000_0000_0000
    } else if whole < 128 {
        0x4000_0000_0000
    } else if whole < 256 {
        0x2000_0000_0000
    } else if whole < 512 {
        0x1000_0000_0000
    } else if whole < 1024 {
        0x800_0000_0000
    } else if whole < 2048 {
        0x400_0000_0000
    } else if whole < 4096 {
        0x200_0000_0000
    } else {
        0x100_0000_0000
    }
}

/// Divides to the nearest whole number.
fn divide_nearest(a: u128, b: u128) -> (r: u128)
    requires
        0 < b <= 0x10_0000_0000_0000,
        a <= 0x1000_0000_0000_0000_0000_0000_0000,
    ensures
        r == nearest(a as nat, b as nat),
        r <= a + 1,
{
    let q: u128 = a / b;
    let twice: u128 = (a % b) * 2;
    proof {
        vstd::arithmetic::div_mod::lemma_div_is_ordered_by_denominator(a as int, 1, b as int);
    }
    if twice > b || (twice == b && q % 2 == 1) {
        q + 1
    } else {
        q
    }
}

proof fn lemma_scaled(n: int, p: int)
    requires
        0 <= n <= 0xffff_ffff,
        0 < p <= 0x10_0000_0000_0000,
    ensures
        0 <= n * p <= 0x10_0000_0000_0000_0000_0000,
{
    assert(0 <= n * p <= 0xffff_ffff * 0x10_0000_0000_0000) by (nonlinear_arith)
        requires
            0 <= n <= 0xffff_ffff,
            0 < p <= 0x10_0000_0000_0000,
    ;
}

/// The parts that the quotient of `n` and `d` shows.
fn shown_of(n: u32, d: u32, tenths: bool) -> (r: u64)
    requires
        0 < d,
        n / d <= 4294,
    ensures
        r == shown(
            n as nat,
            d as nat,
            if tenths {
                10
            } else {
                100
            },
        ),
{
    let p: u128 = scale_of(n / d);
    proof {
        lemma_scaled(n as int, p as int);
    }
    let m: u128 = divide_nearest((n as u128) * p, d as u128);
    let t: u128 = if tenths {
        m * 10
    } else {
        m * 100
    };
    let r: u128 = divide_nearest(t, p);
    proof {
        let parts: nat = if tenths {
            10
        } else {
            100
        };
        lemma_shown_small(n as nat, d as nat, p as nat, m as nat, parts, r as nat);
    }
    r as u64
}

proof fn lemma_shown_small(n: nat, d: nat, p: nat, m: nat, parts: nat, r: nat)
    requires
        d > 0,
        p > 0,
        parts <= 100,
        n / d <= 4294,
        m == nearest(n * p, d),
        r == nearest(m * parts, p),
        p == double_scale(n / d),
    ensures
        r <= 0xffff_ffff,
{
    let a = n * p;
    assert(n < (n / d + 1) * d) by {
        vstd::arithmetic::div_mod::lemma_fundamental_div_mod(n as int, d as int);
        vstd::arithmetic::div_mod::lemma_mod_bound(n as int, d as int);
        assert((n / d + 1) * d == d * (n / d) + d) by (nonlinear_arith);
    }
    assert(n <= 4295 * d) by (nonlinear_arith)
        requires
            n < (n / d + 1) * d,
            n / d <= 4294,
            d > 0,
    ;
    assert(a <= (4295 * p) * d) by (nonlinear_arith)
        requires
            a == n * p,
            n <= 4295 * d,
    ;
    vstd::arithmetic::div_mod::lemma_div_is_ordered(a as int, ((4295 * p) * d) as int, d as int);
    vstd::arithmetic::div_mod::lemma_div_by_multiple((4295 * p) as int, d as int);
    assert(m <= 4295 * p + 1);
    let b = m * parts;
    assert(b <= 500000 * p) by (nonlinear_arith)
        requires
            b == m * parts,
            m <= 4295 * p + 1,
            parts <= 100,
            p > 0,
    ;
    vstd::arithmetic::div_mod::lemma_div_is_ordered(b as int, (500000 * p) as int, p as int);
    vstd::arithmetic::div_mod::lemma_div_by_multiple(500000, p as int);
}

/// A duration in microseconds, in the unit that suits it: nothing for none at all.
pub open spec fn micros_text(us: nat) -> Seq<char> {
    if us == 0 {
        Seq::empty()
    } else if us < 1_000 {
        decimal(us) + " µs"@
    } else if us < 1_000_000 {
        let t = shown(us, 1_000, 10);
        decimal(t / 10) + "."@ + decimal(t % 10) + " ms"@
    } else {
        let t = shown(us, 1_000_000, 100);
        decimal(t / 100) + "."@ + zero_filled(decimal(t % 100), 2) + " s"@
    }
}

/// Writes a duration in microseconds.
pub fn micros(us: u32) -> (r: String)
    ensures
        r@ == micros_text(us as nat),
{
    if us == 0 {
        let r = String::new();
        assert(r@ =~= Seq::empty());
        r
    } else if us < 1_000 {
        let mut r = dec(us as u64);
        r.append(" µs");
        r
    } else if us < 1_000_000 {
        let t: u64 = shown_of(us, 1_000, true);
        let mut r = dec(t / 10);
        r.append(".");
        r.append(dec(t % 10).as_str());
        r.append(" ms");
        r
    } else {
        let t: u64 = shown_of(us, 1_000_000, false);
        let mut r = dec(t / 100);
        r.append(".");
        r.append(zero_fill(dec(t % 100).as_str(), 2).as_str());
        r.append(" s");
        r
    }
}

/// A number in hexadecimal, in small letters and without leading zeros.
pub open spec fn hexadecimal_text(n: nat) -> Seq<char>
    decreases n,
{
    if n < 16 {
        seq![hex_digit(n)]
    } else {
        hexadecimal_text(n / 16).push(hex_digit(n % 16))
    }
}

/// The digit that stands for `d` in hexadecimal.
pub open spec fn hex_digit(d: nat) -> char {
    if d < 10 {
        digit_char(d)
    } else {
        ('a' as int + d - 10) as char
    }
}

fn hex_digit_of(d: u16) -> (r: char)
    requires
        d < 16,
    ensures
        r == hex_digit(d as nat),
{
    if d < 10 {
        (('0' as u8) + (d as u8)) as char
    } else {
        (('a' as u8) + (d as u8 - 10)) as char
    }
}

/// Reading back what was written in hexadecimal gives the number again. It is written in small
/// letters, and without a zero in front.
pub proof fn lemma_hexadecimal_reads_back(n: nat)
    ensures
        all_hex(hexadecimal_text(n)),
        forall|i: int|
            0 <= i < hexadecimal_text(n).len() ==> !('A' <= #[trigger] hexadecimal_text(n)[i]
                <= 'F'),
        n > 0 ==> hexadecimal_text(n)[0] != '0',
        n == 0 ==> hexadecimal_text(n).len() == 1,
        hex_value(hexadecimal_text(n)) == n,
        hexadecimal(hexadecimal_text(n)) == Some(n),
    decreases n,
{
    reveal_with_fuel(hex_value, 2);
    let s = hexadecimal_text(n);
    if n < 16 {
        assert(s.drop_last() =~= Seq::empty());
        assert(is_hex(s[0]));
        assert(hex_worth(s[0]) == n);
    } else {
        lemma_hexadecimal_reads_back(n / 16);
        let p = hexadecimal_text(n / 16);
        assert(s.drop_last() =~= p);
        assert(is_hex(s.last()));
        assert(hex_worth(s.last()) == n % 16);
        assert forall|i: int| 0 <= i < s.len() implies is_hex(#[trigger] s[i]) && !('A' <= s[i]
            <= 'F') by {
            if i < p.len() {
                assert(s[i] == p[i]);
            }
        }
        assert(s[0] == p[0]);
    }
    assert(is_hex(s[0]));
}

/// Writes a number of 16 bits in hexadecimal.
pub fn hex16(n: u16) -> (r: String)
    ensures
        r@ == hexadecimal_text(n as nat),
{
    let mut out: Vec<char> = Vec::new();
    proof {
        reveal_with_fuel(hexadecimal_text, 5);
    }
    if n >= 0x1000 {
        out.push(hex_digit_of(n / 0x1000));
    }
    if n >= 0x100 {
        out.push(hex_digit_of(n / 0x100 % 16));
    }
    if n >= 0x10 {
        out.push(hex_digit_of(n / 16 % 16));
    }
    out.push(hex_digit_of(n % 16));
    proof {
        let m = n as nat;
        assert(m / 16 / 16 == m / 0x100);
        assert(m / 0x100 / 16 == m / 0x1000);
        assert(out@ =~= hexadecimal_text(m));
    }
    text_of(out.as_slice())
}

/// What is shown of a count is off by no more than half of a tenth of the unit.
pub proof fn lemma_tenths(n: nat, unit: nat)
    requires
        unit > 0,
    ensures
        tenths(n, unit) * unit * 2 <= n * 20 + unit,
        n * 20 <= tenths(n, unit) * unit * 2 + unit,
{
    let q = n * 10 / unit;
    let m = n * 10 % unit;
    vstd::arithmetic::div_mod::lemma_fundamental_div_mod((n * 10) as int, unit as int);
    assert(unit * q == q * unit) by (nonlinear_arith);
    assert((q + 1) * unit == q * unit + unit) by (nonlinear_arith);
    let t = tenths(n, unit);
    assert(t * unit * 2 == 2 * (t * unit)) by (nonlinear_arith);
}

/// A count is shown in the largest unit that it reaches, each a thousand and twenty-four times the
/// one before it, and under the name of that unit.
pub proof fn lemma_byte_unit(n: nat)
    ensures
        byte_unit(n) <= n || byte_unit(n) == 1,
        n < byte_unit(n) * 1024 || byte_unit_name(n) == "TB"@,
        byte_unit_name(n) == "B"@ || byte_unit_name(n) == "KB"@ || byte_unit_name(n) == "MB"@
            || byte_unit_name(n) == "GB"@ || byte_unit_name(n) == "TB"@,
        byte_unit_name(n) == "B"@ ==> byte_unit(n) == 1,
        byte_unit_name(n) == "KB"@ ==> byte_unit(n) == 1024,
        byte_unit_name(n) == "MB"@ ==> byte_unit(n) == 1024 * 1024,
        byte_unit_name(n) == "GB"@ ==> byte_unit(n) == 1024 * 1024 * 1024,
        byte_unit_name(n) == "TB"@ ==> byte_unit(n) == 1024 * 1024 * 1024 * 1024,
{
    reveal_strlit("B");
    reveal_strlit("KB");
    reveal_strlit("MB");
    reveal_strlit("GB");
    reveal_strlit("TB");
    assert("B"@.len() == 1 && "KB"@.len() == 2 && "MB"@.len() == 2 && "GB"@.len() == 2
        && "TB"@.len() == 2);
    assert("KB"@[0] == 'K' && "MB"@[0] == 'M' && "GB"@[0] == 'G' && "TB"@[0] == 'T');
}

/// The whole number nearest to a quotient is off by no more than a half.
pub proof fn lemma_nearest(a: nat, b: nat)
    requires
        b > 0,
    ensures
        nearest(a, b) * b * 2 <= a * 2 + b,
        a * 2 <= nearest(a, b) * b * 2 + b,
{
    let q = a / b;
    vstd::arithmetic::div_mod::lemma_fundamental_div_mod(a as int, b as int);
    assert(b * q == q * b) by (nonlinear_arith);
    assert((q + 1) * b == q * b + b) by (nonlinear_arith);
    let t = nearest(a, b);
    assert(t * b * 2 == 2 * (t * b)) by (nonlinear_arith);
}

} // verus!
