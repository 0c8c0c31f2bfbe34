//! Dates: which day it is, which month a sale fell in, whether the exchange is open.
//!
//! A date is a day of the proleptic Gregorian calendar and is measured by its distance from
//! 1 January 1970. [`dias`] is that distance; everything else here is stated over it.

use vstd::prelude::*;
use vstd::slice::slice_subrange;
use crate::number::{
    all_digits, as_int, dec, dec_signed, decimal, decimal_signed, digits_upto, integer,
    lemma_decimal_reads_back, natural, parse_i64, parse_upto, value, within, within_i64, zero_fill,
    zero_filled,
};
use crate::text::{
    before, chars_of, cut_once, differs_at, is_digit, is_without, joined, lemma_join_and_cut,
    lemma_reach, pieces, reach_from, split, split_once, text_before, text_of, trim_end_of,
    trimmed_end, views, Cut,
};

verus! {

/// Brasília's offset from UTC, in seconds.
pub const BRT_OFFSET: i64 = -10800;

/// A day of the calendar.
#[derive(Clone, Copy, PartialEq, Eq, PartialOrd, Ord, Debug, Structural)]
pub struct Data {
    pub ano: i32,
    pub mes: u32,
    pub dia: u32,
}

// --- the calendar ------------------------------------------------------------------------

/// Leap years of the Gregorian calendar.
pub open spec fn bissexto(ano: int) -> bool {
    ano % 4 == 0 && (ano % 100 != 0 || ano % 400 == 0)
}

/// How many days a month has.
pub open spec fn dias_no_mes(ano: int, mes: int) -> int {
    if mes == 2 {
        if bissexto(ano) {
            29
        } else {
            28
        }
    } else if mes == 4 || mes == 6 || mes == 9 || mes == 11 {
        30
    } else {
        31
    }
}

/// A day that the calendar has.
pub open spec fn existe(ano: int, mes: int, dia: int) -> bool {
    1 <= mes <= 12 && 1 <= dia <= dias_no_mes(ano, mes)
}

/// Days between 1 January 1970 and the given day.
///
/// The count runs over years that begin in March, so that the leap day is the last of its
/// year. [`lemma_calendario`] ties it to the lengths of the months.
pub open spec fn dias(ano: int, mes: int, dia: int) -> int {
    let a = if mes <= 2 {
        ano - 1
    } else {
        ano
    };
    let m = if mes > 2 {
        mes - 3
    } else {
        mes + 9
    };
    ate_marco(a) + (153 * m + 2) / 5 + dia - 1 - 719468
}

/// Days before 1 March of a year, counted from 1 March of the year 0.
pub open spec fn ate_marco(ano: int) -> int {
    365 * ano + ano / 4 - ano / 100 + ano / 400
}

/// From one first of March to the next there are 365 days, or 366 when the leap day of the
/// next year is among them.
proof fn lemma_um_ano(ano: int)
    ensures
        ate_marco(ano) - ate_marco(ano - 1) == 365 + if bissexto(ano) {
            1int
        } else {
            0
        },
{
    lemma_quociente_seguinte(ano, 4);
    lemma_quociente_seguinte(ano, 100);
    lemma_quociente_seguinte(ano, 400);
    assert(ano % 400 == 0 ==> ano % 100 == 0);
    assert(ano % 100 == 0 ==> ano % 4 == 0);
}

proof fn lemma_quociente_seguinte(a: int, d: int)
    requires
        d == 4 || d == 100 || d == 400,
    ensures
        a / d == (a - 1) / d + if a % d == 0 {
            1int
        } else {
            0
        },
{
}

/// The count starts at the epoch, grows by one from a day to the next, and by the length
/// of the month from the first of a month to the first of the next.
pub proof fn lemma_calendario(ano: int, mes: int, dia: int)
    requires
        1 <= mes <= 12,
    ensures
        dias(1970, 1, 1) == 0,
        dias(ano, mes, dia + 1) == dias(ano, mes, dia) + 1,
        mes < 12 ==> dias(ano, mes + 1, 1) == dias(ano, mes, 1) + dias_no_mes(ano, mes),
        dias(ano + 1, 1, 1) == dias(ano, 12, 1) + dias_no_mes(ano, 12),
{
    lemma_um_ano(ano);
}

proof fn lemma_meses_em_ordem(ano: int, m1: int, m2: int)
    requires
        1 <= m1 < m2 <= 12,
    ensures
        dias(ano, m1, 1) + dias_no_mes(ano, m1) <= dias(ano, m2, 1),
    decreases m2 - m1,
{
    lemma_calendario(ano, m1, 1);
    if m1 + 1 < m2 {
        lemma_meses_em_ordem(ano, m1 + 1, m2);
    }
}

proof fn lemma_anos_em_ordem(a1: int, a2: int)
    requires
        a1 < a2,
    ensures
        dias(a1, 12, 31) < dias(a2, 1, 1),
    decreases a2 - a1,
{
    if a1 + 1 < a2 {
        lemma_anos_em_ordem(a1 + 1, a2);
    }
}

/// One day comes before another in the calendar.
pub open spec fn vem_antes(a: (int, int, int), b: (int, int, int)) -> bool {
    a.0 < b.0 || (a.0 == b.0 && (a.1 < b.1 || (a.1 == b.1 && a.2 < b.2)))
}

/// The count keeps the order of the calendar.
pub proof fn lemma_ordem(a: (int, int, int), b: (int, int, int))
    requires
        existe(a.0, a.1, a.2),
        existe(b.0, b.1, b.2),
        vem_antes(a, b),
    ensures
        dias(a.0, a.1, a.2) < dias(b.0, b.1, b.2),
{
    if a.0 < b.0 {
        lemma_anos_em_ordem(a.0, b.0);
        if a.1 < 12 {
            lemma_meses_em_ordem(a.0, a.1, 12);
        }
        if b.1 > 1 {
            lemma_meses_em_ordem(b.0, 1, b.1);
        }
    } else if a.1 < b.1 {
        lemma_meses_em_ordem(a.0, a.1, b.1);
    }
}

/// No two days of the calendar have the same count.
pub proof fn lemma_um_dia_so(a: (int, int, int), b: (int, int, int))
    requires
        existe(a.0, a.1, a.2),
        existe(b.0, b.1, b.2),
        dias(a.0, a.1, a.2) == dias(b.0, b.1, b.2),
    ensures
        a == b,
{
    if vem_antes(a, b) {
        lemma_ordem(a, b);
    }
    if vem_antes(b, a) {
        lemma_ordem(b, a);
    }
}

/// The day of the calendar at a given distance from the epoch.
pub open spec fn civil(n: int) -> (int, int, int) {
    choose|t: (int, int, int)|
        #![trigger dias(t.0, t.1, t.2)]
        existe(t.0, t.1, t.2) && dias(t.0, t.1, t.2) == n
}

/// Going to a date and back: the date at the distance of a real day is that day.
pub proof fn lemma_ida_e_volta(ano: int, mes: int, dia: int)
    requires
        existe(ano, mes, dia),
    ensures
        civil(dias(ano, mes, dia)) == (ano, mes, dia),
{
    let t = (ano, mes, dia);
    assert(existe(t.0, t.1, t.2) && dias(t.0, t.1, t.2) == dias(ano, mes, dia));
    let c = civil(dias(ano, mes, dia));
    lemma_um_dia_so(c, t);
}

/// The steps from a day count to a date: the 400-year cycle and the place in it, the
/// century, the group of four years, the year, the month.
proof fn lemma_partes_do_ciclo(doe: int, c: int, q: int, y4: int, doy: int, mp: int)
    requires
        0 <= doe < 146097,
        c == if doe / 36524 > 3 {
            3
        } else {
            doe / 36524
        },
        q == (doe - 36524 * c) / 1461,
        y4 == if ((doe - 36524 * c) % 1461) / 365 > 3 {
            3
        } else {
            ((doe - 36524 * c) % 1461) / 365
        },
        doy == (doe - 36524 * c) % 1461 - 365 * y4,
        mp == (5 * doy + 2) / 153,
    ensures
        0 <= c <= 3,
        0 <= q <= 24,
        0 <= y4 <= 3,
        0 <= doy <= 365,
        0 <= mp <= 11,
        doe == 36524 * c + 1461 * q + 365 * y4 + doy,
        doy == 365 ==> y4 == 3 && (q < 24 || c == 3),
        (153 * mp + 2) / 5 <= doy,
        mp < 11 ==> doy < (153 * (mp + 1) + 2) / 5,
{
}

/// The year that begins in March `e` cycles, `c` centuries, `q` groups and `y4` years in, and
/// the days before it.
proof fn lemma_ano_do_ciclo(e: int, c: int, q: int, y4: int)
    requires
        0 <= c <= 3,
        0 <= q <= 24,
        0 <= y4 <= 3,
    ensures
        ({
            let a = e * 400 + 100 * c + 4 * q + y4;
            &&& a / 4 == e * 100 + 25 * c + q
            &&& a / 100 == e * 4 + c
            &&& a / 400 == e
            &&& a % 4 == y4
            &&& a % 100 == 4 * q + y4
            &&& ate_marco(a) == 146097 * e + 36524 * c + 1461 * q + 365 * y4
        }),
{
    let a = e * 400 + 100 * c + 4 * q + y4;
    assert(a / 4 == e * 100 + 25 * c + q);
    assert(a / 100 == e * 4 + c);
    assert(a / 400 == e);
}

/// The 29th of February of such a year, where there is one.
proof fn lemma_bissexto_do_ciclo(e: int, c: int, q: int)
    requires
        0 <= c <= 3,
        0 <= q <= 24,
        q < 24 || c == 3,
    ensures
        bissexto(e * 400 + 100 * c + 4 * q + 4),
{
    let a = e * 400 + 100 * c + 4 * q + 4;
    assert(a % 4 == 0);
    if q == 24 {
        assert(a == (e + 1) * 400);
    } else {
        assert(a % 100 == 4 * q + 4);
    }
}

/// Every distance from the epoch is that of a day of the calendar, and this is which.
#[verifier::rlimit(40)]
#[verifier::spinoff_prover]
proof fn lemma_civil(n: int, c: int, q: int, y4: int, doy: int, mp: int)
    requires
        0 <= c <= 3,
        0 <= q <= 24,
        0 <= y4 <= 3,
        0 <= doy <= 365,
        0 <= mp <= 11,
        (n + 719468) % 146097 == 36524 * c + 1461 * q + 365 * y4 + doy,
        doy == 365 ==> y4 == 3 && (q < 24 || c == 3),
        (153 * mp + 2) / 5 <= doy,
        mp < 11 ==> doy < (153 * (mp + 1) + 2) / 5,
    ensures
        ({
            let a = (n + 719468) / 146097 * 400 + 100 * c + 4 * q + y4;
            let m = if mp < 10 {
                mp + 3
            } else {
                mp - 9
            };
            let y = if m <= 2 {
                a + 1
            } else {
                a
            };
            let d = doy - (153 * mp + 2) / 5 + 1;
            existe(y, m, d) && dias(y, m, d) == n && civil(n) == (y, m, d)
        }),
{
    let e = (n + 719468) / 146097;
    let a = e * 400 + 100 * c + 4 * q + y4;
    let m = if mp < 10 {
        mp + 3
    } else {
        mp - 9
    };
    let y = if m <= 2 {
        a + 1
    } else {
        a
    };
    let d = doy - (153 * mp + 2) / 5 + 1;
    lemma_ano_do_ciclo(e, c, q, y4);
    assert(ate_marco(a) + doy == n + 719468);
    assert(dias(y, m, d) == n);
    if doy == 365 {
        lemma_bissexto_do_ciclo(e, c, q);
    }
    assert(existe(y, m, d));
    lemma_ida_e_volta(y, m, d);
}

/// Division rounded down, for a positive divisor.
fn quociente(a: i64, b: i64) -> (r: i64)
    requires
        b > 0,
    ensures
        r == a as int / b as int,
{
    if a >= 0 {
        a / b
    } else {
        let k: i64 = (-1 - a) / b;
        proof {
            let q = k as int;
            let n = -1 - a;
            vstd::arithmetic::div_mod::lemma_fundamental_div_mod(n as int, b as int);
            let rem = n as int % b as int;
            assert(a as int == b as int * (-1 - q) + (b - 1 - rem)) by (nonlinear_arith)
                requires
                    n as int == b as int * q + rem,
                    n as int == -1 - a,
            ;
            vstd::arithmetic::div_mod::lemma_fundamental_div_mod_converse(
                a as int,
                b as int,
                -1 - q,
                b - 1 - rem,
            );
        }
        -1 - k
    }
}

/// Remainder of the division rounded down: never negative.
fn resto(a: i64, b: i64) -> (r: i64)
    requires
        b > 0,
    ensures
        r == a as int % b as int,
{
    if a >= 0 {
        a % b
    } else {
        let k: i64 = (-1 - a) % b;
        proof {
            let n = -1 - a;
            vstd::arithmetic::div_mod::lemma_fundamental_div_mod(n as int, b as int);
            let d = n as int / b as int;
            assert(a as int == b as int * (-1 - d) + (b - 1 - k)) by (nonlinear_arith)
                requires
                    n as int == b as int * d + k,
                    n as int == -1 - a,
            ;
            vstd::arithmetic::div_mod::lemma_fundamental_div_mod_converse(
                a as int,
                b as int,
                -1 - d,
                b - 1 - k,
            );
        }
        b - 1 - k
    }
}

/// Days since the epoch of a year, month and day.
pub fn dias_de(ano: i32, mes: u32, dia: u32) -> (r: i64)
    ensures
        r == dias(ano as int, mes as int, dia as int),
        -800_000_000_000 <= r <= 1_000_000_000_000,
{
    let a: i64 = if mes <= 2 {
        (ano as i64) - 1
    } else {
        ano as i64
    };
    let m: i64 = if mes > 2 {
        (mes as i64) - 3
    } else {
        (mes as i64) + 9
    };
    365 * a + quociente(a, 4) - quociente(a, 100) + quociente(a, 400) + (153 * m + 2) / 5 + (
    dia as i64) - 1 - 719468
}

/// The date at a distance from the epoch, its year kept in 32 bits.
pub open spec fn data_em(n: int) -> Data {
    let c = civil(n);
    Data { ano: c.0 as i32, mes: c.1 as u32, dia: c.2 as u32 }
}

/// Every distance from the epoch is that of a day of the calendar.
pub proof fn lemma_civil_existe(n: int)
    ensures
        existe(civil(n).0, civil(n).1, civil(n).2),
        dias(civil(n).0, civil(n).1, civil(n).2) == n,
{
    let doe = (n + 719468) % 146097;
    let c = if doe / 36524 > 3 {
        3
    } else {
        doe / 36524
    };
    let q = (doe - 36524 * c) / 1461;
    let r2 = (doe - 36524 * c) % 1461;
    let y4 = if r2 / 365 > 3 {
        3
    } else {
        r2 / 365
    };
    let doy = r2 - 365 * y4;
    let mp = (5 * doy + 2) / 153;
    lemma_partes_do_ciclo(doe, c, q, y4, doy, mp);
    lemma_civil(n, c, q, y4, doy, mp);
}

/// Between two dates whose years fit in 32 bits, the date at a distance from the epoch is
/// a day of the calendar, at that distance.
pub proof fn lemma_data_em(de: Data, n: int, ate: Data)
    requires
        de.valida(),
        ate.valida(),
        de.n() <= n <= ate.n(),
    ensures
        data_em(n).valida(),
        data_em(n).n() == n,
        civil(n) == (data_em(n).ano as int, data_em(n).mes as int, data_em(n).dia as int),
{
    lemma_civil_existe(n);
    let c = civil(n);
    if c.0 < de.ano {
        lemma_ordem(c, (de.ano as int, de.mes as int, de.dia as int));
    }
    if c.0 > ate.ano {
        lemma_ordem((ate.ano as int, ate.mes as int, ate.dia as int), c);
    }
}

/// The date at a distance from the epoch. The year is kept in 32 bits.
pub fn data_de_dias(dias: i64) -> (r: Data)
    requires
        dias + 719468 <= i64::MAX,
    ensures
        r == data_em(dias as int),
        r.mes == civil(dias as int).1,
        r.dia == civil(dias as int).2,
{
    let z: i64 = dias + 719468;
    let era = quociente(z, 146097);
    let doe = resto(z, 146097);
    let c: i64 = if doe / 36524 > 3 {
        3
    } else {
        doe / 36524
    };
    let r1: i64 = doe - 36524 * c;
    let q: i64 = r1 / 1461;
    let r2: i64 = r1 % 1461;
    let y4: i64 = if r2 / 365 > 3 {
        3
    } else {
        r2 / 365
    };
    let doy: i64 = r2 - 365 * y4;
    let mp: i64 = (5 * doy + 2) / 153;
    proof {
        lemma_partes_do_ciclo(doe as int, c as int, q as int, y4 as int, doy as int, mp as int);
        lemma_civil(dias as int, c as int, q as int, y4 as int, doy as int, mp as int);
    }
    let a: i64 = era * 400 + 100 * c + 4 * q + y4;
    let d: i64 = doy - (153 * mp + 2) / 5 + 1;
    let m: i64 = if mp < 10 {
        mp + 3
    } else {
        mp - 9
    };
    let y: i64 = if m <= 2 {
        a + 1
    } else {
        a
    };
    Data { ano: #[verifier::truncate] (y as i32), mes: m as u32, dia: d as u32 }
}

// --- instants ------------------------------------------------------------------------------

/// Seconds of the local clock, from the epoch: the instant moved by an offset from UTC.
pub open spec fn local(epoch: u64, offset: i64) -> int {
    (epoch as i64) + offset
}

/// The local clock fits in 64 bits.
pub open spec fn cabe(epoch: u64, offset: i64) -> bool {
    i64::MIN <= local(epoch, offset) <= i64::MAX
}

/// Hour and minute of an instant on the local clock.
pub fn hora_minuto(epoch: u64, offset: i64) -> (r: (u32, u32))
    requires
        cabe(epoch, offset),
    ensures
        r.0 == local(epoch, offset) % 86400 / 3600,
        r.1 == local(epoch, offset) % 86400 % 3600 / 60,
        r.0 < 24,
        r.1 < 60,
{
    let s = resto(#[verifier::truncate] (epoch as i64) + offset, 86400);
    ((s / 3600) as u32, (s % 3600 / 60) as u32)
}

/// The hour (0 to 23) of an instant on the local clock.
pub fn hora(epoch: u64, offset: i64) -> (r: u32)
    requires
        cabe(epoch, offset),
    ensures
        r == local(epoch, offset) % 86400 / 3600,
        r < 24,
{
    let s = resto(#[verifier::truncate] (epoch as i64) + offset, 86400);
    (s / 3600) as u32
}

/// A number in at least two digits.
pub open spec fn dois(n: nat) -> Seq<char> {
    zero_filled(decimal(n), 2)
}

/// Writes a number in at least two digits.
pub fn dois_digitos(n: u64) -> (r: String)
    ensures
        r@ == dois(n as nat),
{
    let s = dec(n);
    zero_fill(s.as_str(), 2)
}

/// The day of an instant, counted from the epoch on the local clock.
pub open spec fn dia_de(epoch: u64, offset: i64) -> int {
    local(epoch, offset) / 86400
}

/// Day, month, hour and minute of an instant: `08/09 21:43`.
pub open spec fn texto_dia_e_hora(epoch: u64, offset: i64) -> Seq<char> {
    let d = civil(dia_de(epoch, offset));
    let s = local(epoch, offset) % 86400;
    dois(d.2 as nat) + "/"@ + dois(d.1 as nat) + " "@ + dois((s / 3600) as nat) + ":"@ + dois(
        (s % 3600 / 60) as nat,
    )
}

/// Day and time without the year, for a list where everything is recent.
pub fn dia_e_hora(epoch: u64, offset: i64) -> (r: String)
    requires
        cabe(epoch, offset),
    ensures
        r@ == texto_dia_e_hora(epoch, offset),
{
    let d = Data::de_epoch(epoch, offset);
    let (h, m) = hora_minuto(epoch, offset);
    let mut r = dois_digitos(d.dia as u64);
    r.append("/");
    r.append(dois_digitos(d.mes as u64).as_str());
    r.append(" ");
    r.append(dois_digitos(h as u64).as_str());
    r.append(":");
    r.append(dois_digitos(m as u64).as_str());
    r
}

impl Data {
    /// Days between the epoch and this date.
    pub open spec fn n(self) -> int {
        dias(self.ano as int, self.mes as int, self.dia as int)
    }

    /// A date that the calendar has.
    pub open spec fn valida(self) -> bool {
        existe(self.ano as int, self.mes as int, self.dia as int)
    }

    /// The date of an instant on the local clock. The year is kept in 32 bits.
    pub fn de_epoch(epoch: u64, offset: i64) -> (r: Data)
        requires
            cabe(epoch, offset),
        ensures
            r == data_em(dia_de(epoch, offset)),
            r.mes == civil(dia_de(epoch, offset)).1,
            r.dia == civil(dia_de(epoch, offset)).2,
    {
        let d = quociente(#[verifier::truncate] (epoch as i64) + offset, 86400);
        data_de_dias(d)
    }

    /// The instant at which this date begins on the local clock; 0 when that is before the
    /// epoch.
    pub fn epoch_inicio(&self, offset: i64) -> (r: u64)
        requires
            self.n() * 86400 - offset <= i64::MAX,
            self.n() * 86400 - offset >= i64::MIN,
        ensures
            r == if self.n() * 86400 - offset > 0 {
                self.n() * 86400 - offset
            } else {
                0
            },
    {
        let s: i64 = dias_de(self.ano, self.mes, self.dia) * 86400 - offset;
        if s > 0 {
            s as u64
        } else {
            0
        }
    }

    /// Day of the week, 0 for Sunday. The epoch fell on a Thursday.
    pub open spec fn semana(self) -> int {
        (self.n() + 4) % 7
    }

    /// Day of the week, 0 for Sunday.
    pub fn dia_da_semana(&self) -> (r: u32)
        ensures
            r == self.semana(),
    {
        resto(dias_de(self.ano, self.mes, self.dia) + 4, 7) as u32
    }

    /// Saturday or Sunday.
    pub fn fim_de_semana(&self) -> (r: bool)
        ensures
            r == (self.semana() == 0 || self.semana() == 6),
    {
        let d = self.dia_da_semana();
        d == 0 || d == 6
    }

    /// Day, month and year: `08/09/2026`.
    pub open spec fn texto_longo(self) -> Seq<char> {
        dois(self.dia as nat) + "/"@ + dois(self.mes as nat) + "/"@ + decimal_signed(
            self.ano as int,
        )
    }

    /// Writes day, month and year.
    pub fn longa(&self) -> (r: String)
        ensures
            r@ == self.texto_longo(),
    {
        let mut r = dois_digitos(self.dia as u64);
        r.append("/");
        r.append(dois_digitos(self.mes as u64).as_str());
        r.append("/");
        r.append(dec_signed(self.ano as i64).as_str());
        r
    }

    /// The key of a month: `2026-09`.
    pub open spec fn texto_mes(self) -> Seq<char> {
        decimal_signed(self.ano as int) + "-"@ + dois(self.mes as nat)
    }

    /// Writes the key of the month, which sorts as text in the order of time.
    pub fn chave_mes(&self) -> (r: String)
        ensures
            r@ == self.texto_mes(),
    {
        let mut r = dec_signed(self.ano as i64);
        r.append("-");
        r.append(dois_digitos(self.mes as u64).as_str());
        r
    }

    /// The first of the month before.
    pub fn mes_anterior(&self) -> (r: Data)
        requires
            self.mes >= 1,
            self.mes == 1 ==> self.ano > i32::MIN,
        ensures
            r == self.anterior(),
    {
        if self.mes == 1 {
            Data { ano: self.ano - 1, mes: 12, dia: 1 }
        } else {
            Data { ano: self.ano, mes: self.mes - 1, dia: 1 }
        }
    }

    /// The first of the month before.
    pub open spec fn anterior(self) -> Data {
        if self.mes == 1 {
            Data { ano: (self.ano - 1) as i32, mes: 12, dia: 1 }
        } else {
            Data { ano: self.ano, mes: (self.mes - 1) as u32, dia: 1 }
        }
    }

    /// The first of the month after.
    pub open spec fn seguinte(self) -> Data {
        if self.mes == 12 {
            Data { ano: (self.ano + 1) as i32, mes: 1, dia: 1 }
        } else {
            Data { ano: self.ano, mes: (self.mes + 1) as u32, dia: 1 }
        }
    }

    /// The first of the month after.
    pub fn mes_seguinte(&self) -> (r: Data)
        requires
            self.mes < u32::MAX,
            self.mes == 12 ==> self.ano < i32::MAX,
        ensures
            r == self.seguinte(),
    {
        if self.mes == 12 {
            Data { ano: self.ano + 1, mes: 1, dia: 1 }
        } else {
            Data { ano: self.ano, mes: self.mes + 1, dia: 1 }
        }
    }
}

/// Two months on, two months back: the first of a month is the month after the month
/// before it.
pub proof fn lemma_mes_vai_e_volta(d: Data)
    requires
        1 <= d.mes <= 12,
        i32::MIN < d.ano < i32::MAX,
    ensures
        d.anterior().seguinte() == (Data { ano: d.ano, mes: d.mes, dia: 1 }),
        d.seguinte().anterior() == (Data { ano: d.ano, mes: d.mes, dia: 1 }),
        d.anterior().n() + dias_no_mes(d.anterior().ano as int, d.anterior().mes as int) == dias(
            d.ano as int,
            d.mes as int,
            1,
        ),
{
    lemma_calendario(d.anterior().ano as int, d.anterior().mes as int, 1);
}

proof fn lemma_quatro_digitos(n: nat)
    requires
        1000 <= n <= 9999,
    ensures
        decimal(n) =~= seq![
            crate::text::digit_char(n / 1000),
            crate::text::digit_char(n / 100 % 10),
            crate::text::digit_char(n / 10 % 10),
            crate::text::digit_char(n % 10),
        ],
{
    reveal_with_fuel(decimal, 4);
}

proof fn lemma_dois_digitos(n: nat)
    requires
        1 <= n <= 12,
    ensures
        dois(n) =~= seq![crate::text::digit_char(n / 10), crate::text::digit_char(n % 10)],
{
    reveal_with_fuel(decimal, 2);
    if n < 10 {
        assert(crate::number::zeros(1) =~= seq!['0']);
    }
}

proof fn lemma_texto_mes(d: Data)
    requires
        1000 <= d.ano <= 9999,
        1 <= d.mes <= 12,
    ensures
        ({
            let a = d.ano as nat;
            let m = d.mes as nat;
            d.texto_mes() =~= seq![
                crate::text::digit_char(a / 1000),
                crate::text::digit_char(a / 100 % 10),
                crate::text::digit_char(a / 10 % 10),
                crate::text::digit_char(a % 10),
                '-',
                crate::text::digit_char(m / 10),
                crate::text::digit_char(m % 10),
            ]
        }),
{
    lemma_quatro_digitos(d.ano as nat);
    lemma_dois_digitos(d.mes as nat);
    reveal_strlit("-");
}

proof fn lemma_dezena(n: nat)
    ensures
        n / 100 == 10 * (n / 1000) + n / 100 % 10,
        n / 10 == 10 * (n / 100) + n / 10 % 10,
        n == 10 * (n / 10) + n % 10,
{
    vstd::arithmetic::div_mod::lemma_div_denominator(n as int, 100, 10);
    vstd::arithmetic::div_mod::lemma_div_denominator(n as int, 10, 10);
}

proof fn lemma_divide_em_ordem(p: nat, q: nat)
    requires
        p < q,
    ensures
        p / 10 <= q / 10,
        p / 100 <= q / 100,
        p / 1000 <= q / 1000,
{
}

proof fn lemma_digitos_em_ordem(p: nat, q: nat)
    requires
        p < q,
    ensures
        p / 1000 <= q / 1000,
        p / 1000 == q / 1000 ==> p / 100 % 10 <= q / 100 % 10,
        p / 100 == q / 100 ==> p / 1000 == q / 1000 && p / 100 % 10 == q / 100 % 10 && p / 10 % 10
            <= q / 10 % 10,
        p / 10 == q / 10 ==> p / 100 == q / 100 && p / 10 % 10 == q / 10 % 10 && p % 10 < q % 10,
        p / 1000 == q / 1000 && p / 100 % 10 == q / 100 % 10 ==> p / 100 == q / 100,
        p / 100 == q / 100 && p / 10 % 10 == q / 10 % 10 ==> p / 10 == q / 10,
{
    lemma_divide_em_ordem(p, q);
    lemma_dezena(p);
    lemma_dezena(q);
}

/// The keys of two months sort as text in the order of the months, for years of four
/// digits.
pub proof fn lemma_chave_ordena(a: Data, b: Data)
    requires
        1000 <= a.ano <= 9999,
        1000 <= b.ano <= 9999,
        1 <= a.mes <= 12,
        1 <= b.mes <= 12,
        a.ano < b.ano || (a.ano == b.ano && a.mes < b.mes),
    ensures
        text_before(a.texto_mes(), b.texto_mes()),
{
    lemma_texto_mes(a);
    lemma_texto_mes(b);
    let x = a.texto_mes();
    let y = b.texto_mes();
    let p = a.ano as nat;
    let q = b.ano as nat;
    if p < q {
        lemma_digitos_em_ordem(p, q);
        let k: int = if p / 1000 != q / 1000 {
            0
        } else if p / 100 != q / 100 {
            1
        } else if p / 10 != q / 10 {
            2
        } else {
            3
        };
        assert(differs_at(x, y, k));
    } else {
        let k: int = if a.mes / 10 != b.mes / 10 {
            5
        } else {
            6
        };
        assert(differs_at(x, y, k));
    }
}

/// Numbers of two digits sort as text in their order.
pub proof fn lemma_dois_em_ordem(p: nat, q: nat)
    requires
        p < q < 100,
    ensures
        dois(p).len() == 2,
        dois(q).len() == 2,
        exists|k: int| differs_at(dois(p), dois(q), k),
{
    lemma_dois_quaisquer(p);
    lemma_dois_quaisquer(q);
    let k: int = if p / 10 != q / 10 {
        0
    } else {
        1
    };
    assert(differs_at(dois(p), dois(q), k));
}

proof fn lemma_dois_quaisquer(n: nat)
    requires
        n < 100,
    ensures
        dois(n) =~= seq![crate::text::digit_char(n / 10), crate::text::digit_char(n % 10)],
{
    reveal_with_fuel(decimal, 2);
    if n < 10 {
        assert(crate::number::zeros(1) =~= seq!['0']);
    }
}

/// The keys of months have one length, for years of four digits: where they differ, they
/// differ at a character.
pub proof fn lemma_mesmo_tamanho(a: Data, b: Data)
    requires
        1000 <= a.ano <= 9999,
        1000 <= b.ano <= 9999,
        1 <= a.mes <= 12,
        1 <= b.mes <= 12,
    ensures
        a.texto_mes().len() == 7,
        b.texto_mes().len() == 7,
{
    lemma_texto_mes(a);
    lemma_texto_mes(b);
}

// --- closed periods ------------------------------------------------------------------------

/// The Monday that a date's week began on. A Sunday belongs to the week that began on the
/// Monday before it.
pub open spec fn segunda(hoje: Data) -> int {
    hoje.n() - (hoje.semana() + 6) % 7
}

/// Last week, from its Monday to its Friday.
pub fn semana_anterior(hoje: &Data) -> (r: (Data, Data))
    ensures
        r.0 == data_em(segunda(*hoje) - 7),
        r.1 == data_em(segunda(*hoje) - 3),
{
    let d = dias_de(hoje.ano, hoje.mes, hoje.dia);
    let recuo: u32 = (hoje.dia_da_semana() + 6) % 7;
    let segunda: i64 = d - (recuo as i64);
    (data_de_dias(segunda - 7), data_de_dias(segunda - 3))
}

proof fn lemma_recuo(n: int)
    ensures
        0 <= ((n + 4) % 7 + 6) % 7 <= 6,
        (n - ((n + 4) % 7 + 6) % 7 - 7 + 4) % 7 == 1,
        (n - ((n + 4) % 7 + 6) % 7 - 3 + 4) % 7 == 5,
{
}

/// Last week runs from a Monday to the Friday after it, and lies wholly before the week
/// that today is in.
pub proof fn lemma_semana_anterior(hoje: Data)
    requires
        hoje.valida(),
        hoje.ano > i32::MIN,
    ensures
        data_em(segunda(hoje) - 7).valida(),
        data_em(segunda(hoje) - 3).valida(),
        data_em(segunda(hoje) - 7).semana() == 1,
        data_em(segunda(hoje) - 3).semana() == 5,
        data_em(segunda(hoje) - 3).n() == data_em(segunda(hoje) - 7).n() + 4,
        7 <= hoje.n() - data_em(segunda(hoje) - 7).n() <= 13,
{
    let de = Data { ano: (hoje.ano - 1) as i32, mes: 12, dia: 1 };
    let s = segunda(hoje);
    lemma_recuo(hoje.n());
    assert(de.n() + 31 <= hoje.n()) by {
        assert(dias(de.ano as int, 12, 31) == de.n() + 30);
        lemma_ordem((de.ano as int, 12, 31), (hoje.ano as int, hoje.mes as int, hoje.dia as int));
    }
    lemma_data_em(de, s - 7, hoje);
    lemma_data_em(de, s - 3, hoje);
}

/// The whole of last month, from its first day to its last.
pub fn mes_passado(hoje: &Data) -> (r: (Data, Data))
    requires
        1 <= hoje.mes <= 12,
        hoje.mes == 1 ==> hoje.ano > i32::MIN,
    ensures
        r.0 == hoje.anterior(),
        r.1 == (Data {
            ano: r.0.ano,
            mes: r.0.mes,
            dia: dias_no_mes(r.0.ano as int, r.0.mes as int) as u32,
        }),
        r.1.n() + 1 == dias(hoje.ano as int, hoje.mes as int, 1),
{
    let primeiro = hoje.mes_anterior();
    let vespera: i64 = dias_de(hoje.ano, hoje.mes, 1) - 1;
    proof {
        let a = primeiro.ano as int;
        let m = primeiro.mes as int;
        lemma_calendario(a, m, 1);
        assert(dias(a, m, dias_no_mes(a, m)) == vespera);
        lemma_ida_e_volta(a, m, dias_no_mes(a, m));
    }
    (primeiro, data_de_dias(vespera))
}

/// The names of the months.
pub const MESES: [&'static str; 12] = [
    "janeiro",
    "fevereiro",
    "março",
    "abril",
    "maio",
    "junho",
    "julho",
    "agosto",
    "setembro",
    "outubro",
    "novembro",
    "dezembro",
];

/// The name of a month; a number outside 1 to 12 goes to the nearest month.
pub fn nome_mes(mes: u32) -> (r: &'static str)
    ensures
        r@ == MESES[if mes < 1 {
            0
        } else if mes > 12 {
            11
        } else {
            mes - 1
        }]@,
{
    let i: usize = if mes < 1 {
        0
    } else if mes > 12 {
        11
    } else {
        (mes - 1) as usize
    };
    MESES[i]
}

// --- ISO 8601 ------------------------------------------------------------------------------

/// The number a text writes, when it fits in a signed 32-bit integer.
pub open spec fn i32_lido(s: Seq<char>) -> Option<int> {
    match integer(s) {
        Some(n) => if i32::MIN <= n <= i32::MAX {
            Some(n)
        } else {
            None
        },
        None => None,
    }
}

/// The number a text writes, when it fits in an unsigned 32-bit integer.
pub open spec fn u32_lido(s: Seq<char>) -> Option<nat> {
    within(natural(s), u32::MAX as nat)
}

/// The number a text writes, when it fits in 64 bits; 0 otherwise.
pub open spec fn ou_zero(s: Seq<char>) -> int {
    match within_i64(integer(s)) {
        Some(n) => n,
        None => 0,
    }
}

/// The day that `ano-mes-dia` writes, counted from the epoch.
pub open spec fn dia_lido(s: Seq<char>) -> Option<int> {
    let p = pieces(s, Cut::At('-'));
    if p.len() < 3 {
        None
    } else {
        match (i32_lido(p[0]), u32_lido(p[1]), u32_lido(p[2])) {
            (Some(a), Some(m), Some(d)) => Some(dias(a, m as int, d as int)),
            _ => None,
        }
    }
}

/// The seconds into the day that `horas:minutos:segundos` writes. Hours are required;
/// minutes and seconds that cannot be read count as zero, and a fraction or an offset after
/// the seconds is left out.
pub open spec fn hora_lida(s: Seq<char>) -> Option<int> {
    let p = pieces(trimmed_end(s, Cut::At('Z')), Cut::At(':'));
    match within_i64(integer(p[0])) {
        None => None,
        Some(h) => {
            let m = if p.len() > 1 {
                ou_zero(p[1])
            } else {
                0
            };
            let s = if p.len() > 2 {
                ou_zero(before(p[2], Cut::In('.', '+', '-')))
            } else {
                0
            };
            Some(h * 3600 + m * 60 + s)
        },
    }
}

/// A day and a time of day, as one instant.
pub open spec fn dia_com_hora(dia: Option<int>, hora: Option<int>) -> Option<int> {
    match (dia, hora) {
        (Some(d), Some(h)) => Some(d * 86400 + h),
        _ => None,
    }
}

/// The number that exactly `n` decimal digits write.
pub open spec fn algarismos(s: Seq<char>, n: nat) -> Option<nat> {
    if s.len() == n && all_digits(s) {
        Some(value(s))
    } else {
        None
    }
}

/// The day that `AAAA-MM-DD` writes, counted from the epoch: four digits, two and two, and a day
/// that the calendar has.
pub open spec fn dia_exato(s: Seq<char>) -> Option<int> {
    let p = pieces(s, Cut::At('-'));
    if p.len() != 3 {
        None
    } else {
        match (algarismos(p[0], 4), algarismos(p[1], 2), algarismos(p[2], 2)) {
            (Some(a), Some(m), Some(d)) => if existe(a as int, m as int, d as int) {
                Some(dias(a as int, m as int, d as int))
            } else {
                None
            },
            _ => None,
        }
    }
}

/// The seconds into the day that `HH:MM:SS` writes: two digits each, and a time that the clock
/// has.
pub open spec fn hora_exata(s: Seq<char>) -> Option<int> {
    let p = pieces(s, Cut::At(':'));
    if p.len() != 3 {
        None
    } else {
        match (algarismos(p[0], 2), algarismos(p[1], 2), algarismos(p[2], 2)) {
            (Some(h), Some(m), Some(x)) => if h < 24 && m < 60 && x < 60 {
                Some((h * 3600 + m * 60 + x) as int)
            } else {
                None
            },
            _ => None,
        }
    }
}

/// The instant that a text writes: ISO 8601, a date and the time of day with a `T` between them,
/// whose offset is not applied; or `AAAA-MM-DD HH:MM:SS`; or `AAAA-MM-DD` alone, which is its
/// midnight. Without the `T` to tell what the text is, nothing but a real day and time is read.
pub open spec fn iso(s: Seq<char>) -> Option<int> {
    match cut_once(s, Cut::At('T')) {
        Some((d, h)) => dia_com_hora(dia_lido(d), hora_lida(h)),
        None => match cut_once(s, Cut::At(' ')) {
            Some((d, h)) => dia_com_hora(dia_exato(d), hora_exata(h)),
            None => dia_com_hora(dia_exato(s), Some(0)),
        },
    }
}

/// Without a `T`, a text that is read is a real day of the calendar, and the instant is in that
/// day: a date that cannot be read does not become some instant.
pub proof fn lemma_sem_t(s: Seq<char>)
    requires
        cut_once(s, Cut::At('T')) is None,
        iso(s) is Some,
    ensures
        exists|d: Data| #[trigger]
            d.valida() && 0 <= d.ano <= 9999 && iso(s)->0 / 86400 == d.n(),
{
    let t = match cut_once(s, Cut::At(' ')) {
        Some((d, h)) => d,
        None => s,
    };
    let p = pieces(t, Cut::At('-'));
    lemma_algarismos(p[0]);
    lemma_algarismos(p[1]);
    lemma_algarismos(p[2]);
    let d = Data { ano: value(p[0]) as i32, mes: value(p[1]) as u32, dia: value(p[2]) as u32 };
    assert(d.valida());
    assert(dia_exato(t) == Some(d.n()));
    assert(d.n() * 86400 <= iso(s)->0 < d.n() * 86400 + 86400);
}

/// What up to four digits write is below ten thousand.
proof fn lemma_algarismos(s: Seq<char>)
    requires
        s.len() <= 4,
        all_digits(s),
    ensures
        value(s) <= 9999,
        s.len() <= 2 ==> value(s) <= 99,
{
    reveal_with_fuel(value, 5);
    let n = s.len() as int;
    assert(forall|i: int| 0 <= i < n ==> is_digit(#[trigger] s[i]));
    if n > 1 {
        assert(s.drop_last().last() == s[n - 2]);
    }
    if n > 2 {
        assert(s.drop_last().drop_last().last() == s[n - 3]);
    }
    if n > 3 {
        assert(s.drop_last().drop_last().drop_last().last() == s[n - 4]);
    }
}

/// An instant as an unsigned count of seconds: nothing comes before the epoch, and what
/// does not fit in 64 bits is no instant.
pub open spec fn em_segundos(n: Option<int>) -> Option<int> {
    match n {
        Some(v) => if v > u64::MAX {
            None
        } else if v > 0 {
            Some(v)
        } else {
            Some(0)
        },
        None => None,
    }
}

/// The optional instant as a mathematical number.
pub open spec fn instante_em(r: Option<u64>) -> Option<int> {
    match r {
        Some(v) => Some(v as int),
        None => None,
    }
}

/// Reads a number that fits in a signed 32-bit integer.
pub fn ler_i32(s: &str) -> (r: Option<i32>)
    ensures
        (match r {
            Some(v) => i32_lido(s@) == Some(v as int),
            None => i32_lido(s@) is None,
        }),
{
    match parse_i64(s) {
        Some(v) => if -0x8000_0000 <= v && v <= 0x7fff_ffff {
            Some(v as i32)
        } else {
            None
        },
        None => None,
    }
}

/// Reads a number that fits in an unsigned 32-bit integer.
pub fn ler_u32(s: &str) -> (r: Option<u32>)
    ensures
        (match r {
            Some(v) => u32_lido(s@) == Some(v as nat),
            None => u32_lido(s@) is None,
        }),
{
    match parse_upto(s, 0xffff_ffff) {
        Some(v) => Some(v as u32),
        None => None,
    }
}

/// Reads a 64-bit number, or 0.
pub fn ler_ou_zero(s: &str) -> (r: i64)
    ensures
        r == ou_zero(s@),
{
    match parse_i64(s) {
        Some(v) => v,
        None => 0,
    }
}

/// Reads the day that `ano-mes-dia` writes.
pub fn ler_dia(s: &str) -> (r: Option<i64>)
    ensures
        as_int(r) == dia_lido(s@),
        r is Some ==> -800_000_000_000 <= r->0 <= 1_000_000_000_000,
{
    let p = split(s, Cut::At('-'));
    assert(views(p@).len() == p@.len());
    if p.len() < 3 {
        return None;
    }
    assert(views(p@)[0] == p@[0]@ && views(p@)[1] == p@[1]@ && views(p@)[2] == p@[2]@);
    match (ler_i32(p[0].as_str()), ler_u32(p[1].as_str()), ler_u32(p[2].as_str())) {
        (Some(a), Some(m), Some(d)) => Some(dias_de(a, m, d)),
        _ => None,
    }
}

/// What precedes a fraction or an offset.
fn antes_da_fracao(s: &str) -> (r: String)
    ensures
        r@ == before(s@, Cut::In('.', '+', '-')),
{
    let v = chars_of(s);
    assert(v@.skip(0) =~= v@);
    let n = reach_from(v.as_slice(), 0, Cut::In('.', '+', '-'));
    let r = text_of(slice_subrange(v.as_slice(), 0, n));
    assert(r@ =~= s@.take(n as int));
    r
}

/// Reads the time of day.
fn ler_hora(s: &str) -> (r: Option<i128>)
    ensures
        (match r {
            Some(v) => hora_lida(s@) == Some(v as int),
            None => hora_lida(s@) is None,
        }),
        r is Some ==> -0x1_0000_0000_0000_0000_0000 <= r->0 <= 0x1_0000_0000_0000_0000_0000,
{
    let t = trim_end_of(s, Cut::At('Z'));
    let p = split(t.as_str(), Cut::At(':'));
    assert(views(p@).len() == p@.len());
    assert(views(p@)[0] == p@[0]@);
    let h: i64 = match parse_i64(p[0].as_str()) {
        Some(h) => h,
        None => {
            return None;
        },
    };
    let m: i64 = if p.len() > 1 {
        assert(views(p@)[1] == p@[1]@);
        ler_ou_zero(p[1].as_str())
    } else {
        0
    };
    let s: i64 = if p.len() > 2 {
        assert(views(p@)[2] == p@[2]@);
        let inteiro = antes_da_fracao(p[2].as_str());
        ler_ou_zero(inteiro.as_str())
    } else {
        0
    };
    Some((h as i128) * 3600 + (m as i128) * 60 + (s as i128))
}

/// An instant as an unsigned count of seconds.
pub fn contar(n: i128) -> (r: Option<u64>)
    ensures
        instante_em(r) == em_segundos(Some(n as int)),
{
    if n > 0xffff_ffff_ffff_ffff {
        None
    } else if n > 0 {
        Some(n as u64)
    } else {
        Some(0)
    }
}

/// The instant of a day and a time of day read apart.
fn juntar(dia: Option<i64>, hora: Option<i128>) -> (r: Option<u64>)
    requires
        dia is Some ==> -800_000_000_000 <= dia->0 <= 1_000_000_000_000,
        hora is Some ==> -0x1_0000_0000_0000_0000_0000 <= hora->0 <= 0x1_0000_0000_0000_0000_0000,
    ensures
        instante_em(r) == em_segundos(
            dia_com_hora(
                as_int(dia),
                match hora {
                    Some(h) => Some(h as int),
                    None => None,
                },
            ),
        ),
{
    match (dia, hora) {
        (Some(d), Some(h)) => contar((d as i128) * 86400 + h),
        _ => None,
    }
}

/// Reads the number that exactly `n` decimal digits write.
fn ler_algarismos(s: &str, n: usize) -> (r: Option<u64>)
    requires
        n <= 4,
    ensures
        (match r {
            Some(v) => algarismos(s@, n as nat) == Some(v as nat) && v <= 9999,
            None => algarismos(s@, n as nat) is None,
        }),
{
    let v = chars_of(s);
    if v.len() != n {
        return None;
    }
    proof {
        if all_digits(s@) {
            lemma_algarismos(s@);
        }
    }
    digits_upto(v.as_slice(), 9999)
}

/// How many days a month has.
fn tamanho_do_mes(ano: u64, mes: u64) -> (r: u64)
    ensures
        r == dias_no_mes(ano as int, mes as int),
{
    if mes == 2 {
        if ano % 4 == 0 && (ano % 100 != 0 || ano % 400 == 0) {
            29
        } else {
            28
        }
    } else if mes == 4 || mes == 6 || mes == 9 || mes == 11 {
        30
    } else {
        31
    }
}

/// Reads the day that `AAAA-MM-DD` writes.
fn ler_dia_exato(s: &str) -> (r: Option<i64>)
    ensures
        as_int(r) == dia_exato(s@),
        r is Some ==> -800_000_000_000 <= r->0 <= 1_000_000_000_000,
{
    let p = split(s, Cut::At('-'));
    assert(views(p@).len() == p@.len());
    if p.len() != 3 {
        return None;
    }
    assert(views(p@)[0] == p@[0]@ && views(p@)[1] == p@[1]@ && views(p@)[2] == p@[2]@);
    match (
        ler_algarismos(p[0].as_str(), 4),
        ler_algarismos(p[1].as_str(), 2),
        ler_algarismos(p[2].as_str(), 2),
    ) {
        (Some(a), Some(m), Some(d)) => if 1 <= m && m <= 12 && 1 <= d && d <= tamanho_do_mes(a, m) {
            Some(dias_de(a as i32, m as u32, d as u32))
        } else {
            None
        },
        _ => None,
    }
}

/// Reads the time of day that `HH:MM:SS` writes.
fn ler_hora_exata(s: &str) -> (r: Option<i128>)
    ensures
        (match r {
            Some(v) => hora_exata(s@) == Some(v as int) && 0 <= v < 86400,
            None => hora_exata(s@) is None,
        }),
{
    let p = split(s, Cut::At(':'));
    assert(views(p@).len() == p@.len());
    if p.len() != 3 {
        return None;
    }
    assert(views(p@)[0] == p@[0]@ && views(p@)[1] == p@[1]@ && views(p@)[2] == p@[2]@);
    match (
        ler_algarismos(p[0].as_str(), 2),
        ler_algarismos(p[1].as_str(), 2),
        ler_algarismos(p[2].as_str(), 2),
    ) {
        (Some(h), Some(m), Some(x)) => if h < 24 && m < 60 && x < 60 {
            Some((h * 3600 + m * 60 + x) as i128)
        } else {
            None
        },
        _ => None,
    }
}

/// The instant that a text writes, such as `2026-08-10T03:00:00.000Z`, `2026-08-10 03:00:00` or
/// `2026-08-10`.
///
/// The offset in the text is not applied: `Z` and `+03:00` give the same number, which is
/// enough to sort news and to date daily candles.
pub fn epoch_de_iso(texto: &str) -> (r: Option<u64>)
    ensures
        instante_em(r) == em_segundos(iso(texto@)),
{
    match split_once(texto, 'T') {
        Some((d, h)) => juntar(ler_dia(d.as_str()), ler_hora(h.as_str())),
        None => match split_once(texto, ' ') {
            Some((d, h)) => juntar(ler_dia_exato(d.as_str()), ler_hora_exata(h.as_str())),
            None => juntar(ler_dia_exato(texto), Some(0)),
        },
    }
}

// --- ages ----------------------------------------------------------------------------------

/// How long ago, in short words. The largest unit of which at least one has passed.
pub open spec fn texto_idade(segundos: nat) -> Seq<char> {
    if segundos < 60 {
        "agora"@
    } else if segundos < 3600 {
        "há "@ + decimal(segundos / 60) + " min"@
    } else if segundos < 86400 {
        "há "@ + decimal(segundos / 3600) + " h"@
    } else if segundos < 2592000 {
        "há "@ + decimal(segundos / 86400) + " d"@
    } else {
        "há "@ + decimal(segundos / 2592000) + " m"@
    }
}

/// Writes how long ago something happened.
pub fn idade(segundos: u64) -> (r: String)
    ensures
        r@ == texto_idade(segundos as nat),
{
    if segundos < 60 {
        return "agora".to_owned();
    }
    let (n, unidade): (u64, &str) = if segundos < 3600 {
        (segundos / 60, " min")
    } else if segundos < 86400 {
        (segundos / 3600, " h")
    } else if segundos < 2592000 {
        (segundos / 86400, " d")
    } else {
        (segundos / 2592000, " m")
    };
    let mut r = "há ".to_owned();
    r.append(dec(n).as_str());
    r.append(unidade);
    r
}

proof fn lemma_decimal_nao_comeca_em_zero(n: nat)
    requires
        n > 0,
    ensures
        decimal(n).len() > 0,
        decimal(n)[0] != '0',
    decreases n,
{
    if n >= 10 {
        lemma_decimal_nao_comeca_em_zero(n / 10);
    }
}

/// No amount of time is ever written as zero of something.
pub proof fn lemma_idade_nunca_zero(segundos: nat)
    ensures
        !crate::text::begins(texto_idade(segundos), "há 0"@),
{
    reveal_strlit("agora");
    reveal_strlit("há 0");
    reveal_strlit("há ");
    let t = texto_idade(segundos);
    if crate::text::begins(t, "há 0"@) {
        let p = t.subrange(0, 4);
        assert(p[0] == "há 0"@[0] && p[3] == "há 0"@[3]);
        assert(t[0] == 'h' && t[3] == '0');
        if segundos >= 60 {
            lemma_decimal_nao_comeca_em_zero(segundos / 60);
            if segundos >= 3600 {
                lemma_decimal_nao_comeca_em_zero(segundos / 3600);
            }
            if segundos >= 86400 {
                lemma_decimal_nao_comeca_em_zero(segundos / 86400);
            }
            if segundos >= 2592000 {
                lemma_decimal_nao_comeca_em_zero(segundos / 2592000);
            }
        }
    }
}

/// Three numbers with a dash between them are a year, a month and a day, in that order.
pub proof fn lemma_dia_lido(a: Seq<char>, m: Seq<char>, d: Seq<char>)
    requires
        is_without(a, '-'),
        is_without(m, '-'),
        is_without(d, '-'),
        i32_lido(a) is Some,
        u32_lido(m) is Some,
        u32_lido(d) is Some,
    ensures
        dia_lido(a + seq!['-'] + m + seq!['-'] + d) == Some(
            dias(i32_lido(a)->0, u32_lido(m)->0 as int, u32_lido(d)->0 as int),
        ),
{
    let ws = seq![a, m, d];
    lemma_join_and_cut(ws, '-');
    lemma_joined_three(a, m, d, '-');
}

/// Three texts with a character between them.
pub proof fn lemma_joined_three(a: Seq<char>, b: Seq<char>, c: Seq<char>, sep: char)
    ensures
        joined(seq![a, b, c], seq![sep]) == a + seq![sep] + b + seq![sep] + c,
{
    reveal_with_fuel(joined, 4);
    assert(seq![a, b, c].drop_last() =~= seq![a, b]);
    assert(seq![a, b].drop_last() =~= seq![a]);
    assert(joined(seq![a, b, c], seq![sep]) =~= a + seq![sep] + b + seq![sep] + c);
}

/// Two digits read back as the number that they write.
pub proof fn lemma_dois_volta(n: nat)
    requires
        n < 100,
    ensures
        dois(n).len() == 2,
        all_digits(dois(n)),
        value(dois(n)) == n,
        u32_lido(dois(n)) == Some(n),
{
    lemma_dois_quaisquer(n);
    let a = crate::text::digit_char(n / 10);
    let b = crate::text::digit_char(n % 10);
    let s = seq![a, b];
    assert(dois(n) == s);
    reveal_with_fuel(value, 3);
    assert(s.drop_last() =~= seq![a]);
    assert(seq![a].drop_last() =~= Seq::<char>::empty());
    assert(crate::text::is_digit(s[0]) && crate::text::is_digit(s[1]));
}

/// A year of four digits reads back as itself.
pub proof fn lemma_ano_volta(ano: int)
    requires
        1000 <= ano <= 9999,
    ensures
        decimal_signed(ano).len() == 4,
        all_digits(decimal_signed(ano)),
        value(decimal_signed(ano)) == ano,
        i32_lido(decimal_signed(ano)) == Some(ano),
{
    lemma_decimal_reads_back(ano as nat);
    reveal_with_fuel(decimal, 4);
    let s = decimal(ano as nat);
    assert(s.len() == 4);
    assert(crate::text::is_digit(s[0]));
}

/// A run of digits holds nothing else.
pub proof fn lemma_sem_sinal(s: Seq<char>, c: char)
    requires
        all_digits(s),
        !crate::text::is_digit(c),
    ensures
        is_without(s, c),
{
    assert forall|i: int| 0 <= i < s.len() implies #[trigger] s[i] != c by {
        assert(crate::text::is_digit(s[i]));
    }
}

/// A day and a time of day written out, as `2026-09-08 21:43:05`, read back as that instant; and a
/// day alone as its first.
pub proof fn lemma_iso_volta(d: Data, h: nat, m: nat, s: nat)
    requires
        d.valida(),
        1000 <= d.ano <= 9999,
        h < 24,
        m < 60,
        s < 60,
    ensures
        ({
            let dia = decimal_signed(d.ano as int) + seq!['-'] + dois(d.mes as nat) + seq!['-']
                + dois(d.dia as nat);
            let hora = dois(h) + seq![':'] + dois(m) + seq![':'] + dois(s);
            &&& iso(dia) == Some(d.n() * 86400)
            &&& iso(dia + seq![' '] + hora) == Some(d.n() * 86400 + h * 3600 + m * 60 + s)
            &&& iso(dia + seq!['T'] + hora) == Some(d.n() * 86400 + h * 3600 + m * 60 + s)
        }),
{
    let a = decimal_signed(d.ano as int);
    let b = dois(d.mes as nat);
    let c = dois(d.dia as nat);
    let x = dois(h);
    let y = dois(m);
    let z = dois(s);
    lemma_ano_volta(d.ano as int);
    lemma_dois_volta(d.mes as nat);
    lemma_dois_volta(d.dia as nat);
    lemma_dois_volta(h);
    lemma_dois_volta(m);
    lemma_dois_volta(s);
    lemma_sem_sinal(a, '-');
    lemma_sem_sinal(b, '-');
    lemma_sem_sinal(c, '-');
    lemma_sem_sinal(x, ':');
    lemma_sem_sinal(y, ':');
    lemma_sem_sinal(z, ':');
    lemma_join_and_cut(seq![a, b, c], '-');
    lemma_join_and_cut(seq![x, y, z], ':');
    lemma_joined_three(a, b, c, '-');
    lemma_joined_three(x, y, z, ':');
    let dia = a + seq!['-'] + b + seq!['-'] + c;
    let hora = x + seq![':'] + y + seq![':'] + z;
    assert(pieces(dia, Cut::At('-')) == seq![a, b, c]);
    assert(pieces(hora, Cut::At(':')) == seq![x, y, z]);
    assert(dia_exato(dia) == Some(d.n()));
    assert(dia_lido(dia) == Some(d.n()));
    assert(hora_exata(hora) == Some((h * 3600 + m * 60 + s) as int));
    assert(hora_lida(hora) == Some((h * 3600 + m * 60 + s) as int)) by {
        assert(hora.last() == z[1]);
        assert(crate::text::is_digit(z[1]));
        assert(trimmed_end(hora, Cut::At('Z')) == hora);
        assert forall|j: int| 0 <= j < z.len() implies !Cut::In('.', '+', '-').cuts(
            #[trigger] z[j],
        ) by {
            assert(crate::text::is_digit(z[j]));
        }
        lemma_reach(z, Cut::In('.', '+', '-'), z.len() as int);
        assert(z.take(z.len() as int) =~= z);
        assert(crate::text::is_digit(x[0]) && crate::text::is_digit(y[0]));
    }
    let n = dia.len() as int;
    assert forall|j: int| 0 <= j < n implies #[trigger] dia[j] != 'T' && dia[j] != ' ' by {
        if j < 4 {
            assert(crate::text::is_digit(a[j]));
        } else if 5 <= j < 7 {
            assert(crate::text::is_digit(b[j - 5]));
        } else if 8 <= j {
            assert(crate::text::is_digit(c[j - 8]));
        }
    }
    assert forall|j: int| 0 <= j < hora.len() implies #[trigger] hora[j] != 'T' by {
        if j < 2 {
            assert(crate::text::is_digit(x[j]));
        } else if 3 <= j < 5 {
            assert(crate::text::is_digit(y[j - 3]));
        } else if 6 <= j {
            assert(crate::text::is_digit(z[j - 6]));
        }
    }
    lemma_reach(dia, Cut::At('T'), n);
    lemma_reach(dia, Cut::At(' '), n);
    let e = dia + seq![' '] + hora;
    assert forall|j: int| 0 <= j < e.len() implies #[trigger] e[j] != 'T' by {
        if j < n {
            assert(e[j] == dia[j]);
        } else if j > n {
            assert(e[j] == hora[j - n - 1]);
        }
    }
    assert forall|j: int| 0 <= j < n implies #[trigger] e[j] != ' ' by {
        assert(e[j] == dia[j]);
    }
    lemma_reach(e, Cut::At('T'), e.len() as int);
    lemma_reach(e, Cut::At(' '), n);
    assert(e.take(n) =~= dia && e.skip(n + 1) =~= hora);
    let t = dia + seq!['T'] + hora;
    assert forall|j: int| 0 <= j < n implies #[trigger] t[j] != 'T' by {
        assert(t[j] == dia[j]);
    }
    lemma_reach(t, Cut::At('T'), n);
    assert(t.take(n) =~= dia && t.skip(n + 1) =~= hora);
}

/// The week goes on from one day to the next, and the epoch was a Thursday.
pub proof fn lemma_semana(a: Data, b: Data)
    requires
        b.n() == a.n() + 1,
    ensures
        b.semana() == (if a.semana() == 6 {
            0
        } else {
            a.semana() + 1
        }),
        (Data { ano: 1970, mes: 1, dia: 1 }).semana() == 4,
{
    lemma_calendario(1970, 1, 1);
}

/// The age that is shown is never more than the true one, and short of it by less than the unit
/// that it is told in.
pub proof fn lemma_idade(segundos: nat)
    ensures
        segundos < 60 ==> texto_idade(segundos) == "agora"@,
        forall|n: nat|
            60 <= 60 * n <= segundos < 60 * n + 60 && segundos < 3600 ==> texto_idade(segundos)
                == "há "@ + #[trigger] decimal(n) + " min"@,
        forall|n: nat|
            3600 <= 3600 * n <= segundos < 3600 * n + 3600 && segundos < 24 * 3600 ==> texto_idade(
                segundos,
            ) == "há "@ + #[trigger] decimal(n) + " h"@,
        forall|n: nat|
            86400 <= 86400 * n <= segundos < 86400 * n + 86400 && segundos < 30 * 86400
                ==> texto_idade(segundos) == "há "@ + #[trigger] decimal(n) + " d"@,
{
}

} // verus!
