//! The daily series of the estate: one point for each day, and the past is never rewritten.
//!
//! Amounts are bit patterns of doubles; their sums are for the caller. What is decided here is
//! which days count.

use vstd::prelude::*;
use crate::number::{dec_signed, decimal_signed};
use crate::order::{
    is_order, lemma_order_exists, lemma_ranks, lemma_sorted, ranks, sorted_by, stable_order,
    text_ranks,
};
use crate::pick::{lemma_pick, lemma_pick_ends, picked};
use crate::text::{
    differs_at, lemma_text_order, pieces, same, sorts_before, split, text_before, views, Cut,
};
use crate::invest::model::AssetId;
use crate::invest::portfolio::{Ativo, Lancamento};
use crate::invest::provider::depois;
use crate::invest::tempo::{
    cabe, data_em, dia_de, dias, dias_de, dois, dois_digitos, existe, i32_lido, ler_i32, ler_u32,
    u32_lido, vem_antes, BRT_OFFSET, Data,
};

verus! {

/// The estate on one day: its total, and what went in, went out and was paid on it.
#[derive(Debug)]
pub struct Ponto<T> {
    /// The day, as `2026-09-08`.
    pub dia: T,
    pub total_brl: u64,
    pub aporte: u64,
    pub retirada: u64,
    pub proventos: u64,
}

impl View for Ponto<String> {
    type V = Ponto<Seq<char>>;

    open spec fn view(&self) -> Ponto<Seq<char>> {
        Ponto {
            dia: self.dia@,
            total_brl: self.total_brl,
            aporte: self.aporte,
            retirada: self.retirada,
            proventos: self.proventos,
        }
    }
}

impl Clone for Ponto<String> {
    fn clone(&self) -> (r: Ponto<String>)
        ensures
            r@ == self@,
    {
        Ponto {
            dia: self.dia.clone(),
            total_brl: self.total_brl,
            aporte: self.aporte,
            retirada: self.retirada,
            proventos: self.proventos,
        }
    }
}

/// Points, in contracts.
pub open spec fn pontos_de(v: Seq<Ponto<String>>) -> Seq<Ponto<Seq<char>>> {
    Seq::new(v.len(), |i: int| v[i]@)
}

/// The day that a key writes.
pub open spec fn data_escrita(s: Seq<char>) -> Option<Data> {
    let p = pieces(s, Cut::At('-'));
    if p.len() < 3 {
        None
    } else {
        match (i32_lido(p[0]), u32_lido(p[1]), u32_lido(p[2])) {
            (Some(a), Some(m), Some(d)) => Some(
                Data { ano: a as i32, mes: m as u32, dia: d as u32 },
            ),
            _ => None,
        }
    }
}

impl Ponto<String> {
    /// The day of a point, where its key writes one.
    pub fn data(&self) -> (r: Option<Data>)
        ensures
            r == data_escrita(self.dia@),
    {
        let p = split(self.dia.as_str(), Cut::At('-'));
        assert(views(p@).len() == p@.len());
        if p.len() < 3 {
            return None;
        }
        assert(views(p@)[0] == p@[0]@ && views(p@)[1] == p@[1]@ && views(p@)[2] == p@[2]@);
        match (ler_i32(p[0].as_str()), ler_u32(p[1].as_str()), ler_u32(p[2].as_str())) {
            (Some(ano), Some(mes), Some(dia)) => Some(Data { ano, mes, dia }),
            _ => None,
        }
    }
}

/// The key of a day.
pub open spec fn texto_dia(d: Data) -> Seq<char> {
    decimal_signed(d.ano as int) + "-"@ + dois(d.mes as nat) + "-"@ + dois(d.dia as nat)
}

/// The key of a day.
pub fn chave(d: &Data) -> (r: String)
    ensures
        r@ == texto_dia(*d),
{
    let mut r = dec_signed(d.ano as i64);
    r.append("-");
    r.append(dois_digitos(d.mes as u64).as_str());
    r.append("-");
    r.append(dois_digitos(d.dia as u64).as_str());
    r
}

/// The key of the day of an instant in Brasília.
pub open spec fn texto_do_instante(em: u64) -> Seq<char> {
    texto_dia(data_em(dia_de(em, BRT_OFFSET)))
}

/// The key of the day of an instant in Brasília.
pub fn chave_dia(agora: u64) -> (r: String)
    requires
        cabe(agora, BRT_OFFSET),
    ensures
        r@ == texto_do_instante(agora),
{
    let d = Data::de_epoch(agora, BRT_OFFSET);
    chave(&d)
}

// --- recording ---------------------------------------------------------------------------------

/// The place of the first point of a day.
pub open spec fn lugar_do_dia(ps: Seq<Ponto<Seq<char>>>, dia: Seq<char>) -> Option<int>
    decreases ps.len(),
{
    if ps.len() == 0 {
        None
    } else {
        match lugar_do_dia(ps.drop_last(), dia) {
            Some(i) => Some(i),
            None => if ps.last().dia == dia {
                Some(ps.len() - 1)
            } else {
                None
            },
        }
    }
}

/// The days of points.
pub open spec fn dias_de_pontos(ps: Seq<Ponto<Seq<char>>>) -> Seq<Seq<char>> {
    Seq::new(ps.len(), |i: int| ps[i].dia)
}

/// Points from the oldest day to the newest.
pub open spec fn do_mais_antigo(ps: Seq<Ponto<Seq<char>>>) -> Seq<Ponto<Seq<char>>> {
    sorted_by(ps, ranks(dias_de_pontos(ps)))
}

/// The series after a day is recorded: within a day the latest number is the best picture of
/// it, and takes the place of the one before; another day comes into its place.
pub open spec fn registrado(ps: Seq<Ponto<Seq<char>>>, novo: Ponto<Seq<char>>) -> Seq<
    Ponto<Seq<char>>,
> {
    match lugar_do_dia(ps, novo.dia) {
        Some(i) => ps.update(i, novo),
        None => do_mais_antigo(ps.push(novo)),
    }
}

proof fn lemma_lugar_do_dia(ps: Seq<Ponto<Seq<char>>>, dia: Seq<char>)
    ensures
        (match lugar_do_dia(ps, dia) {
            Some(i) => 0 <= i < ps.len() && ps[i].dia == dia && forall|j: int|
                0 <= j < i ==> (#[trigger] ps[j]).dia != dia,
            None => forall|j: int| 0 <= j < ps.len() ==> (#[trigger] ps[j]).dia != dia,
        }),
    decreases ps.len(),
{
    if ps.len() > 0 {
        lemma_lugar_do_dia(ps.drop_last(), dia);
        assert(forall|j: int| 0 <= j < ps.len() - 1 ==> ps.drop_last()[j] == #[trigger] ps[j]);
    }
}

/// What recording a day did: it is new, or took the place of a point with this total.
#[derive(Clone, Copy, PartialEq, Eq, Debug, Structural)]
pub enum Registro {
    Novo,
    Trocado(u64),
}

/// Puts points from the oldest day to the newest.
fn ordenar_pontos(v: &Vec<Ponto<String>>) -> (r: Vec<Ponto<String>>)
    ensures
        pontos_de(r@) == do_mais_antigo(pontos_de(v@)),
{
    let ghost ps = pontos_de(v@);
    let mut ds: Vec<String> = Vec::new();
    for i in 0..v.len()
        invariant
            ps == pontos_de(v@),
            views(ds@) =~= dias_de_pontos(ps).take(i as int),
    {
        let ghost antes = ds@;
        ds.push(v[i].dia.clone());
        assert(views(ds@) =~= views(antes).push(ps[i as int].dia));
    }
    assert(views(ds@) =~= dias_de_pontos(ps));
    let ks = text_ranks(&ds);
    let o = stable_order(ks.as_slice());
    proof {
        lemma_sorted(ps, ks@, o@);
    }
    let mut r: Vec<Ponto<String>> = Vec::new();
    for i in 0..o.len()
        invariant
            is_order(ks@, o@),
            ks@.len() == v@.len(),
            ps == pontos_de(v@),
            pontos_de(r@) =~= Seq::new(i as nat, |k: int| ps[o@[k] as int]),
    {
        let ghost antes = pontos_de(r@);
        r.push(v[o[i]].clone());
        assert(pontos_de(r@) =~= antes.push(ps[o@[i as int] as int]));
    }
    assert(pontos_de(r@) =~= do_mais_antigo(ps));
    r
}

/// The bit pattern of the double 0.005, half a cent.
pub const MEIO_CENTAVO: u64 = 0x3f74_7ae1_47ae_147b;

/// The bit pattern of the infinite double: above it come those that are no number.
pub const INFINITO: u64 = 0x7ff0_0000_0000_0000;

/// The size of a double, whatever its sign: its bit pattern without the highest bit.
pub open spec fn sem_sinal(bits: u64) -> int {
    bits as int % 0x8000_0000_0000_0000
}

/// A double that is more than half a cent, up or down. One that is no number is not.
pub open spec fn passa_de_meio_centavo(bits: u64) -> bool {
    MEIO_CENTAVO < sem_sinal(bits) <= INFINITO
}

impl Registro {
    /// Recording changed something: the day is new, or its total moved by more than half a cent.
    pub open spec fn mudanca(self, diferenca: u64) -> bool {
        self is Novo || passa_de_meio_centavo(diferenca)
    }

    /// Whether recording changed something, given the bit pattern of what the total of the day
    /// was less what it is now.
    pub fn mudou(&self, diferenca: u64) -> (r: bool)
        ensures
            r == self.mudanca(diferenca),
    {
        match self {
            Registro::Novo => true,
            Registro::Trocado(_) => {
                let tamanho: u64 = diferenca % 0x8000_0000_0000_0000;
                MEIO_CENTAVO < tamanho && tamanho <= INFINITO
            },
        }
    }
}

/// Records the estate of today. The result says whether the day is new, or what its total
/// was before.
pub fn registrar(
    pontos: &mut Vec<Ponto<String>>,
    agora: u64,
    total: u64,
    aporte: u64,
    retirada: u64,
    proventos: u64,
) -> (r: Registro)
    requires
        cabe(agora, BRT_OFFSET),
    ensures
        pontos_de(final(pontos)@) == registrado(
            pontos_de(old(pontos)@),
            Ponto {
                dia: texto_do_instante(agora),
                total_brl: total,
                aporte,
                retirada,
                proventos,
            },
        ),
        r == (match lugar_do_dia(pontos_de(old(pontos)@), texto_do_instante(agora)) {
            Some(i) => Registro::Trocado(old(pontos)@[i].total_brl),
            None => Registro::Novo,
        }),
{
    let dia = chave_dia(agora);
    let novo = Ponto { dia: dia.clone(), total_brl: total, aporte, retirada, proventos };
    let ghost ps = pontos_de(pontos@);
    let n: usize = pontos.len();
    for i in 0..n
        invariant
            *pontos == *old(pontos),
            n == pontos@.len(),
            ps == pontos_de(pontos@),
            dia@ == texto_do_instante(agora),
            novo@ == (Ponto {
                dia: texto_do_instante(agora),
                total_brl: total,
                aporte,
                retirada,
                proventos,
            }),
            forall|j: int| 0 <= j < i ==> (#[trigger] ps[j]).dia != dia@,
    {
        assert(ps[i as int] == pontos@[i as int]@);
        if same(pontos[i].dia.as_str(), dia.as_str()) {
            proof {
                lemma_lugar_do_dia(ps, dia@);
            }
            let antes: u64 = pontos[i].total_brl;
            let ghost x = novo@;
            pontos.set(i, novo);
            assert(pontos_de(pontos@) =~= ps.update(i as int, x));
            return Registro::Trocado(antes);
        }
    }
    proof {
        lemma_lugar_do_dia(ps, dia@);
    }
    let ghost x = novo@;
    pontos.push(novo);
    assert(pontos_de(pontos@) =~= ps.push(x));
    let r = ordenar_pontos(pontos);
    *pontos = r;
    Registro::Novo
}

/// One point for each day, from the oldest to the newest.
pub open spec fn serie_certa(ps: Seq<Ponto<Seq<char>>>) -> bool {
    forall|i: int, j: int|
        0 <= i < j < ps.len() ==> text_before(#[trigger] ps[i].dia, #[trigger] ps[j].dia)
}

/// Recording a day keeps one point for each day, in order. The point of the day is the one that
/// was recorded, and every other day stays as it was: the past is not rewritten, and no day comes
/// out of nowhere. Recording the same again changes nothing.
pub proof fn lemma_registrar(ps: Seq<Ponto<Seq<char>>>, novo: Ponto<Seq<char>>)
    requires
        serie_certa(ps),
        ps.len() < usize::MAX,
    ensures
        serie_certa(registrado(ps, novo)),
        registrado(ps, novo).contains(novo),
        forall|i: int|
            0 <= i < registrado(ps, novo).len() ==> (if (#[trigger] registrado(ps, novo)[i]).dia
                == novo.dia {
                registrado(ps, novo)[i] == novo
            } else {
                ps.contains(registrado(ps, novo)[i])
            }),
        forall|i: int|
            0 <= i < ps.len() && ps[i].dia != novo.dia ==> registrado(ps, novo).contains(
                #[trigger] ps[i],
            ),
        registrado(registrado(ps, novo), novo) == registrado(ps, novo),
{
    let r = registrado(ps, novo);
    lemma_lugar_do_dia(ps, novo.dia);
    match lugar_do_dia(ps, novo.dia) {
        Some(k) => {
            assert(r[k] == novo);
            assert forall|i: int, j: int| 0 <= i < j < r.len() implies text_before(
                #[trigger] r[i].dia,
                #[trigger] r[j].dia,
            ) by {
                assert(text_before(ps[i].dia, ps[j].dia));
            }
            assert forall|i: int| 0 <= i < ps.len() && ps[i].dia != novo.dia implies r.contains(
                #[trigger] ps[i],
            ) by {
                assert(r[i] == ps[i]);
            }
            assert forall|i: int| 0 <= i < r.len() && (#[trigger] r[i]).dia
                != novo.dia implies ps.contains(r[i]) by {
                assert(r[i] == ps[i]);
            }
        },
        None => {
            let v = ps.push(novo);
            let ds = dias_de_pontos(v);
            lemma_order_exists(ranks(ds));
            let o = choose|o: Seq<usize>| is_order(ranks(ds), o);
            lemma_sorted(v, ranks(ds), o);
            assert forall|i: int, j: int| 0 <= i < j < r.len() implies text_before(
                #[trigger] r[i].dia,
                #[trigger] r[j].dia,
            ) by {
                let a = o[i] as int;
                let b = o[j] as int;
                crate::order::lemma_order_distinct(ranks(ds), o, i, j);
                assert(crate::order::goes_before(ranks(ds), a, b));
                lemma_ranks(ds, a, b);
                lemma_dias_diferentes(ps, novo, a, b);
            }
            assert forall|i: int| 0 <= i < v.len() implies r.contains(#[trigger] v[i]) by {
                assert(o.contains(i as usize));
                let k = choose|k: int| 0 <= k < o.len() && o[k] == i as usize;
                assert(r[k] == v[i]);
            }
            assert(v[ps.len() as int] == novo);
            assert forall|i: int| 0 <= i < r.len() && (#[trigger] r[i]).dia
                != novo.dia implies ps.contains(r[i]) by {
                assert(r[i] == v[o[i] as int]);
                assert(v[o[i] as int] == ps[o[i] as int]);
            }
            assert forall|i: int| 0 <= i < ps.len() implies r.contains(#[trigger] ps[i]) by {
                assert(v[i] == ps[i]);
            }
        },
    }
    let k = choose|k: int| 0 <= k < r.len() && r[k] == novo;
    lemma_lugar_do_dia(r, novo.dia);
    let l = lugar_do_dia(r, novo.dia)->0;
    crate::text::lemma_text_order(novo.dia, novo.dia);
    assert(l == k);
    assert(r.update(k, novo) =~= r);
    assert forall|i: int| 0 <= i < r.len() && (#[trigger] r[i]).dia == novo.dia implies r[i]
        == novo by {
        if i < k {
            assert(text_before(r[i].dia, r[k].dia));
        } else if k < i {
            assert(text_before(r[k].dia, r[i].dia));
        }
    }
}

proof fn lemma_dias_diferentes(ps: Seq<Ponto<Seq<char>>>, novo: Ponto<Seq<char>>, a: int, b: int)
    requires
        serie_certa(ps),
        lugar_do_dia(ps, novo.dia) is None,
        0 <= a <= ps.len(),
        0 <= b <= ps.len(),
        a != b,
    ensures
        ps.push(novo)[a].dia != ps.push(novo)[b].dia,
{
    lemma_lugar_do_dia(ps, novo.dia);
    if a < ps.len() && b < ps.len() {
        crate::text::lemma_text_order(ps[a].dia, ps[a].dia);
        if a < b {
            assert(text_before(ps[a].dia, ps[b].dia));
        } else {
            assert(text_before(ps[b].dia, ps[a].dia));
        }
    }
}

/// The keys of two days sort as text in the order of the days, for years of four digits.
pub proof fn lemma_dia_ordena(a: Data, b: Data)
    requires
        1000 <= a.ano <= 9999,
        1000 <= b.ano <= 9999,
        existe(a.ano as int, a.mes as int, a.dia as int),
        existe(b.ano as int, b.mes as int, b.dia as int),
        vem_antes((a.ano as int, a.mes as int, a.dia as int), (b.ano as int, b.mes as int, b.dia as int)),
    ensures
        text_before(texto_dia(a), texto_dia(b)),
{
    let x = a.texto_mes();
    let y = b.texto_mes();
    assert(texto_dia(a) =~= x + "-"@ + dois(a.dia as nat));
    assert(texto_dia(b) =~= y + "-"@ + dois(b.dia as nat));
    if a.ano == b.ano && a.mes == b.mes {
        crate::invest::tempo::lemma_dois_em_ordem(a.dia as nat, b.dia as nat);
        let k = choose|k: int| differs_at(dois(a.dia as nat), dois(b.dia as nat), k);
        let p = x + "-"@;
        let ta = texto_dia(a);
        let tb = texto_dia(b);
        assert(ta =~= p + dois(a.dia as nat));
        assert(tb =~= p + dois(b.dia as nat));
        assert forall|j: int| 0 <= j < p.len() + k implies ta[j] == tb[j] by {
            if j >= p.len() {
                assert(ta[j] == dois(a.dia as nat)[j - p.len()]);
                assert(tb[j] == dois(b.dia as nat)[j - p.len()]);
            }
        }
        assert(differs_at(ta, tb, p.len() + k));
    } else {
        crate::invest::tempo::lemma_chave_ordena(a, b);
        crate::invest::tempo::lemma_mesmo_tamanho(a, b);
        let k = choose|k: int| differs_at(x, y, k);
        assert(differs_at(texto_dia(a), texto_dia(b), k));
    }
}

// --- windows ---------------------------------------------------------------------------------------

/// A point, where its day is not before another.
pub open spec fn desde(p: Ponto<Seq<char>>, corte: Seq<char>) -> Option<Ponto<Seq<char>>> {
    if text_before(p.dia, corte) {
        None
    } else {
        Some(p)
    }
}

/// A point, where its day is between two others, both included.
pub open spec fn entre(p: Ponto<Seq<char>>, a: Seq<char>, b: Seq<char>) -> Option<
    Ponto<Seq<char>>,
> {
    if text_before(p.dia, a) || text_before(b, p.dia) {
        None
    } else {
        Some(p)
    }
}

/// The points of the last `dias` days.
pub fn janela(pontos: &Vec<Ponto<String>>, agora: u64, dias: u32) -> (r: Vec<Ponto<String>>)
    requires
        cabe(depois(agora, (dias * 86400) as u64) as u64, BRT_OFFSET),
    ensures
        pontos_de(r@) == picked(
            pontos_de(pontos@),
            |p: Ponto<Seq<char>>|
                desde(p, texto_do_instante(depois(agora, (dias * 86400) as u64) as u64)),
        ),
{
    let corte = chave_dia(agora.saturating_sub(dias as u64 * 86400));
    let ghost ps = pontos_de(pontos@);
    let ghost f = |p: Ponto<Seq<char>>| desde(p, corte@);
    let mut r: Vec<Ponto<String>> = Vec::new();
    proof {
        lemma_pick_ends(ps, f);
        assert(pontos_de(r@) =~= Seq::empty());
    }
    for i in 0..pontos.len()
        invariant
            ps == pontos_de(pontos@),
            f == (|p: Ponto<Seq<char>>| desde(p, corte@)),
            pontos_de(r@) == picked(ps.take(i as int), f),
    {
        proof {
            lemma_pick(ps, f, i as int);
        }
        if !sorts_before(pontos[i].dia.as_str(), corte.as_str()) {
            let ghost antes = pontos_de(r@);
            r.push(pontos[i].clone());
            assert(pontos_de(r@) =~= antes.push(ps[i as int]));
        }
    }
    r
}

/// A closed period of the series: its points, how many days they cover and how many were
/// asked for.
pub struct Periodo {
    pub janela: Vec<Ponto<String>>,
    pub cobre: u32,
    pub pedido: u32,
}

/// How many days go from one to another, both included: a count of 32 bits.
pub open spec fn dias_entre(a: Data, b: Data) -> int {
    let d = b.n() - a.n();
    let e = if d < 0 {
        0
    } else {
        d
    };
    ((e as u32) + 1) % 0x1_0000_0000
}

/// Counts the days from one to another.
fn contar_dias(a: &Data, b: &Data) -> (r: u32)
    ensures
        r == dias_entre(*a, *b),
{
    let d: i64 = dias_de(b.ano, b.mes, b.dia) - dias_de(a.ano, a.mes, a.dia);
    let e: i64 = if d < 0 {
        0
    } else {
        d
    };
    #[verifier::truncate]
    let n: u32 = e as u32;
    n.wrapping_add(1)
}

impl Periodo {
    /// The series covers the period from end to end, but for a long weekend.
    pub fn completo(&self) -> (r: bool)
        ensures
            r == (self.cobre + 4 >= self.pedido),
    {
        self.cobre as u64 + 4 >= self.pedido as u64
    }
}

/// The points of a closed period, from one date to another. With fewer than two there is
/// nothing to say of it, which is not the same as zero.
pub fn rumo(pontos: &Vec<Ponto<String>>, de: &Data, ate: &Data) -> (r: Option<Periodo>)
    ensures
        ({
            let v = picked(
                pontos_de(pontos@),
                |p: Ponto<Seq<char>>| entre(p, texto_dia(*de), texto_dia(*ate)),
            );
            match r {
                None => v.len() < 2 || data_escrita(v[0].dia) is None || data_escrita(
                    v.last().dia,
                ) is None,
                Some(x) => v.len() >= 2 && data_escrita(v[0].dia) is Some && data_escrita(
                    v.last().dia,
                ) is Some && pontos_de(x.janela@) == v && x.cobre == dias_entre(
                    data_escrita(v[0].dia)->0,
                    data_escrita(v.last().dia)->0,
                ) && x.pedido == dias_entre(*de, *ate),
            }
        }),
{
    let a = chave(de);
    let b = chave(ate);
    let ghost ps = pontos_de(pontos@);
    let ghost f = |p: Ponto<Seq<char>>| entre(p, texto_dia(*de), texto_dia(*ate));
    let mut v: Vec<Ponto<String>> = Vec::new();
    proof {
        lemma_pick_ends(ps, f);
        assert(pontos_de(v@) =~= Seq::empty());
    }
    for i in 0..pontos.len()
        invariant
            a@ == texto_dia(*de),
            b@ == texto_dia(*ate),
            ps == pontos_de(pontos@),
            f == (|p: Ponto<Seq<char>>| entre(p, texto_dia(*de), texto_dia(*ate))),
            pontos_de(v@) == picked(ps.take(i as int), f),
    {
        proof {
            lemma_pick(ps, f, i as int);
        }
        let dia = pontos[i].dia.as_str();
        if !sorts_before(dia, a.as_str()) && !sorts_before(b.as_str(), dia) {
            let ghost antes = pontos_de(v@);
            v.push(pontos[i].clone());
            assert(pontos_de(v@) =~= antes.push(ps[i as int]));
        }
    }
    let ghost vs = pontos_de(v@);
    assert(vs == picked(ps, f));
    let n: usize = v.len();
    if n < 2 {
        return None;
    }
    assert(vs[0] == v@[0]@ && vs.last() == v@[n - 1]@);
    match (v[0].data(), v[n - 1].data()) {
        (Some(pa), Some(pb)) => {
            let cobre = contar_dias(&pa, &pb);
            let pedido = contar_dias(de, ate);
            Some(Periodo { janela: v, cobre, pedido })
        },
        _ => None,
    }
}

/// How many days of a window have no point. They are drawn as gaps: a straight line over a
/// week without the program would invent a story.
pub fn lacunas(janela: &Vec<Ponto<String>>) -> (r: u32)
    ensures
        ({
            let v = pontos_de(janela@);
            if v.len() == 0 || data_escrita(v[0].dia) is None || data_escrita(
                v.last().dia,
            ) is None {
                r == 0
            } else {
                let d = data_escrita(v.last().dia)->0.n() - data_escrita(v[0].dia)->0.n() + 1;
                let e = (if d < 0 {
                    0
                } else {
                    d
                }) as u32;
                r == (if e < v.len() as u32 {
                    0
                } else {
                    e - v.len() as u32
                })
            }
        }),
{
    let n: usize = janela.len();
    if n == 0 {
        return 0;
    }
    let ghost v = pontos_de(janela@);
    assert(v[0] == janela@[0]@ && v.last() == janela@[n - 1]@);
    match (janela[0].data(), janela[n - 1].data()) {
        (Some(a), Some(b)) => {
            let d: i64 = dias_de(b.ano, b.mes, b.dia) - dias_de(a.ano, a.mes, a.dia) + 1;
            let e: i64 = if d < 0 {
                0
            } else {
                d
            };
            #[verifier::truncate]
            let esperados: u32 = e as u32;
            #[verifier::truncate]
            let tem: u32 = n as u32;
            esperados.saturating_sub(tem)
        },
        _ => 0,
    }
}

// --- what went in and out on a day -----------------------------------------------------------------

/// The amount of an entry of a type on a day.
pub open spec fn fluxo_de(l: Lancamento<Seq<char>, Ativo>, tipo: Seq<char>, hoje: Seq<char>) -> Option<
    u64,
> {
    if l.tipo == tipo && texto_do_instante(l.em) == hoje {
        Some(l.valor)
    } else {
        None
    }
}

/// What went in, went out and was paid on a day, entry by entry.
pub struct Fluxos {
    pub aportes: Vec<u64>,
    pub retiradas: Vec<u64>,
    pub proventos: Vec<u64>,
}

/// The amounts of the entries of a type on a day.
fn fluxos_do_tipo(ls: &Vec<Lancamento<String, AssetId>>, tipo: &str, hoje: &str) -> (r: Vec<u64>)
    requires
        forall|i: int| 0 <= i < ls@.len() ==> cabe((#[trigger] ls@[i]).em, BRT_OFFSET),
    ensures
        r@ == picked(
            Seq::new(ls@.len(), |i: int| ls@[i]@),
            |l: Lancamento<Seq<char>, Ativo>| fluxo_de(l, tipo@, hoje@),
        ),
{
    let ghost vs = Seq::new(ls@.len(), |i: int| ls@[i]@);
    let ghost f = |l: Lancamento<Seq<char>, Ativo>| fluxo_de(l, tipo@, hoje@);
    let mut r: Vec<u64> = Vec::new();
    proof {
        lemma_pick_ends(vs, f);
    }
    for i in 0..ls.len()
        invariant
            forall|i: int| 0 <= i < ls@.len() ==> cabe((#[trigger] ls@[i]).em, BRT_OFFSET),
            vs == Seq::new(ls@.len(), |i: int| ls@[i]@),
            f == (|l: Lancamento<Seq<char>, Ativo>| fluxo_de(l, tipo@, hoje@)),
            r@ == picked(vs.take(i as int), f),
    {
        proof {
            lemma_pick(vs, f, i as int);
            assert(cabe(ls@[i as int].em, BRT_OFFSET));
        }
        if same(ls[i].tipo.as_str(), tipo) && same(chave_dia(ls[i].em).as_str(), hoje) {
            r.push(ls[i].valor);
        }
    }
    r
}

/// What went in, went out and was paid on the day of an instant, read off the entries.
pub fn fluxos_do_dia(ls: &Vec<Lancamento<String, AssetId>>, agora: u64) -> (r: Fluxos)
    requires
        cabe(agora, BRT_OFFSET),
        forall|i: int| 0 <= i < ls@.len() ==> cabe((#[trigger] ls@[i]).em, BRT_OFFSET),
    ensures
        r.aportes@ == picked(
            Seq::new(ls@.len(), |i: int| ls@[i]@),
            |l: Lancamento<Seq<char>, Ativo>| fluxo_de(l, "aporte"@, texto_do_instante(agora)),
        ),
        r.retiradas@ == picked(
            Seq::new(ls@.len(), |i: int| ls@[i]@),
            |l: Lancamento<Seq<char>, Ativo>| fluxo_de(l, "retirada"@, texto_do_instante(agora)),
        ),
        r.proventos@ == picked(
            Seq::new(ls@.len(), |i: int| ls@[i]@),
            |l: Lancamento<Seq<char>, Ativo>| fluxo_de(l, "provento"@, texto_do_instante(agora)),
        ),
{
    let hoje = chave_dia(agora);
    Fluxos {
        aportes: fluxos_do_tipo(ls, "aporte", hoje.as_str()),
        retiradas: fluxos_do_tipo(ls, "retirada", hoje.as_str()),
        proventos: fluxos_do_tipo(ls, "provento", hoje.as_str()),
    }
}

/// A day that is written reads back as that day.
pub proof fn lemma_dia_volta(d: Data)
    requires
        1000 <= d.ano <= 9999,
        d.mes < 100,
        d.dia < 100,
    ensures
        data_escrita(texto_dia(d)) == Some(d),
{
    let a = decimal_signed(d.ano as int);
    let b = dois(d.mes as nat);
    let c = dois(d.dia as nat);
    crate::invest::tempo::lemma_ano_volta(d.ano as int);
    crate::invest::tempo::lemma_dois_volta(d.mes as nat);
    crate::invest::tempo::lemma_dois_volta(d.dia as nat);
    crate::invest::tempo::lemma_sem_sinal(a, '-');
    crate::invest::tempo::lemma_sem_sinal(b, '-');
    crate::invest::tempo::lemma_sem_sinal(c, '-');
    crate::text::lemma_join_and_cut(seq![a, b, c], '-');
    crate::invest::tempo::lemma_joined_three(a, b, c, '-');
    reveal_strlit("-");
    assert("-"@ =~= seq!['-']);
}

/// Both ends of a stretch count.
pub proof fn lemma_dias_entre(a: Data, b: Data)
    requires
        0 <= b.n() - a.n() < 0xffff_ffff,
    ensures
        dias_entre(a, b) == b.n() - a.n() + 1,
        dias_entre(a, a) == 1,
{
}

/// What a stretch of the series holds: the points of the days from one to the other, both
/// included, and no others.
pub proof fn lemma_entre(p: Ponto<Seq<char>>, a: Seq<char>, b: Seq<char>)
    ensures
        entre(p, a, b) is Some <==> (a == p.dia || text_before(a, p.dia)) && (p.dia == b
            || text_before(p.dia, b)),
        entre(p, a, b) is Some ==> entre(p, a, b) == Some(p),
        desde(p, a) is Some <==> a == p.dia || text_before(a, p.dia),
        desde(p, a) is Some ==> desde(p, a) == Some(p),
{
    lemma_text_order(p.dia, a);
    lemma_text_order(p.dia, b);
}

} // verus!
