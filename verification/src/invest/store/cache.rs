//! The quotes that the screen opens with, before anything is fetched.

use vstd::prelude::*;
use crate::pick::{lemma_pick, lemma_pick_ends, picked};
use crate::text::same;
use crate::invest::store::carteira::{da_linha, em_linha};

verus! {

/// A quote as the cache keeps it. `em` is the instant of the number, and `gravado_em` the one
/// at which it was written, where that is known.
#[derive(Debug)]
pub struct CachedQuote<T> {
    pub preco: u64,
    pub em: u64,
    pub gravado_em: Option<u64>,
    pub anterior: Option<u64>,
    pub grade: T,
    pub moeda: T,
}

impl View for CachedQuote<String> {
    type V = CachedQuote<Seq<char>>;

    open spec fn view(&self) -> CachedQuote<Seq<char>> {
        CachedQuote {
            preco: self.preco,
            em: self.em,
            gravado_em: self.gravado_em,
            anterior: self.anterior,
            grade: self.grade@,
            moeda: self.moeda@,
        }
    }
}

/// Quotes by the key of their asset.
pub type Cache = Vec<(String, CachedQuote<String>)>;

/// The quotes of a cache, in contracts.
pub open spec fn cache_de(c: Seq<(String, CachedQuote<String>)>) -> Seq<
    (Seq<char>, CachedQuote<Seq<char>>),
> {
    Seq::new(c.len(), |i: int| (c[i].0@, c[i].1@))
}

/// A row of the table of quotes.
#[derive(Debug)]
pub struct LinhaCotacao<T> {
    pub ativo: T,
    pub preco: u64,
    pub anterior: Option<u64>,
    pub em: i64,
    pub grade: T,
    pub moeda: T,
    pub gravado_em: Option<i64>,
}

impl View for LinhaCotacao<String> {
    type V = LinhaCotacao<Seq<char>>;

    open spec fn view(&self) -> LinhaCotacao<Seq<char>> {
        LinhaCotacao {
            ativo: self.ativo@,
            preco: self.preco,
            anterior: self.anterior,
            em: self.em,
            grade: self.grade@,
            moeda: self.moeda@,
            gravado_em: self.gravado_em,
        }
    }
}

/// From what age, in seconds, a price in the cache misleads instead of informing: one day.
pub const CACHE_MAX_IDADE: u64 = 86_400;

/// The same for a published series: a hundred and twenty days. Such a number is current until
/// the next one is published, and it is weeks old when it is born.
pub const CACHE_MAX_IDADE_SERIE: u64 = 10_368_000;

/// For how long a number in the cache holds, by what it is.
pub open spec fn vale_por(grade: Seq<char>) -> u64 {
    if grade == "fechamento"@ {
        CACHE_MAX_IDADE_SERIE
    } else {
        CACHE_MAX_IDADE
    }
}

/// For how long a number in the cache holds, by what it is.
pub fn validade(grade: &str) -> (r: u64)
    ensures
        r == vale_por(grade@),
{
    if same(grade, "fechamento") {
        CACHE_MAX_IDADE_SERIE
    } else {
        CACHE_MAX_IDADE
    }
}

/// The quote of a row that is not too old.
pub open spec fn cotacao_lida(l: LinhaCotacao<Seq<char>>, agora: i64) -> Option<
    (Seq<char>, CachedQuote<Seq<char>>),
> {
    if agora - l.em <= vale_por(l.grade) {
        Some(
            (
                l.ativo,
                CachedQuote {
                    preco: l.preco,
                    em: l.em as u64,
                    gravado_em: da_linha(l.gravado_em),
                    anterior: l.anterior,
                    grade: l.grade,
                    moeda: l.moeda,
                },
            ),
        )
    } else {
        None
    }
}

/// Reads the cache, leaving out what is too old for what it is.
pub fn load_cache(ls: &Vec<LinhaCotacao<String>>, agora: i64) -> (r: Cache)
    ensures
        cache_de(r@) == picked(
            Seq::new(ls@.len(), |i: int| ls@[i]@),
            |l: LinhaCotacao<Seq<char>>| cotacao_lida(l, agora),
        ),
{
    let ghost vs = Seq::new(ls@.len(), |i: int| ls@[i]@);
    let ghost f = |l: LinhaCotacao<Seq<char>>| cotacao_lida(l, agora);
    let mut r: Cache = Vec::new();
    proof {
        lemma_pick_ends(vs, f);
        assert(cache_de(r@) =~= Seq::empty());
    }
    for i in 0..ls.len()
        invariant
            vs == Seq::new(ls@.len(), |i: int| ls@[i]@),
            f == (|l: LinhaCotacao<Seq<char>>| cotacao_lida(l, agora)),
            cache_de(r@) == picked(vs.take(i as int), f),
    {
        proof {
            lemma_pick(vs, f, i as int);
        }
        let l = &ls[i];
        if (agora as i128) - (l.em as i128) <= validade(l.grade.as_str()) as i128 {
            let gravado_em = match l.gravado_em {
                Some(v) => Some(v as u64),
                None => None,
            };
            let q = CachedQuote {
                preco: l.preco,
                em: l.em as u64,
                gravado_em,
                anterior: l.anterior,
                grade: l.grade.clone(),
                moeda: l.moeda.clone(),
            };
            let ghost antes = cache_de(r@);
            let ghost x = (l.ativo@, q@);
            r.push((l.ativo.clone(), q));
            assert(cache_de(r@) =~= antes.push(x));
        }
    }
    r
}

/// A double that is neither infinite nor a NaN.
pub open spec fn finito(bits: u64) -> bool {
    bits % 0x8000_0000_0000_0000 < 0x7ff0_0000_0000_0000
}

/// Whether a double is neither infinite nor a NaN.
pub fn is_finite(bits: u64) -> (r: bool)
    ensures
        r == finito(bits),
{
    bits % 0x8000_0000_0000_0000 < 0x7ff0_0000_0000_0000
}

/// The row of a quote whose price is a number.
pub open spec fn linha_da_cotacao(ativo: Seq<char>, q: CachedQuote<Seq<char>>) -> Option<
    LinhaCotacao<Seq<char>>,
> {
    if finito(q.preco) {
        Some(
            LinhaCotacao {
                ativo,
                preco: q.preco,
                anterior: match q.anterior {
                    Some(a) => if finito(a) {
                        Some(a)
                    } else {
                        None
                    },
                    None => None,
                },
                em: q.em as i64,
                grade: q.grade,
                moeda: q.moeda,
                gravado_em: em_linha(q.gravado_em),
            },
        )
    } else {
        None
    }
}

/// The rows to put into the table of quotes: each takes the place of the one of the same
/// asset. What is not a number is not written.
pub fn save_cache(cache: &Cache) -> (r: Vec<LinhaCotacao<String>>)
    ensures
        Seq::new(r@.len(), |i: int| r@[i]@) == picked(
            cache_de(cache@),
            |p: (Seq<char>, CachedQuote<Seq<char>>)| linha_da_cotacao(p.0, p.1),
        ),
{
    let ghost vs = cache_de(cache@);
    let ghost f = |p: (Seq<char>, CachedQuote<Seq<char>>)| linha_da_cotacao(p.0, p.1);
    let mut r: Vec<LinhaCotacao<String>> = Vec::new();
    proof {
        lemma_pick_ends(vs, f);
        assert(Seq::new(r@.len(), |i: int| r@[i]@) =~= Seq::empty());
    }
    for i in 0..cache.len()
        invariant
            vs == cache_de(cache@),
            f == (|p: (Seq<char>, CachedQuote<Seq<char>>)| linha_da_cotacao(p.0, p.1)),
            Seq::new(r@.len(), |i: int| r@[i]@) == picked(vs.take(i as int), f),
    {
        proof {
            lemma_pick(vs, f, i as int);
        }
        let q = &cache[i].1;
        if is_finite(q.preco) {
            let anterior = match q.anterior {
                Some(a) => if is_finite(a) {
                    Some(a)
                } else {
                    None
                },
                None => None,
            };
            let gravado_em = match q.gravado_em {
                Some(v) => Some(v as i64),
                None => None,
            };
            let l = LinhaCotacao {
                ativo: cache[i].0.clone(),
                preco: q.preco,
                anterior,
                em: q.em as i64,
                grade: q.grade.clone(),
                moeda: q.moeda.clone(),
                gravado_em,
            };
            let ghost antes = Seq::new(r@.len(), |i: int| r@[i]@);
            let ghost x = l@;
            r.push(l);
            assert(Seq::new(r@.len(), |i: int| r@[i]@) =~= antes.push(x));
        }
    }
    r
}

/// A quote that was written comes back as it was while it holds, and does not come back
/// after that.
pub proof fn lemma_cotacao_volta(ativo: Seq<char>, q: CachedQuote<Seq<char>>, agora: i64)
    requires
        finito(q.preco),
        q.anterior is Some ==> finito(q.anterior->0),
        q.em <= i64::MAX,
    ensures
        linha_da_cotacao(ativo, q) is Some,
        cotacao_lida(linha_da_cotacao(ativo, q)->0, agora) == (if agora - q.em <= vale_por(
            q.grade,
        ) {
            Some((ativo, q))
        } else {
            None
        }),
{
    if q.gravado_em is Some {
        let v: u64 = q.gravado_em->0;
        assert((v as i64) as u64 == v) by (bit_vector);
    }
}

/// A published series does not expire as a price does.
pub proof fn lemma_serie_dura_mais(grade: Seq<char>)
    requires
        grade != "fechamento"@,
    ensures
        vale_por(grade) < vale_por("fechamento"@),
{
}

/// A quote comes back from the cache exactly while it is young enough: a close for four months,
/// and any other for a day.
pub proof fn lemma_idade_no_cache(l: LinhaCotacao<Seq<char>>, agora: i64)
    ensures
        l.grade == "fechamento"@ ==> (cotacao_lida(l, agora) is Some <==> agora - l.em <= 120 * 24
            * 60 * 60),
        l.grade != "fechamento"@ ==> (cotacao_lida(l, agora) is Some <==> agora - l.em <= 24 * 60
            * 60),
        cotacao_lida(l, agora) is Some ==> ({
            let (ativo, q) = cotacao_lida(l, agora)->0;
            &&& ativo == l.ativo
            &&& q.preco == l.preco
            &&& q.anterior == l.anterior
            &&& q.grade == l.grade
            &&& q.moeda == l.moeda
        }),
{
}

} // verus!
