//! The price that the user typed: the right source for what has no source.

use vstd::prelude::*;
use crate::pick::{lemma_pick, lemma_pick_ends, picked};
use crate::invest::model::{vistos, AssetId, Market, Moeda};
use crate::invest::provider::{valores, Grade, Quote, QuoteV};
use crate::invest::providers::binance::{lemma_moeda_do_par, moeda_de, moeda_do_par};
use crate::invest::providers::comum::valor_de;

verus! {

/// A typed price: the asset, the bit pattern of the double, and when it was typed.
pub struct Informado {
    pub ativo: AssetId,
    pub preco: u64,
    pub em: u64,
}

/// Typed prices, one for each asset.
pub struct Manual {
    pub precos: Vec<Informado>,
}

/// What was typed for an asset: the first entry of it.
pub open spec fn informado(ps: Seq<Informado>, a: (Market, Seq<char>)) -> Option<(u64, u64)>
    decreases ps.len(),
{
    if ps.len() == 0 {
        None
    } else if ps[0].ativo@ == a {
        Some((ps[0].preco, ps[0].em))
    } else {
        informado(ps.skip(1), a)
    }
}

/// The currency that an asset is priced in: its market's, where it has only one; the pair's
/// for crypto; the real otherwise.
pub open spec fn moeda_do_ativo(a: (Market, Seq<char>)) -> Moeda {
    match a.0.unica() {
        Some(m) => m,
        None => if a.0 == Market::Binance {
            moeda_de(a.1)
        } else {
            Moeda::Brl
        },
    }
}

/// The currency that an asset is priced in.
pub fn moeda_padrao(ativo: &AssetId) -> (r: Moeda)
    ensures
        r == moeda_do_ativo(ativo@),
{
    match ativo.market.moeda() {
        Some(m) => m,
        None => if ativo.market == Market::Binance {
            moeda_do_par(ativo.symbol.as_str())
        } else {
            Moeda::Brl
        },
    }
}

/// The quote of a typed price. It never has a previous close: a change between two typed
/// numbers would borrow the authority of a live price.
pub open spec fn quote_informada(ps: Seq<Informado>, a: (Market, Seq<char>)) -> Option<QuoteV> {
    match informado(ps, a) {
        None => None,
        Some((preco, em)) => Some(
            QuoteV {
                ativo: a,
                fonte: "manual"@,
                preco,
                anterior: None,
                moeda: moeda_do_ativo(a),
                grade: Grade::Manual,
                em,
                volume: None,
                max24: None,
                min24: None,
            },
        ),
    }
}

impl Manual {
    /// A source over typed prices.
    pub fn new(precos: Vec<Informado>) -> (r: Manual)
        ensures
            r.precos == precos,
    {
        Manual { precos }
    }

    /// It answers for everything, which is why it comes last.
    pub fn covers(&self, ativo: &AssetId) -> (r: bool)
        ensures
            r,
    {
        true
    }

    /// The quote of one asset.
    fn cotar(&self, ativo: &AssetId) -> (r: Option<Quote>)
        ensures
            valor_de(r) == quote_informada(self.precos@, ativo@),
    {
        assert(self.precos@.skip(0) =~= self.precos@);
        for i in 0..self.precos.len()
            invariant
                informado(self.precos@.skip(i as int), ativo@) == informado(self.precos@, ativo@),
        {
            assert(self.precos@.skip(i as int)[0] == self.precos@[i as int]);
            assert(self.precos@.skip(i as int).skip(1) =~= self.precos@.skip(i + 1));
            if self.precos[i].ativo.igual(ativo) {
                return Some(
                    Quote {
                        ativo: ativo.clone(),
                        fonte: "manual",
                        preco: self.precos[i].preco,
                        anterior: None,
                        moeda: moeda_padrao(ativo),
                        grade: Grade::Manual,
                        em: self.precos[i].em,
                        volume: None,
                        max24: None,
                        min24: None,
                    },
                );
            }
        }
        None
    }

    /// The quotes of the assets that have a typed price.
    pub fn quotes(&self, ativos: &[AssetId]) -> (r: Vec<Quote>)
        ensures
            valores(r@) == picked(
                vistos(ativos@),
                |a: (Market, Seq<char>)| quote_informada(self.precos@, a),
            ),
    {
        let ghost f = |a: (Market, Seq<char>)| quote_informada(self.precos@, a);
        let ghost todos = vistos(ativos@);
        let mut saida: Vec<Quote> = Vec::new();
        proof {
            lemma_pick_ends(todos, f);
            assert(valores(saida@) =~= picked(todos.take(0), f));
        }
        for i in 0..ativos.len()
            invariant
                f == (|a: (Market, Seq<char>)| quote_informada(self.precos@, a)),
                todos == vistos(ativos@),
                valores(saida@) == picked(todos.take(i as int), f),
        {
            proof {
                lemma_pick(todos, f, i as int);
            }
            match self.cotar(&ativos[i]) {
                Some(q) => {
                    let ghost antes = saida@;
                    let ghost x = q@;
                    saida.push(q);
                    assert(valores(saida@) =~= valores(antes).push(x));
                },
                None => {},
            }
        }
        saida
    }
}

/// What was typed for an asset is the price and the instant of its first entry; an asset without
/// an entry has none.
pub proof fn lemma_informado(ps: Seq<Informado>, a: (Market, Seq<char>))
    ensures
        (match informado(ps, a) {
            Some((preco, em)) => exists|k: int|
                0 <= k < ps.len() && (#[trigger] ps[k]).ativo@ == a && ps[k].preco == preco
                    && ps[k].em == em && forall|j: int|
                    0 <= j < k ==> (#[trigger] ps[j]).ativo@ != a,
            None => forall|j: int| 0 <= j < ps.len() ==> (#[trigger] ps[j]).ativo@ != a,
        }),
    decreases ps.len(),
{
    if ps.len() > 0 && ps[0].ativo@ != a {
        let t = ps.skip(1);
        lemma_informado(t, a);
        match informado(t, a) {
            Some((preco, em)) => {
                let k = choose|k: int|
                    0 <= k < t.len() && (#[trigger] t[k]).ativo@ == a && t[k].preco == preco
                        && t[k].em == em && forall|j: int|
                        0 <= j < k ==> (#[trigger] t[j]).ativo@ != a;
                assert(ps[k + 1] == t[k]);
                assert forall|j: int| 0 <= j < k + 1 implies (#[trigger] ps[j]).ativo@ != a by {
                    if j > 0 {
                        assert(t[j - 1] == ps[j]);
                    }
                }
            },
            None => {
                assert forall|j: int| 0 <= j < ps.len() implies (#[trigger] ps[j]).ativo@ != a by {
                    if j > 0 {
                        assert(t[j - 1] == ps[j]);
                    }
                }
            },
        }
    }
}

/// The currency that an asset is priced in, market by market.
pub proof fn lemma_moeda_do_ativo(simbolo: Seq<char>)
    ensures
        moeda_do_ativo((Market::B3, simbolo)) == Moeda::Brl,
        moeda_do_ativo((Market::Us, simbolo)) == Moeda::Usd,
        moeda_do_ativo((Market::Fx, simbolo)) == Moeda::Brl,
        moeda_do_ativo((Market::Bcb, simbolo)) == Moeda::Brl,
        moeda_do_ativo((Market::Outro, simbolo)) == Moeda::Brl,
        moeda_do_ativo((Market::Binance, simbolo + "BRL"@)) == Moeda::Brl,
        moeda_do_ativo((Market::Binance, simbolo + "USDT"@)) == Moeda::Usdt,
        moeda_do_ativo((Market::Binance, simbolo + "EUR"@)) == Moeda::Eur,
{
    lemma_moeda_do_par(simbolo);
}

/// A typed price is never taken for more than that, and has no previous close.
pub proof fn lemma_quote_informada(ps: Seq<Informado>, a: (Market, Seq<char>))
    ensures
        quote_informada(ps, a) is Some ==> ({
            let q = quote_informada(ps, a)->0;
            &&& informado(ps, a) == Some((q.preco, q.em))
            &&& q.ativo == a
            &&& q.grade == Grade::Manual
            &&& q.anterior is None && q.volume is None && q.max24 is None && q.min24 is None
            &&& q.moeda == moeda_do_ativo(a)
        }),
{
}

} // verus!
