//! Exchange rates. Every asset that is not Brazilian passes through here before it becomes
//! a number on the screen.
//!
//! Two rates on purpose: the market's, which converts what is on the screen now, and the
//! Central Bank's PTAX, which is the official number of the day and the one taxes use.

use vstd::prelude::*;
use vstd::slice::slice_subrange;
use crate::number::parse_upto;
use crate::pick::{lemma_pick, lemma_pick_ends, picked};
use crate::text::{chars_of, join, joined, same, text_of, views};
use crate::invest::json::{as_array, as_str, as_written, campo, itens, letras, numero_escrito, Json};
use crate::invest::model::{vistos, AssetId, ErroV, FeedError, Market, Moeda};
use crate::invest::provider::{Grade, Quote, QuoteV, Span};
use crate::invest::providers::Provedor;
use crate::invest::providers::comum::{
    da_cotada, mostrados, recusou, resposta_vista, valor_de, Conta, Cotada,
};

verus! {

/// The pairs of the market's rate.
pub const PARES: [&'static str; 2] = ["USDBRL", "EURBRL"];

/// The series of the official dollar at the Central Bank.
pub const PTAX_SGS: u32 = 1;

/// The symbol of the official dollar, its own so that the two rates are never confused.
pub const SIMBOLO_PTAX: &'static str = "PTAX-USDBRL";

/// A symbol is one of the market's pairs.
pub open spec fn e_par(s: Seq<char>) -> bool {
    s == "USDBRL"@ || s == "EURBRL"@
}

/// Whether a symbol is one of the market's pairs.
pub fn par_de_mercado(s: &str) -> (r: bool)
    ensures
        r == e_par(s@),
{
    same(s, "USDBRL") || same(s, "EURBRL")
}

/// The exchange rates.
pub struct Cambio;

impl Cambio {
    /// The pairs that this source answers for.
    pub open spec fn cobre(a: (Market, Seq<char>)) -> bool {
        a.0 == Market::Fx && (e_par(a.1) || a.1 == SIMBOLO_PTAX@)
    }

    /// Whether this source answers for an asset.
    pub fn covers(&self, ativo: &AssetId) -> (r: bool)
        ensures
            r == Cambio::cobre(ativo@),
    {
        ativo.market == Market::Fx && (par_de_mercado(ativo.symbol.as_str()) || same(
            ativo.symbol.as_str(),
            SIMBOLO_PTAX,
        ))
    }

    /// The pairs that this source has a history of: only the dollar.
    pub open spec fn com_historico(a: (Market, Seq<char>)) -> bool {
        a == (Market::Fx, "USDBRL"@)
    }

    /// How many points of the official series draw a stretch of a pair's history; only the
    /// dollar has one.
    pub fn pontos_do_historico(&self, ativo: &AssetId, span: Span) -> (r: Option<u32>)
        ensures
            r == (if Cambio::com_historico(ativo@) {
                Some(span.tamanho() as u32)
            } else {
                None
            }),
    {
        if ativo.market == Market::Fx && same(ativo.symbol.as_str(), "USDBRL") {
            Some(span.dias())
        } else {
            None
        }
    }
}

/// The assets of a list that are market pairs.
pub open spec fn de_mercado(v: Seq<(Market, Seq<char>)>) -> Seq<(Market, Seq<char>)>
    decreases v.len(),
{
    if v.len() == 0 {
        v
    } else if e_par(v.last().1) {
        de_mercado(v.drop_last()).push(v.last())
    } else {
        de_mercado(v.drop_last())
    }
}

/// The assets of a list that are market pairs.
pub fn mercado(ativos: &[AssetId]) -> (r: Vec<AssetId>)
    ensures
        vistos(r@) == de_mercado(vistos(ativos@)),
        forall|i: int| 0 <= i < r@.len() ==> e_par(#[trigger] r@[i].symbol@),
{
    let ghost todos = vistos(ativos@);
    let mut r: Vec<AssetId> = Vec::new();
    assert(vistos(r@) =~= de_mercado(todos.take(0)));
    for i in 0..ativos.len()
        invariant
            todos == vistos(ativos@),
            vistos(r@) == de_mercado(todos.take(i as int)),
            forall|j: int| 0 <= j < r@.len() ==> e_par(#[trigger] r@[j].symbol@),
    {
        assert(todos.take(i + 1).drop_last() =~= todos.take(i as int));
        if par_de_mercado(ativos[i].symbol.as_str()) {
            let ghost antes = r@;
            let a = ativos[i].clone();
            r.push(a);
            assert(vistos(r@) =~= vistos(antes).push(todos[i as int]));
        }
    }
    assert(todos.take(todos.len() as int) =~= todos);
    r
}

/// Whether the official dollar is among the assets. It is fetched even when the market's
/// rate answered: whoever takes one for the other gets the tax wrong.
pub fn quer_ptax(ativos: &[AssetId]) -> (r: bool)
    ensures
        r == (exists|i: int| 0 <= i < ativos@.len() && #[trigger] ativos@[i].symbol@ == SIMBOLO_PTAX@),
{
    for i in 0..ativos.len()
        invariant
            forall|j: int| 0 <= j < i ==> #[trigger] ativos@[j].symbol@ != SIMBOLO_PTAX@,
    {
        if same(ativos[i].symbol.as_str(), SIMBOLO_PTAX) {
            return true;
        }
    }
    false
}

/// A pair as the address takes it: `USD-BRL`.
pub open spec fn par_na_url(s: Seq<char>) -> Seq<char> {
    s.take(3) + "-"@ + s.skip(3)
}

/// The address that gives several pairs at once.
pub fn url_do_mercado(mercado: &[AssetId]) -> (r: String)
    requires
        forall|i: int| 0 <= i < mercado@.len() ==> e_par(#[trigger] mercado@[i].symbol@),
    ensures
        r@ == "https://economia.awesomeapi.com.br/json/last/"@ + joined(
            Seq::new(mercado@.len(), |i: int| par_na_url(mercado@[i].symbol@)),
            ","@,
        ),
{
    let ghost todos = Seq::new(mercado@.len(), |i: int| par_na_url(mercado@[i].symbol@));
    let mut nomes: Vec<String> = Vec::new();
    proof {
        reveal_strlit("USDBRL");
        reveal_strlit("EURBRL");
    }
    for i in 0..mercado.len()
        invariant
            "USDBRL"@.len() == 6,
            "EURBRL"@.len() == 6,
            forall|k: int| 0 <= k < mercado@.len() ==> e_par(#[trigger] mercado@[k].symbol@),
            todos == Seq::new(mercado@.len(), |k: int| par_na_url(mercado@[k].symbol@)),
            views(nomes@) =~= todos.take(i as int),
    {
        let v = chars_of(mercado[i].symbol.as_str());
        let mut s = text_of(slice_subrange(v.as_slice(), 0, 3));
        s.append("-");
        let t = text_of(slice_subrange(v.as_slice(), 3, v.len()));
        s.append(t.as_str());
        let ghost antes = nomes@;
        let ghost x = s@;
        assert(x =~= par_na_url(mercado@[i as int].symbol@));
        nomes.push(s);
        assert(views(nomes@) =~= views(antes).push(x));
    }
    assert(views(nomes@) =~= todos);
    let mut r = "https://economia.awesomeapi.com.br/json/last/".to_owned();
    let j = join(nomes.as_slice(), ",");
    r.append(j.as_str());
    r
}

/// The bit pattern of the double -100.
pub const MENOS_CEM: u64 = 0xc059_0000_0000_0000;

/// The instant that a member writes between quotes, in seconds.
pub open spec fn carimbo(v: Json) -> Option<u64> {
    match letras(campo(v, "timestamp"@)) {
        Some(s) => match crate::number::within(crate::number::natural(s), u64::MAX as nat) {
            Some(n) => Some(n as u64),
            None => None,
        },
        None => None,
    }
}

/// The quote of a market pair, and the change from which its previous close follows. The
/// buying price is the one that values what one has.
pub open spec fn quote_do_par(
    objeto: Json,
    ativo: (Market, Seq<char>),
    agora: u64,
) -> Option<(QuoteV, Conta)> {
    match campo(objeto, ativo.1) {
        None => None,
        Some(item) => match numero_escrito(campo(item, "bid"@)) {
            None => None,
            Some(preco) => Some(
                (
                    QuoteV {
                        ativo,
                        fonte: "cambio"@,
                        preco,
                        anterior: None,
                        moeda: Moeda::Brl,
                        grade: Grade::AoVivo,
                        em: match carimbo(item) {
                            Some(t) => t,
                            None => agora,
                        },
                        volume: None,
                        max24: numero_escrito(campo(item, "high"@)),
                        min24: numero_escrito(campo(item, "low"@)),
                    },
                    match numero_escrito(campo(item, "pctChange"@)) {
                        Some(p) => if p != MENOS_CEM {
                            Conta::Percentual(p)
                        } else {
                            Conta::Nenhuma
                        },
                        None => Conta::Nenhuma,
                    },
                ),
            ),
        },
    }
}

/// A quote with its account, by the values they hold.
pub open spec fn par_lido(c: Cotada) -> (QuoteV, Conta) {
    (c.quote@, c.conta)
}

/// Quotes with their accounts, by the values they hold.
pub open spec fn pares_lidos(v: Seq<Cotada>) -> Seq<(QuoteV, Conta)> {
    Seq::new(v.len(), |i: int| par_lido(v[i]))
}

/// Reads one market pair.
fn ler_par(objeto: &Json, ativo: &AssetId, agora: u64) -> (r: Option<Cotada>)
    ensures
        (match r {
            Some(c) => quote_do_par(*objeto, ativo@, agora) == Some(par_lido(c)),
            None => quote_do_par(*objeto, ativo@, agora) is None,
        }),
{
    let item = match objeto.get(ativo.symbol.as_str()) {
        Some(x) => x,
        None => {
            return None;
        },
    };
    let preco: u64 = match as_written(item.get("bid")) {
        Some(p) => p,
        None => {
            return None;
        },
    };
    let conta = match as_written(item.get("pctChange")) {
        Some(p) => if p != MENOS_CEM {
            Conta::Percentual(p)
        } else {
            Conta::Nenhuma
        },
        None => Conta::Nenhuma,
    };
    let em: u64 = match as_str(item.get("timestamp")) {
        Some(s) => match parse_upto(s, u64::MAX) {
            Some(t) => t,
            None => agora,
        },
        None => agora,
    };
    Some(
        Cotada {
            quote: Quote {
                ativo: ativo.clone(),
                fonte: "cambio",
                preco,
                anterior: None,
                moeda: Moeda::Brl,
                grade: Grade::AoVivo,
                em,
                volume: None,
                max24: as_written(item.get("high")),
                min24: as_written(item.get("low")),
            },
            conta,
        },
    )
}

/// Reads the market pairs out of the answer: an object with one member for each.
pub fn ler_mercado(valor: &Json, mercado: &[AssetId], agora: u64) -> (r: Result<
    Vec<Cotada>,
    FeedError,
>)
    ensures
        !(valor is Objeto) ==> recusou(r, "esperava um objeto de pares"@),
        valor is Objeto ==> r is Ok && pares_lidos(r->Ok_0@) == picked(
            vistos(mercado@),
            |a: (Market, Seq<char>)| quote_do_par(*valor, a, agora),
        ),
{
    match valor {
        Json::Objeto(ms) => {},
        _ => {
            return Err(FeedError::Formato("esperava um objeto de pares".to_owned()));
        },
    }
    let ghost f = |a: (Market, Seq<char>)| quote_do_par(*valor, a, agora);
    let ghost todos = vistos(mercado@);
    let mut saida: Vec<Cotada> = Vec::new();
    proof {
        lemma_pick_ends(todos, f);
        assert(pares_lidos(saida@) =~= picked(todos.take(0), f));
    }
    for i in 0..mercado.len()
        invariant
            f == (|a: (Market, Seq<char>)| quote_do_par(*valor, a, agora)),
            todos == vistos(mercado@),
            pares_lidos(saida@) == picked(todos.take(i as int), f),
    {
        proof {
            lemma_pick(todos, f, i as int);
        }
        match ler_par(valor, &mercado[i], agora) {
            Some(c) => {
                let ghost antes = saida@;
                let ghost x = par_lido(c);
                saida.push(c);
                assert(pares_lidos(saida@) =~= pares_lidos(antes).push(x));
            },
            None => {},
        }
    }
    Ok(saida)
}

/// The quote of the official dollar: the last observation of its series.
pub open spec fn quote_da_ptax(valor: Json, agora: u64) -> Option<QuoteV> {
    match itens(Some(valor)) {
        None => None,
        Some(xs) => if xs.len() == 0 {
            None
        } else {
            match numero_escrito(campo(xs.last(), "valor"@)) {
                None => None,
                Some(preco) => Some(
                    QuoteV {
                        ativo: (Market::Fx, SIMBOLO_PTAX@),
                        fonte: "cambio"@,
                        preco,
                        anterior: None,
                        moeda: Moeda::Brl,
                        grade: Grade::Fechamento,
                        em: agora,
                        volume: None,
                        max24: None,
                        min24: None,
                    },
                ),
            }
        },
    }
}

/// Reads the official dollar.
pub fn ler_ptax(valor: &Json, agora: u64) -> (r: Option<Quote>)
    ensures
        valor_de(r) == quote_da_ptax(*valor, agora),
{
    let xs = match as_array(Some(valor)) {
        Some(xs) => xs,
        None => {
            return None;
        },
    };
    if xs.len() == 0 {
        return None;
    }
    match as_written(xs[xs.len() - 1].get("valor")) {
        None => None,
        Some(preco) => Some(
            Quote {
                ativo: AssetId::new(Market::Fx, SIMBOLO_PTAX),
                fonte: "cambio",
                preco,
                anterior: None,
                moeda: Moeda::Brl,
                grade: Grade::Fechamento,
                em: agora,
                volume: None,
                max24: None,
                min24: None,
            },
        ),
    }
}

/// The pairs that are always followed, as the real as anchor depends on them.
pub fn pares_essenciais() -> (r: Vec<AssetId>)
    ensures
        vistos(r@) == seq![
            (Market::Fx, "USDBRL"@),
            (Market::Fx, "EURBRL"@),
            (Market::Fx, SIMBOLO_PTAX@),
        ],
{
    let mut v: Vec<AssetId> = Vec::new();
    v.push(AssetId::new(Market::Fx, "USDBRL"));
    v.push(AssetId::new(Market::Fx, "EURBRL"));
    v.push(AssetId::new(Market::Fx, SIMBOLO_PTAX));
    assert(vistos(v@) =~= seq![
        (Market::Fx, "USDBRL"@),
        (Market::Fx, "EURBRL"@),
        (Market::Fx, SIMBOLO_PTAX@),
    ]);
    v
}

/// The official dollar is among the assets.
pub open spec fn tem_ptax(ativos: Seq<(Market, Seq<char>)>) -> bool {
    exists|i: int| 0 <= i < ativos.len() && (#[trigger] ativos[i]).1 == SIMBOLO_PTAX@
}

/// What the answer about the market pairs gives. It is not there where no pair was asked.
pub open spec fn do_mercado(
    ativos: Seq<(Market, Seq<char>)>,
    resposta: Option<Result<Json, FeedError>>,
    agora: u64,
) -> Result<Seq<(QuoteV, Conta)>, ErroV> {
    let pares = de_mercado(ativos);
    if pares.len() == 0 {
        Ok(Seq::empty())
    } else {
        match resposta {
            None => Ok(Seq::empty()),
            Some(Err(e)) => Err(e@),
            Some(Ok(v)) => if v is Objeto {
                Ok(picked(pares, |a: (Market, Seq<char>)| quote_do_par(v, a, agora)))
            } else {
                Err(ErroV::Formato("esperava um objeto de pares"@))
            },
        }
    }
}

/// What the answer about the official dollar gives: one that failed gives nothing, and brings
/// down nothing.
pub open spec fn da_ptax(
    ativos: Seq<(Market, Seq<char>)>,
    resposta: Option<Result<Json, FeedError>>,
    agora: u64,
) -> Seq<(QuoteV, Conta)> {
    match resposta {
        Some(Ok(v)) => match quote_da_ptax(v, agora) {
            Some(q) => if tem_ptax(ativos) {
                seq![(q, Conta::Nenhuma)]
            } else {
                Seq::empty()
            },
            None => Seq::empty(),
        },
        _ => Seq::empty(),
    }
}

impl Cambio {
    /// What the source answers, given what came about the market pairs and about the official
    /// dollar, where each was asked.
    pub fn quotes(
        &self,
        ativos: &[AssetId],
        mercado_disse: Option<Result<Json, FeedError>>,
        ptax_disse: Option<Result<Json, FeedError>>,
        agora: u64,
    ) -> (r: Result<Vec<Cotada>, FeedError>)
        ensures
            resposta_vista(r, da_cotada()) == (match do_mercado(
                vistos(ativos@),
                mercado_disse,
                agora,
            ) {
                Err(e) => Err::<Seq<(QuoteV, Conta)>, ErroV>(e),
                Ok(v) => Ok(v + da_ptax(vistos(ativos@), ptax_disse, agora)),
            }),
    {
        let pares = mercado(ativos);
        let mut saida: Vec<Cotada> = Vec::new();
        assert(pares@.len() == vistos(pares@).len());
        assert(pares_lidos(saida@) =~= Seq::empty());
        if pares.len() > 0 {
            match mercado_disse {
                None => {},
                Some(Err(e)) => {
                    return Err(e);
                },
                Some(Ok(v)) => match ler_mercado(&v, pares.as_slice(), agora) {
                    Ok(lidas) => {
                        saida = lidas;
                    },
                    Err(e) => {
                        return Err(e);
                    },
                },
            }
        }
        let ghost antes = saida@;
        assert(do_mercado(vistos(ativos@), mercado_disse, agora) == Ok::<
            Seq<(QuoteV, Conta)>,
            ErroV,
        >(pares_lidos(antes)));
        let quer = quer_ptax(ativos);
        proof {
            if quer {
                let i = choose|i: int|
                    0 <= i < ativos@.len() && #[trigger] ativos@[i].symbol@ == SIMBOLO_PTAX@;
                assert(vistos(ativos@)[i].1 == SIMBOLO_PTAX@);
            } else if tem_ptax(vistos(ativos@)) {
                let i = choose|i: int|
                    0 <= i < ativos@.len() && (#[trigger] vistos(ativos@)[i]).1 == SIMBOLO_PTAX@;
                assert(ativos@[i].symbol@ == SIMBOLO_PTAX@);
            }
        }
        if quer {
            match ptax_disse {
                Some(Ok(v)) => match ler_ptax(&v, agora) {
                    Some(q) => {
                        saida.push(Cotada { quote: q, conta: Conta::Nenhuma });
                    },
                    None => {},
                },
                _ => {},
            }
        }
        assert(mostrados(saida@, da_cotada()) =~= pares_lidos(antes) + da_ptax(
            vistos(ativos@),
            ptax_disse,
            agora,
        ));
        Ok(saida)
    }
}

/// A pair in the source's address: its two currencies with a dash between them.
pub proof fn lemma_par_na_url(de: Seq<char>, para: Seq<char>)
    requires
        de.len() == 3,
    ensures
        par_na_url(de + para) == de + seq!['-'] + para,
{
    reveal_strlit("-");
    assert("-"@ =~= seq!['-']);
    assert((de + para).take(3) =~= de);
    assert((de + para).skip(3) =~= para);
}

/// A rate is in reais, of the pair that was asked for, at the bid, with the numbers under their
/// names.
pub proof fn lemma_quote_do_par(objeto: Json, ativo: (Market, Seq<char>), agora: u64)
    ensures
        quote_do_par(objeto, ativo, agora) is Some ==> ({
            let q = (quote_do_par(objeto, ativo, agora)->0).0;
            let item = campo(objeto, ativo.1)->0;
            &&& campo(objeto, ativo.1) is Some
            &&& q.ativo == ativo
            &&& q.moeda == Moeda::Brl
            &&& q.fonte == Provedor::Cambio.chave()
            &&& q.grade == Grade::AoVivo
            &&& numero_escrito(campo(item, "bid"@)) == Some(q.preco)
            &&& q.max24 == numero_escrito(campo(item, "high"@))
            &&& q.min24 == numero_escrito(campo(item, "low"@))
            &&& carimbo(item) is Some ==> q.em == carimbo(item)->0
            &&& carimbo(item) is None ==> q.em == agora
        }),
{
}

/// The pairs of the market among some assets are those of them that are one, as they stood.
pub proof fn lemma_de_mercado(v: Seq<(Market, Seq<char>)>)
    ensures
        de_mercado(v) == picked(
            v,
            |a: (Market, Seq<char>)|
                if a.1 == "USDBRL"@ || a.1 == "EURBRL"@ {
                    Some(a)
                } else {
                    None
                },
        ),
    decreases v.len(),
{
    if v.len() > 0 {
        lemma_de_mercado(v.drop_last());
    } else {
        assert(de_mercado(v) =~= Seq::empty());
    }
}

/// The official rate is in reais, and is that of the last day in the answer.
pub proof fn lemma_quote_da_ptax(valor: Json, agora: u64)
    ensures
        quote_da_ptax(valor, agora) is Some ==> ({
            let q = quote_da_ptax(valor, agora)->0;
            let xs = itens(Some(valor))->0;
            &&& itens(Some(valor)) is Some
            &&& xs.len() > 0
            &&& numero_escrito(campo(xs[xs.len() - 1], "valor"@)) == Some(q.preco)
            &&& q.ativo == (Market::Fx, "PTAX-USDBRL"@)
            &&& q.moeda == Moeda::Brl
            &&& q.grade == Grade::Fechamento
        }),
{
}

} // verus!
