//! Shares, funds and the main index of the Brazilian exchange, several in each request, from
//! a source without any contract.

use vstd::prelude::*;
use crate::number::{as_int, integer, parse_i64, within_i64};
use crate::order::{goes_before, is_order, stable_order};
use crate::pick::{lemma_pick, lemma_pick_ends, picked};
use crate::text::{cut_once, join, joined, pieces, same, split, split_once, views, Cut};
use crate::invest::json::{
    as_array, as_double, as_natural, as_str, campo, campo_de, chave_da_ordem, chave_da_ordem_de,
    dobro, get_de, itens, letras, natural_de, positivo, Json,
};
use crate::invest::model::{vistos, AssetId, FeedError, Market, Moeda};
use crate::invest::provider::{depois, valores, Candle, Grade, Quote, QuoteV, Span};
use crate::invest::providers::Provedor;
use crate::invest::providers::comum::{
    da_quote, fechada, feita, mostrados, recusou, resposta_vista, retorno_visto, retornos, reunir,
    valor_de, Retorno, RetornoV,
};
use crate::invest::providers::tesouro::{em_ordem, ordenar};
use crate::invest::providers::yahoo::ate_o_menor;
use crate::invest::tempo::{
    dia_de, dia_lido, em_segundos, epoch_de_iso, instante_em, iso, ler_dia, BRT_OFFSET,
};

verus! {

/// How many assets one request may hold.
pub const POR_LOTE: usize = 20;

/// The pause between two requests, in milliseconds.
pub const ENTRE_LOTES: u64 = 300;

/// The source.
pub struct Kinvo;

/// The symbol as the source calls it: the shares, and the one index it serves.
pub open spec fn nome_na_kinvo(a: (Market, Seq<char>)) -> Option<Seq<char>> {
    match a.0 {
        Market::B3 => Some(a.1),
        Market::Outro => if a.1 == "IBOV"@ {
            Some("IBOV"@)
        } else {
            None
        },
        _ => None,
    }
}

/// The symbol as the source calls it.
pub fn simbolo(ativo: &AssetId) -> (r: Option<&str>)
    ensures
        (match r {
            Some(s) => nome_na_kinvo(ativo@) == Some(s@),
            None => nome_na_kinvo(ativo@) is None,
        }),
{
    match ativo.market {
        Market::B3 => Some(ativo.symbol.as_str()),
        Market::Outro => if same(ativo.symbol.as_str(), "IBOV") {
            Some("IBOV")
        } else {
            None
        },
        _ => None,
    }
}

impl Kinvo {
    /// The assets that this source answers for.
    pub open spec fn cobre(a: (Market, Seq<char>)) -> bool {
        nome_na_kinvo(a) is Some
    }

    /// Whether this source answers for an asset.
    pub fn covers(&self, ativo: &AssetId) -> (r: bool)
        ensures
            r == Kinvo::cobre(ativo@),
    {
        simbolo(ativo).is_some()
    }
}

// --- quotes --------------------------------------------------------------------------------

/// Where a batch ends, among `n` assets, when it begins at `de`.
pub open spec fn fim_do_lote(de: int, n: int) -> int {
    if de + POR_LOTE < n {
        de + POR_LOTE
    } else {
        n
    }
}

/// How many batches `n` assets make.
pub open spec fn quantos_lotes(n: int) -> int {
    (n + POR_LOTE - 1) / (POR_LOTE as int)
}

/// The assets cut into batches, in the order they came.
pub fn lotes(ativos: &[AssetId]) -> (r: Vec<Vec<AssetId>>)
    ensures
        r@.len() == quantos_lotes(ativos@.len() as int),
        forall|k: int|
            0 <= k < r@.len() ==> vistos((#[trigger] r@[k])@) == vistos(ativos@).subrange(
                k * POR_LOTE,
                fim_do_lote(k * POR_LOTE, ativos@.len() as int),
            ),
{
    let mut r: Vec<Vec<AssetId>> = Vec::new();
    let n: usize = ativos.len();
    let mut de: usize = 0;
    while de < n
        invariant
            n == ativos@.len(),
            de <= n,
            r@.len() == quantos_lotes(de as int),
            de < n ==> de == r@.len() * POR_LOTE,
            forall|k: int|
                0 <= k < r@.len() ==> vistos((#[trigger] r@[k])@) == vistos(ativos@).subrange(
                    k * POR_LOTE,
                    fim_do_lote(k * POR_LOTE, n as int),
                ),
        decreases n - de,
    {
        let ate: usize = if n - de > POR_LOTE {
            de + POR_LOTE
        } else {
            n
        };
        let mut lote: Vec<AssetId> = Vec::new();
        for i in de..ate
            invariant
                de <= ate <= n,
                n == ativos@.len(),
                vistos(lote@) =~= vistos(ativos@).subrange(de as int, i as int),
        {
            let ghost antes = lote@;
            lote.push(ativos[i].clone());
            assert(vistos(lote@) =~= vistos(antes).push(ativos@[i as int]@));
        }
        let ghost antes = r@;
        r.push(lote);
        proof {
            let k = antes.len() as int;
            assert(ate == fim_do_lote(k * POR_LOTE, n as int));
            assert(vistos(r@[k]@) =~= vistos(ativos@).subrange(k * POR_LOTE, ate as int));
            assert forall|j: int| 0 <= j < r@.len() implies vistos((#[trigger] r@[j])@) == vistos(
                ativos@,
            ).subrange(j * POR_LOTE, fim_do_lote(j * POR_LOTE, n as int)) by {
                if j < k {
                    assert(r@[j] == antes[j]);
                }
            }
        }
        de = ate;
    }
    r
}

/// Every asset is asked about in one batch, and in no other.
pub proof fn lemma_um_lote_so(n: int, i: int, k: int)
    requires
        0 <= i < n,
    ensures
        0 <= i / (POR_LOTE as int) < quantos_lotes(n),
        0 <= k < quantos_lotes(n) ==> (k * POR_LOTE <= i < fim_do_lote(k * POR_LOTE, n) <==> k == i
            / (POR_LOTE as int)),
{
}

/// The symbols of a batch, as the source calls them.
pub open spec fn nomes_do_lote(v: Seq<(Market, Seq<char>)>) -> Seq<Seq<char>> {
    picked(v, |a: (Market, Seq<char>)| nome_na_kinvo(a))
}

/// The address that prices a batch.
pub fn url_do_lote(lote: &[AssetId]) -> (r: String)
    ensures
        r@ == "https://open-api.kinvo.com.br/intra-day-series?tickers="@ + joined(
            nomes_do_lote(vistos(lote@)),
            ","@,
        ) + "&interval=5m&range=1d"@,
{
    let ghost f = |a: (Market, Seq<char>)| nome_na_kinvo(a);
    let ghost todos = vistos(lote@);
    let mut nomes: Vec<String> = Vec::new();
    proof {
        lemma_pick_ends(todos, f);
        assert(views(nomes@) =~= picked(todos.take(0), f));
    }
    for i in 0..lote.len()
        invariant
            f == (|a: (Market, Seq<char>)| nome_na_kinvo(a)),
            todos == vistos(lote@),
            views(nomes@) == picked(todos.take(i as int), f),
    {
        proof {
            lemma_pick(todos, f, i as int);
        }
        match simbolo(&lote[i]) {
            Some(s) => {
                let ghost antes = nomes@;
                nomes.push(s.to_owned());
                assert(views(nomes@) =~= views(antes).push(s@));
            },
            None => {},
        }
    }
    let mut r = "https://open-api.kinvo.com.br/intra-day-series?tickers=".to_owned();
    let j = join(nomes.as_slice(), ",");
    r.append(j.as_str());
    r.append("&interval=5m&range=1d");
    r
}

/// An instant and the price at it.
#[derive(Clone, Copy, PartialEq, Eq, Debug, Structural)]
pub struct Barra {
    pub em: u64,
    pub preco: u64,
}

/// The bars of two lists side by side.
pub open spec fn barras(ts: Seq<Json>, qs: Seq<Json>, n: int) -> Seq<Barra>
    decreases n,
{
    if n <= 0 {
        Seq::empty()
    } else {
        let p = barras(ts, qs, n - 1);
        match (natural_de(Some(ts[n - 1])), dobro(campo(qs[n - 1], "close"@))) {
            (Some(em), Some(preco)) => p.push(Barra { em, preco }),
            _ => p,
        }
    }
}

/// The bar with the latest instant; of several, the last.
pub open spec fn mais_nova(bs: Seq<Barra>) -> Option<Barra>
    decreases bs.len(),
{
    if bs.len() == 0 {
        None
    } else {
        match mais_nova(bs.drop_last()) {
            Some(b) => if bs.last().em >= b.em {
                Some(bs.last())
            } else {
                Some(b)
            },
            None => Some(bs.last()),
        }
    }
}

/// The bit pattern of the least double.
pub const MENOR_DOBRO: u64 = 0xFFEF_FFFF_FFFF_FFFF;

/// The bit pattern of the greatest double.
pub const MAIOR_DOBRO: u64 = 0x7FEF_FFFF_FFFF_FFFF;

/// The greatest price of a series, and the least double when it has none.
pub open spec fn maxima(bs: Seq<Barra>) -> u64
    decreases bs.len(),
{
    if bs.len() == 0 {
        MENOR_DOBRO
    } else {
        let m = maxima(bs.drop_last());
        if chave_da_ordem(bs.last().preco) > chave_da_ordem(m) {
            bs.last().preco
        } else {
            m
        }
    }
}

/// The least price of a series, and the greatest double when it has none.
pub open spec fn minima(bs: Seq<Barra>) -> u64
    decreases bs.len(),
{
    if bs.len() == 0 {
        MAIOR_DOBRO
    } else {
        let m = minima(bs.drop_last());
        if chave_da_ordem(bs.last().preco) < chave_da_ordem(m) {
            bs.last().preco
        } else {
            m
        }
    }
}

/// The price shown is the one with the latest stamp, and the extremes of the day enclose
/// every price of the series, whatever the order it came in.
pub proof fn lemma_barras(bs: Seq<Barra>, i: int)
    requires
        0 <= i < bs.len(),
    ensures
        mais_nova(bs) is Some,
        bs[i].em <= mais_nova(bs)->0.em,
        bs.contains(mais_nova(bs)->0),
        chave_da_ordem(minima(bs)) <= chave_da_ordem(bs[i].preco) <= chave_da_ordem(maxima(bs)),
    decreases bs.len(),
{
    let resto = bs.drop_last();
    if i < resto.len() {
        lemma_barras(resto, i);
    } else if resto.len() > 0 {
        lemma_barras(resto, 0);
    }
    assert(bs.contains(mais_nova(bs)->0)) by {
        if mais_nova(bs)->0 == bs.last() {
            assert(bs[bs.len() - 1] == mais_nova(bs)->0);
        } else {
            let b = mais_nova(bs)->0;
            assert(resto.contains(b));
            let j = choose|j: int| 0 <= j < resto.len() && resto[j] == b;
            assert(bs[j] == b);
        }
    }
}

/// The bars of an intraday series.
pub open spec fn barras_da_serie(serie: Json) -> Option<Seq<Barra>> {
    match (itens(campo(serie, "timestamp"@)), itens(campo(serie, "quotation"@))) {
        (Some(ts), Some(qs)) => Some(barras(ts, qs, ate_o_menor(ts.len(), qs.len()))),
        _ => None,
    }
}

/// The quote that an intraday series gives: the price with the latest stamp, which is not
/// the last of the list. It is never live, its delay is the one measured, and a stamp ahead
/// of the clock counts as now.
pub open spec fn quote_da_serie(serie: Json, ativo: (Market, Seq<char>), agora: u64) -> Option<
    QuoteV,
> {
    match barras_da_serie(serie) {
        None => None,
        Some(bs) => match mais_nova(bs) {
            None => None,
            Some(b) => {
                let em = if b.em < agora {
                    b.em
                } else {
                    agora
                };
                Some(
                    QuoteV {
                        ativo,
                        fonte: "kinvo"@,
                        preco: b.preco,
                        anterior: dobro(campo(serie, "previousClose"@)),
                        moeda: Moeda::Brl,
                        grade: Grade::Atrasado(depois(agora, em) as u64),
                        em,
                        volume: None,
                        max24: if chave_da_ordem(maxima(bs)) > chave_da_ordem(MENOR_DOBRO) {
                            Some(maxima(bs))
                        } else {
                            None
                        },
                        min24: if chave_da_ordem(minima(bs)) < chave_da_ordem(MAIOR_DOBRO) {
                            Some(minima(bs))
                        } else {
                            None
                        },
                    },
                )
            },
        },
    }
}

/// Reads the bars of two lists side by side.
fn ler_barras(ts: &[Json], qs: &[Json]) -> (r: Vec<Barra>)
    ensures
        r@ == barras(ts@, qs@, ate_o_menor(ts@.len(), qs@.len())),
{
    let n: usize = if ts.len() < qs.len() {
        ts.len()
    } else {
        qs.len()
    };
    let mut r: Vec<Barra> = Vec::new();
    for i in 0..n
        invariant
            n <= ts@.len(),
            n <= qs@.len(),
            r@ == barras(ts@, qs@, i as int),
    {
        match (as_natural(Some(&ts[i])), as_double(qs[i].get("close"))) {
            (Some(em), Some(preco)) => {
                r.push(Barra { em, preco });
            },
            _ => {},
        }
    }
    r
}

/// Reads the quote of one asset from its intraday series.
pub fn ler(ativo: &AssetId, serie: &Json, agora: u64) -> (r: Option<Quote>)
    ensures
        valor_de(r) == quote_da_serie(*serie, ativo@, agora),
{
    let ts = match as_array(serie.get("timestamp")) {
        Some(ts) => ts,
        None => {
            return None;
        },
    };
    let qs = match as_array(serie.get("quotation")) {
        Some(qs) => qs,
        None => {
            return None;
        },
    };
    let bs = ler_barras(ts.as_slice(), qs.as_slice());
    let mut nova: Option<Barra> = None;
    let mut max24: u64 = MENOR_DOBRO;
    let mut min24: u64 = MAIOR_DOBRO;
    for i in 0..bs.len()
        invariant
            nova == mais_nova(bs@.take(i as int)),
            max24 == maxima(bs@.take(i as int)),
            min24 == minima(bs@.take(i as int)),
    {
        let b = bs[i];
        assert(bs@.take(i + 1).drop_last() =~= bs@.take(i as int));
        nova = match nova {
            Some(n) => if b.em >= n.em {
                Some(b)
            } else {
                Some(n)
            },
            None => Some(b),
        };
        if chave_da_ordem_de(b.preco) > chave_da_ordem_de(max24) {
            max24 = b.preco;
        }
        if chave_da_ordem_de(b.preco) < chave_da_ordem_de(min24) {
            min24 = b.preco;
        }
    }
    assert(bs@.take(bs@.len() as int) =~= bs@);
    let b = match nova {
        Some(b) => b,
        None => {
            return None;
        },
    };
    let em: u64 = if b.em < agora {
        b.em
    } else {
        agora
    };
    Some(
        Quote {
            ativo: ativo.clone(),
            fonte: "kinvo",
            preco: b.preco,
            anterior: as_double(serie.get("previousClose")),
            moeda: Moeda::Brl,
            grade: Grade::Atrasado(agora.saturating_sub(em)),
            em,
            volume: None,
            max24: if chave_da_ordem_de(max24) > chave_da_ordem_de(MENOR_DOBRO) {
                Some(max24)
            } else {
                None
            },
            min24: if chave_da_ordem_de(min24) < chave_da_ordem_de(MAIOR_DOBRO) {
                Some(min24)
            } else {
                None
            },
        },
    )
}

/// The quote that the answer to a batch gives for one of its assets.
pub open spec fn quote_no_lote(dados: Json, a: (Market, Seq<char>), agora: u64) -> Option<
    QuoteV,
> {
    match nome_na_kinvo(a) {
        None => None,
        Some(s) => match campo_de(campo(dados, "data"@), s) {
            None => None,
            Some(serie) => quote_da_serie(serie, a, agora),
        },
    }
}

/// Reads what the answer to a batch says of one of its assets.
fn ler_do_lote(dados: &Json, ativo: &AssetId, agora: u64) -> (r: Option<Quote>)
    ensures
        valor_de(r) == quote_no_lote(*dados, ativo@, agora),
{
    match simbolo(ativo) {
        Some(s) => match get_de(dados.get("data"), s) {
            Some(serie) => ler(ativo, serie, agora),
            None => None,
        },
        None => None,
    }
}

/// Reads the answer to a batch. What the source does not know is left out, so that the next
/// one in the chain may be asked.
pub fn ler_lote(dados: &Json, lote: &[AssetId], agora: u64) -> (r: Vec<Quote>)
    ensures
        valores(r@) == picked(
            vistos(lote@),
            |a: (Market, Seq<char>)| quote_no_lote(*dados, a, agora),
        ),
{
    let ghost f = |a: (Market, Seq<char>)| quote_no_lote(*dados, a, agora);
    let ghost todos = vistos(lote@);
    let mut saida: Vec<Quote> = Vec::new();
    proof {
        lemma_pick_ends(todos, f);
        assert(valores(saida@) =~= picked(todos.take(0), f));
    }
    for i in 0..lote.len()
        invariant
            f == (|a: (Market, Seq<char>)| quote_no_lote(*dados, a, agora)),
            todos == vistos(lote@),
            valores(saida@) == picked(todos.take(i as int), f),
    {
        proof {
            lemma_pick(todos, f, i as int);
        }
        match ler_do_lote(dados, &lote[i], agora) {
            Some(q) => {
                let ghost antes = saida@;
                let ghost x = q@;
                saida.push(q);
                assert(valores(saida@) =~= valores(antes).push(x));
            },
            None => {},
        }
    }
    saida
}

/// A request: the assets that it asked about, and the answer.
pub type Lote = (Vec<AssetId>, Result<Json, FeedError>);

/// What a batch comes to. One that failed does not bring down those that came: giving back
/// what there is makes the difference between half a screen of prices and none.
pub open spec fn retorno_do_lote(p: Lote, agora: u64) -> RetornoV<QuoteV> {
    match p.1 {
        Err(e) => RetornoV::Recusou(e@),
        Ok(v) => RetornoV::Veio(
            picked(vistos(p.0@), |a: (Market, Seq<char>)| quote_no_lote(v, a, agora)),
        ),
    }
}

/// Reads what a batch came to.
fn retorno(p: Lote, agora: u64) -> (r: Retorno<Quote>)
    ensures
        retorno_visto(r, da_quote()) == retorno_do_lote(p, agora),
{
    let (lote, resposta) = p;
    match resposta {
        Err(e) => Retorno::Recusou(e),
        Ok(v) => {
            let r = ler_lote(&v, lote.as_slice(), agora);
            assert(mostrados(r@, da_quote()) =~= valores(r@));
            Retorno::Veio(r)
        },
    }
}

impl Kinvo {
    /// What the source answers after a round, given what each batch asked and what came.
    pub fn quotes(&self, perguntas: Vec<Lote>, agora: u64) -> (r: Result<Vec<Quote>, FeedError>)
        ensures
            resposta_vista(r, da_quote()) == fechada(
                feita(retornos(perguntas@, |p: Lote| retorno_do_lote(p, agora))),
            ),
    {
        let ghost g = |p: Lote| retorno_do_lote(p, agora);
        let ghost todas = perguntas@;
        let ghost mut feitas: int = 0;
        let mut ps = perguntas;
        let mut rs: Vec<Retorno<Quote>> = Vec::new();
        let ghost f = |x: Retorno<Quote>| retorno_visto(x, da_quote());
        assert(todas.skip(0) =~= todas);
        assert(retornos(rs@, f) =~= retornos(todas.take(0), g));
        while ps.len() > 0
            invariant
                g == (|p: Lote| retorno_do_lote(p, agora)),
                f == (|x: Retorno<Quote>| retorno_visto(x, da_quote())),
                0 <= feitas <= todas.len(),
                ps@ == todas.skip(feitas),
                retornos(rs@, f) == retornos(todas.take(feitas), g),
            decreases ps@.len(),
        {
            let ghost antes = rs@;
            let p = ps.remove(0);
            let ghost q = p;
            assert(p == todas[feitas]);
            assert(ps@ =~= todas.skip(feitas + 1));
            rs.push(retorno(p, agora));
            proof {
                assert(retornos(rs@, f) =~= retornos(antes, f).push(g(q)));
                assert(retornos(todas.take(feitas + 1), g) =~= retornos(todas.take(feitas), g).push(
                    g(q),
                ));
                feitas = feitas + 1;
            }
        }
        assert(todas.take(feitas) =~= todas);
        reunir::<Quote, QuoteV>(rs, Ghost(da_quote()))
    }
}

// --- history -------------------------------------------------------------------------------

/// The length of history as the source calls it: it has a month and a year.
pub open spec fn range_de(span: Span) -> Seq<char> {
    match span {
        Span::Dia => "1mo"@,
        Span::Semana => "1mo"@,
        Span::Mes => "1mo"@,
        Span::SeisMeses => "1y"@,
        Span::Ano => "1y"@,
        Span::CincoAnos => "1y"@,
    }
}

/// To how many calendar days a history is cut, where the source has no address of its own
/// for that length.
pub open spec fn corte_em_dias(span: Span) -> Option<u64> {
    match span {
        Span::Dia => Some(1u64),
        Span::Semana => Some(5u64),
        Span::SeisMeses => Some(182u64),
        _ => None,
    }
}

/// The address of an asset's history. The index is in no sector, and is read off the answer
/// about the share that trades the most.
pub fn url_do_historico(simbolo: &str, span: Span) -> (r: String)
    ensures
        r@ == "https://open-api.kinvo.com.br/v2/sector-historic-quotation/"@ + (if simbolo@
            == "IBOV"@ {
            "PETR4"@
        } else {
            simbolo@
        }) + "?range="@ + range_de(span) + "&interval=1d"@,
{
    let mut r = "https://open-api.kinvo.com.br/v2/sector-historic-quotation/".to_owned();
    if same(simbolo, "IBOV") {
        r.append("PETR4");
    } else {
        r.append(simbolo);
    }
    r.append("?range=");
    r.append(
        match span {
            Span::Dia => "1mo",
            Span::Semana => "1mo",
            Span::Mes => "1mo",
            Span::SeisMeses => "1y",
            Span::Ano => "1y",
            Span::CincoAnos => "1y",
        },
    );
    r.append("&interval=1d");
    r
}

/// From when on a history is kept: by date, as so many points would be so many trading days.
pub fn corte(span: Span, agora: u64) -> (r: u64)
    ensures
        r == (match corte_em_dias(span) {
            Some(n) => depois(agora, (n * 86400) as u64),
            None => 0,
        }),
{
    match span {
        Span::Dia => agora.saturating_sub(86400),
        Span::Semana => agora.saturating_sub(5 * 86400),
        Span::SeisMeses => agora.saturating_sub(182 * 86400),
        _ => 0,
    }
}

/// The point that a day of the answer gives for a symbol, from an instant on.
pub open spec fn vela_do_dia(d: Json, simbolo: Seq<char>, corte: u64) -> Option<Candle> {
    match (
        dobro(campo_de(campo_de(campo(d, "tickers"@), simbolo), "marketPrice"@)),
        letras(campo(d, "date"@)),
    ) {
        (Some(x), Some(s)) => match em_segundos(iso(s)) {
            Some(t) => if t >= corte {
                Some(Candle { em: t as u64, fechamento: x })
            } else {
                None
            },
            None => None,
        },
        _ => None,
    }
}

/// Reads the daily series of a symbol, in the order of time.
pub fn serie(valor: &Json, simbolo: &str, corte: u64) -> (r: Result<Vec<Candle>, FeedError>)
    ensures
        (match itens(campo(*valor, "data"@)) {
            None => recusou(r, "resposta sem «data»"@),
            Some(ds) => {
                let pontos = picked(ds, |d: Json| vela_do_dia(d, simbolo@, corte));
                if pontos.len() == 0 {
                    recusou(r, "série vazia para "@ + simbolo@)
                } else {
                    r is Ok && em_ordem(pontos, r->Ok_0@)
                }
            },
        }),
{
    let ds = match as_array(valor.get("data")) {
        Some(ds) => ds,
        None => {
            return Err(FeedError::Formato("resposta sem «data»".to_owned()));
        },
    };
    let ghost f = |d: Json| vela_do_dia(d, simbolo@, corte);
    let mut v: Vec<Candle> = Vec::new();
    proof {
        lemma_pick_ends(ds@, f);
    }
    for i in 0..ds.len()
        invariant
            f == (|d: Json| vela_do_dia(d, simbolo@, corte)),
            v@ == picked(ds@.take(i as int), f),
    {
        proof {
            lemma_pick(ds@, f, i as int);
        }
        let preco = as_double(get_de(get_de(ds[i].get("tickers"), simbolo), "marketPrice"));
        match (preco, as_str(ds[i].get("date"))) {
            (Some(x), Some(s)) => match epoch_de_iso(s) {
                Some(t) => if t >= corte {
                    v.push(Candle { em: t, fechamento: x });
                },
                None => {},
            },
            _ => {},
        }
    }
    if v.len() == 0 {
        let mut m = "série vazia para ".to_owned();
        m.append(simbolo);
        return Err(FeedError::Formato(m));
    }
    Ok(ordenar(v.as_slice()))
}

// --- payments announced ------------------------------------------------------------------------

/// A payment for each share, announced for a day.
#[derive(Clone, Copy, PartialEq, Eq, Debug, Structural)]
pub struct Pagamento {
    pub em: u64,
    pub por_cota: u64,
    pub dy: u64,
}

/// What was announced for an asset.
pub struct Anunciado {
    pub ativo: AssetId,
    pub pagamento: Pagamento,
}

/// The day of trading that a text writes, counted from the epoch. A time of day after a `T` does
/// not count, but its hour has to read.
pub open spec fn dia_de_pregao(s: Seq<char>) -> Option<int> {
    match cut_once(s, Cut::At('T')) {
        None => dia_lido(s),
        Some((d, h)) => {
            let p = pieces(h, Cut::At(':'));
            if p.len() > 1 && within_i64(integer(p[0])) is Some {
                dia_lido(d)
            } else {
                None
            }
        },
    }
}

/// Reads the day of trading that a text writes.
fn ler_dia_de_pregao(s: &str) -> (r: Option<i64>)
    ensures
        as_int(r) == dia_de_pregao(s@),
        r is Some ==> -800_000_000_000 <= r->0 <= 1_000_000_000_000,
{
    match split_once(s, 'T') {
        None => ler_dia(s),
        Some((d, h)) => {
            let p = split(h.as_str(), Cut::At(':'));
            assert(views(p@).len() == p@.len());
            assert(views(p@)[0] == p@[0]@);
            if p.len() > 1 && parse_i64(p[0].as_str()).is_some() {
                ler_dia(d.as_str())
            } else {
                None
            }
        },
    }
}

/// The instant that stands for a day of trading: noon of that day in Brasília, which no
/// offset in use takes to another day.
pub open spec fn meio_dia(dia: Seq<char>) -> Option<int> {
    match dia_de_pregao(dia) {
        Some(n) => em_segundos(Some(n * 86400 + 43200 - BRT_OFFSET)),
        None => None,
    }
}

/// Reads a day of trading as an instant.
pub fn data_com(dia: &str) -> (r: Option<u64>)
    ensures
        instante_em(r) == meio_dia(dia@),
{
    match ler_dia_de_pregao(dia) {
        Some(n) => crate::invest::tempo::contar((n as i128) * 86400 + 43200 - (BRT_OFFSET as i128)),
        None => None,
    }
}

/// A day of trading is read back as that day in Brasília.
pub proof fn lemma_data_com(dia: Seq<char>, em: u64)
    requires
        dia_de_pregao(dia) is Some,
        dia_de_pregao(dia)->0 >= 0,
        meio_dia(dia) == Some(em as int),
    ensures
        dia_de(em, BRT_OFFSET) == dia_de_pregao(dia)->0,
{
}

/// The payment that an item gives: one of nothing is no payment.
pub open spec fn pagamento_de(d: Json) -> Option<Pagamento> {
    match (dobro(campo(d, "payment"@)), letras(campo(d, "eventDate"@))) {
        (Some(p), Some(s)) => match meio_dia(s) {
            Some(t) => if positivo(p) {
                Some(
                    Pagamento {
                        em: t as u64,
                        por_cota: p,
                        dy: match dobro(campo(d, "dividendYield"@)) {
                            Some(y) => y,
                            None => 0,
                        },
                    },
                )
            } else {
                None
            },
            None => None,
        },
        _ => None,
    }
}

/// The lists that members of a list hold under a name, one after the other.
pub open spec fn achatados(vs: Seq<Json>, nome: Seq<char>) -> Seq<Json>
    decreases vs.len(),
{
    if vs.len() == 0 {
        Seq::empty()
    } else {
        match itens(campo(vs.last(), nome)) {
            Some(xs) => achatados(vs.drop_last(), nome) + xs,
            None => achatados(vs.drop_last(), nome),
        }
    }
}

/// The payments of the months of an answer.
pub open spec fn pagamentos(meses: Seq<Json>) -> Seq<Pagamento> {
    picked(
        achatados(achatados(meses, "values"@), "details"@),
        |d: Json| pagamento_de(d),
    )
}

/// The lists that members of a list hold under a name, as references.
fn achatar<'a>(vs: &Vec<&'a Json>, nome: &str) -> (r: Vec<&'a Json>)
    ensures
        vistos_de(r@) == achatados(vistos_de(vs@), nome@),
{
    let ghost todos = vistos_de(vs@);
    let mut r: Vec<&Json> = Vec::new();
    assert(todos.take(0) =~= Seq::empty());
    assert(vistos_de(r@) =~= Seq::empty());
    for i in 0..vs.len()
        invariant
            todos == vistos_de(vs@),
            vistos_de(r@) == achatados(todos.take(i as int), nome@),
    {
        assert(todos.take(i + 1).drop_last() =~= todos.take(i as int));
        match as_array(vs[i].get(nome)) {
            Some(xs) => {
                let ghost antes = vistos_de(r@);
                for j in 0..xs.len()
                    invariant
                        vistos_de(r@) == antes + xs@.take(j as int),
                {
                    let ghost agora = r@;
                    r.push(&xs[j]);
                    assert(vistos_de(r@) =~= vistos_de(agora).push(xs@[j as int]));
                    assert(xs@.take(j + 1) =~= xs@.take(j as int).push(xs@[j as int]));
                }
                assert(xs@.take(xs@.len() as int) =~= xs@);
            },
            None => {},
        }
    }
    assert(todos.take(todos.len() as int) =~= todos);
    r
}

/// The values behind references.
pub open spec fn vistos_de(v: Seq<&Json>) -> Seq<Json> {
    Seq::new(v.len(), |i: int| *v[i])
}

/// Reads the payment of an item.
fn ler_pagamento(d: &Json) -> (r: Option<Pagamento>)
    ensures
        r == pagamento_de(*d),
{
    match (as_double(d.get("payment")), as_str(d.get("eventDate"))) {
        (Some(p), Some(s)) => match data_com(s) {
            Some(t) => if chave_da_ordem_de(p) > 0 {
                Some(
                    Pagamento {
                        em: t,
                        por_cota: p,
                        dy: match as_double(d.get("dividendYield")) {
                            Some(y) => y,
                            None => 0,
                        },
                    },
                )
            } else {
                None
            },
            None => None,
        },
        _ => None,
    }
}

/// From the latest to the oldest, equal instants as they stood.
pub open spec fn do_mais_recente(ps: Seq<Pagamento>, r: Seq<Pagamento>) -> bool {
    let chaves = Seq::new(ps.len(), |i: int| (-ps[i].em) as i128);
    exists|o: Seq<usize>| #[trigger]
        is_order(chaves, o) && r =~= Seq::new(ps.len(), |i: int| ps[o[i] as int])
}

/// The payments of announcements of one asset.
pub open spec fn anuncios_de(r: Seq<Anunciado>, a: (Market, Seq<char>)) -> bool {
    forall|i: int| 0 <= i < r.len() ==> (#[trigger] r[i]).ativo@ == a
}

/// The payments alone.
pub open spec fn so_pagamentos(r: Seq<Anunciado>) -> Seq<Pagamento> {
    Seq::new(r.len(), |i: int| r[i].pagamento)
}

/// Puts payments from the latest to the oldest.
fn recentes_primeiro(ps: &[Pagamento]) -> (r: Vec<Pagamento>)
    ensures
        do_mais_recente(ps@, r@),
{
    let mut chaves: Vec<i128> = Vec::new();
    for i in 0..ps.len()
        invariant
            chaves@ =~= Seq::new(i as nat, |k: int| (-ps@[k].em) as i128),
    {
        chaves.push(-(ps[i].em as i128));
    }
    let o = stable_order(chaves.as_slice());
    let mut r: Vec<Pagamento> = Vec::new();
    for i in 0..o.len()
        invariant
            is_order(chaves@, o@),
            chaves@.len() == ps@.len(),
            r@ =~= Seq::new(i as nat, |k: int| ps@[o@[k] as int]),
    {
        r.push(ps[o[i]]);
    }
    proof {
        assert(chaves@ =~= Seq::new(ps@.len(), |i: int| (-ps@[i].em) as i128));
        assert(is_order(Seq::new(ps@.len(), |i: int| (-ps@[i].em) as i128), o@));
    }
    r
}

/// The address of what was announced for a symbol.
pub fn url_dos_proventos(simbolo: &str) -> (r: String)
    ensures
        r@ == "https://open-api.kinvo.com.br/monthly-dividends-heatmap?tickers="@ + simbolo@,
{
    let mut r = "https://open-api.kinvo.com.br/monthly-dividends-heatmap?tickers=".to_owned();
    r.append(simbolo);
    r
}

/// Reads what was announced for an asset, from the latest to the oldest. A map without
/// months is the answer for one that never paid: an empty list, and no error.
pub fn anunciados(valor: &Json, ativo: &AssetId) -> (r: Result<Vec<Anunciado>, FeedError>)
    ensures
        (match campo_de(campo(*valor, "data"@), "dateCom"@) {
            None => recusou(r, "resposta sem «data.dateCom»"@),
            Some(mapa) => r is Ok && anuncios_de(r->Ok_0@, ativo@) && (match itens(
                campo(mapa, "months"@),
            ) {
                None => r->Ok_0@.len() == 0,
                Some(meses) => do_mais_recente(pagamentos(meses), so_pagamentos(r->Ok_0@)),
            }),
        }),
{
    let mapa = match get_de(valor.get("data"), "dateCom") {
        Some(m) => m,
        None => {
            return Err(FeedError::Formato("resposta sem «data.dateCom»".to_owned()));
        },
    };
    let meses = match as_array(mapa.get("months")) {
        Some(ms) => ms,
        None => {
            return Ok(Vec::new());
        },
    };
    let mut refs: Vec<&Json> = Vec::new();
    for i in 0..meses.len()
        invariant
            vistos_de(refs@) =~= meses@.take(i as int),
    {
        let ghost antes = refs@;
        refs.push(&meses[i]);
        assert(vistos_de(refs@) =~= vistos_de(antes).push(meses@[i as int]));
    }
    assert(vistos_de(refs@) =~= meses@);
    let valores = achatar(&refs, "values");
    let detalhes = achatar(&valores, "details");
    let ghost ds = vistos_de(detalhes@);
    let ghost f = |d: Json| pagamento_de(d);
    let mut ps: Vec<Pagamento> = Vec::new();
    proof {
        lemma_pick_ends(ds, f);
    }
    for i in 0..detalhes.len()
        invariant
            f == (|d: Json| pagamento_de(d)),
            ds == vistos_de(detalhes@),
            ps@ == picked(ds.take(i as int), f),
    {
        proof {
            lemma_pick(ds, f, i as int);
        }
        match ler_pagamento(detalhes[i]) {
            Some(p) => {
                ps.push(p);
            },
            None => {},
        }
    }
    let ordem = recentes_primeiro(ps.as_slice());
    let mut saida: Vec<Anunciado> = Vec::new();
    for i in 0..ordem.len()
        invariant
            so_pagamentos(saida@) =~= ordem@.take(i as int),
            anuncios_de(saida@, ativo@),
    {
        let ghost antes = saida@;
        saida.push(Anunciado { ativo: ativo.clone(), pagamento: ordem[i] });
        assert(so_pagamentos(saida@) =~= so_pagamentos(antes).push(ordem@[i as int]));
    }
    assert(so_pagamentos(saida@) =~= ordem@);
    Ok(saida)
}

/// Where the bars of a series come from: instant and close of one place, places in the order they
/// stand in, and every place that has both is there.
pub proof fn lemma_de_onde_vem(ts: Seq<Json>, qs: Seq<Json>, n: int) -> (ks: Seq<int>)
    requires
        0 <= n <= ts.len(),
        n <= qs.len(),
    ensures
        ks.len() == barras(ts, qs, n).len(),
        forall|i: int|
            0 <= i < ks.len() ==> 0 <= #[trigger] ks[i] < n && natural_de(Some(ts[ks[i]])) == Some(
                barras(ts, qs, n)[i].em,
            ) && dobro(campo(qs[ks[i]], "close"@)) == Some(barras(ts, qs, n)[i].preco),
        forall|i: int, j: int| 0 <= i < j < ks.len() ==> #[trigger] ks[i] < #[trigger] ks[j],
        forall|k: int|
            0 <= k < n && natural_de(Some(#[trigger] ts[k])) is Some && dobro(
                campo(qs[k], "close"@),
            ) is Some ==> ks.contains(k),
    decreases n,
{
    if n <= 0 {
        Seq::empty()
    } else {
        let a = lemma_de_onde_vem(ts, qs, n - 1);
        if natural_de(Some(ts[n - 1])) is Some && dobro(campo(qs[n - 1], "close"@)) is Some {
            let ks = a.push(n - 1);
            assert forall|k: int|
                0 <= k < n && natural_de(Some(#[trigger] ts[k])) is Some && dobro(
                    campo(qs[k], "close"@),
                ) is Some implies ks.contains(k) by {
                if k < n - 1 {
                    let i = choose|i: int| 0 <= i < a.len() && a[i] == k;
                    assert(ks[i] == k);
                } else {
                    assert(ks[ks.len() - 1] == k);
                }
            }
            ks
        } else {
            a
        }
    }
}

/// The highest and the lowest are prices of bars, unless no bar is within the doubles that have
/// an end.
proof fn lemma_extremos(bs: Seq<Barra>)
    ensures
        maxima(bs) == MENOR_DOBRO || exists|k: int|
            0 <= k < bs.len() && (#[trigger] bs[k]).preco == maxima(bs),
        minima(bs) == MAIOR_DOBRO || exists|k: int|
            0 <= k < bs.len() && (#[trigger] bs[k]).preco == minima(bs),
    decreases bs.len(),
{
    if bs.len() > 0 {
        let w = bs.drop_last();
        lemma_extremos(w);
        assert(bs[bs.len() - 1] == bs.last());
        if maxima(bs) == maxima(w) && maxima(w) != MENOR_DOBRO {
            let k = choose|k: int| 0 <= k < w.len() && (#[trigger] w[k]).preco == maxima(w);
            assert(bs[k] == w[k]);
        }
        if minima(bs) == minima(w) && minima(w) != MAIOR_DOBRO {
            let k = choose|k: int| 0 <= k < w.len() && (#[trigger] w[k]).preco == minima(w);
            assert(bs[k] == w[k]);
        }
    }
}

/// A quote: in reais, of the asset asked about, at the price of the newest bar, never stamped in
/// the future, with the delay since its stamp. No bar is above its high nor below its low.
pub proof fn lemma_quote_da_serie(serie: Json, ativo: (Market, Seq<char>), agora: u64)
    requires
        barras_da_serie(serie) is Some,
    ensures
        (match quote_da_serie(serie, ativo, agora) {
            Some(q) => {
                let bs = barras_da_serie(serie)->0;
                &&& q.ativo == ativo
                &&& q.moeda == Moeda::Brl
                &&& q.fonte == Provedor::Kinvo.chave()
                &&& q.em <= agora
                &&& q.grade == Grade::Atrasado((agora - q.em) as u64)
                &&& exists|k: int|
                    0 <= k < bs.len() && (#[trigger] bs[k]).preco == q.preco && (q.em == bs[k].em
                        || (q.em == agora && bs[k].em >= agora)) && forall|i: int|
                        0 <= i < bs.len() ==> (#[trigger] bs[i]).em <= bs[k].em
                &&& forall|i: int|
                    0 <= i < bs.len() && q.max24 is Some ==> chave_da_ordem(
                        (#[trigger] bs[i]).preco,
                    ) <= chave_da_ordem(q.max24->0)
                &&& forall|i: int|
                    0 <= i < bs.len() && q.min24 is Some ==> chave_da_ordem(
                        (#[trigger] bs[i]).preco,
                    ) >= chave_da_ordem(q.min24->0)
                &&& q.max24 is Some ==> exists|k: int|
                    0 <= k < bs.len() && (#[trigger] bs[k]).preco == q.max24->0
                &&& q.min24 is Some ==> exists|k: int|
                    0 <= k < bs.len() && (#[trigger] bs[k]).preco == q.min24->0
            },
            None => barras_da_serie(serie)->0.len() == 0,
        }),
{
    let bs = barras_da_serie(serie)->0;
    lemma_extremos(bs);
    assert forall|i: int| 0 <= i < bs.len() implies ({
        &&& (#[trigger] bs[i]).em <= mais_nova(bs)->0.em
        &&& chave_da_ordem(minima(bs)) <= chave_da_ordem(bs[i].preco) <= chave_da_ordem(maxima(bs))
    }) by {
        lemma_barras(bs, i);
    }
    if bs.len() > 0 {
        lemma_barras(bs, 0);
        let k = choose|k: int| 0 <= k < bs.len() && bs[k] == mais_nova(bs)->0;
        assert(bs[k].preco == mais_nova(bs)->0.preco);
    }
}

/// Payments from the newest to the oldest, all of them.
pub proof fn lemma_do_mais_recente(ps: Seq<Pagamento>, r: Seq<Pagamento>)
    requires
        do_mais_recente(ps, r),
        ps.len() <= usize::MAX,
    ensures
        r.len() == ps.len(),
        forall|i: int, j: int| 0 <= i < j < r.len() ==> (#[trigger] r[i]).em >= (#[trigger] r[j]).em,
        forall|c: Pagamento| ps.contains(c) <==> #[trigger] r.contains(c),
{
    let chaves = Seq::new(ps.len(), |i: int| (-ps[i].em) as i128);
    let o = choose|o: Seq<usize>| #[trigger]
        is_order(chaves, o) && r =~= Seq::new(ps.len(), |i: int| ps[o[i] as int]);
    assert forall|i: int, j: int| 0 <= i < j < r.len() implies (#[trigger] r[i]).em >= (
    #[trigger] r[j]).em by {
        assert(goes_before(chaves, o[i] as int, o[j] as int));
    }
    assert forall|c: Pagamento| ps.contains(c) <==> #[trigger] r.contains(c) by {
        if ps.contains(c) {
            let i = choose|i: int| 0 <= i < ps.len() && ps[i] == c;
            assert(o.contains(i as usize));
            let k = choose|k: int| 0 <= k < o.len() && o[k] == i as usize;
            assert(r[k] == c);
        }
        if r.contains(c) {
            let k = choose|k: int| 0 <= k < r.len() && r[k] == c;
            assert(ps[o[k] as int] == c);
        }
    }
}

/// A payment is of more than nothing, at the day that its date names, with its numbers under
/// their names.
pub proof fn lemma_pagamento_de(d: Json)
    ensures
        pagamento_de(d) is Some ==> ({
            let p = pagamento_de(d)->0;
            &&& dobro(campo(d, "payment"@)) == Some(p.por_cota)
            &&& 0 < chave_da_ordem(p.por_cota)
            &&& letras(campo(d, "eventDate"@)) is Some
            &&& meio_dia(letras(campo(d, "eventDate"@))->0) == Some(p.em as int)
            &&& dobro(campo(d, "dividendYield"@)) is Some ==> dobro(campo(d, "dividendYield"@))
                == Some(p.dy)
        }),
{
}

} // verus!
