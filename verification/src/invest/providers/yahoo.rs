//! Shares of both exchanges from a source without any contract: the reserve, for when the
//! others do not answer.

use vstd::prelude::*;
use crate::invest::json::{
    as_array, as_double, as_natural, campo, campo_de, dobro, first_of, get_de, itens, natural_de,
    primeiro, visto, Json,
};
use crate::invest::model::{AssetId, ErroV, FeedError, Market, Moeda};
use crate::invest::provider::{depois, Candle, Grade, Quote, QuoteV, Span};
use crate::invest::providers::Provedor;
use crate::invest::providers::comum::{
    da_quote, em_lista, fechada, feita, lemma_depois_do_fim, mostrados, no_maximo_um, pontos_ou,
    pontos_ou_erro, recusou, resposta_vista, retorno_visto, retornos, reunir, segue_depois,
    valor_de, Pergunta, Retorno, RetornoV, Rodizio,
};
use crate::invest::providers::manual::moeda_do_ativo;

verus! {

/// How many assets are asked about in one round: one request each, and slowly, as the
/// penalty for insisting is being blocked.
pub const POR_VOLTA: usize = 4;

/// The source, and where it is in its list.
pub struct Yahoo {
    pub rodizio: Rodizio,
}

/// The symbol as the source calls it: Brazilian shares carry a suffix.
pub open spec fn nome_no_yahoo(a: (Market, Seq<char>)) -> Seq<char> {
    if a.0 == Market::B3 {
        a.1 + ".SA"@
    } else {
        a.1
    }
}

/// The symbol as the source calls it.
pub fn simbolo(ativo: &AssetId) -> (r: String)
    ensures
        r@ == nome_no_yahoo(ativo@),
{
    let mut r = ativo.symbol.clone();
    if ativo.market == Market::B3 {
        r.append(".SA");
    }
    r
}

/// The length of history as the source calls it.
pub open spec fn range_de(span: Span) -> Seq<char> {
    match span {
        Span::Dia => "1d"@,
        Span::Semana => "5d"@,
        Span::Mes => "1mo"@,
        Span::SeisMeses => "6mo"@,
        Span::Ano => "1y"@,
        Span::CincoAnos => "5y"@,
    }
}

/// The address of an asset's chart. A stretch of one day is what gives its quote.
pub fn url_do_grafico(ativo: &AssetId, span: Span) -> (r: String)
    ensures
        r@ == "https://query1.finance.yahoo.com/v8/finance/chart/"@ + nome_no_yahoo(ativo@)
            + "?interval=1d&range="@ + range_de(span),
{
    let mut r = "https://query1.finance.yahoo.com/v8/finance/chart/".to_owned();
    r.append(simbolo(ativo).as_str());
    r.append("?interval=1d&range=");
    r.append(
        match span {
            Span::Dia => "1d",
            Span::Semana => "5d",
            Span::Mes => "1mo",
            Span::SeisMeses => "6mo",
            Span::Ano => "1y",
            Span::CincoAnos => "5y",
        },
    );
    r
}

impl Yahoo {
    /// The assets that this source answers for.
    pub open spec fn cobre(a: (Market, Seq<char>)) -> bool {
        a.0 == Market::B3 || a.0 == Market::Us
    }

    /// Whether this source answers for an asset.
    pub fn covers(&self, ativo: &AssetId) -> (r: bool)
        ensures
            r == Yahoo::cobre(ativo@),
    {
        ativo.market == Market::B3 || ativo.market == Market::Us
    }
}

/// The first result of an answer.
pub open spec fn resultado(v: Json) -> Option<Json> {
    primeiro(itens(campo_de(campo(v, "chart"@), "result"@)))
}

/// The summary of an answer's first result.
pub open spec fn meta_de(v: Json) -> Option<Json> {
    campo_de(resultado(v), "meta"@)
}

/// Reads the first result of an answer.
fn ler_resultado(v: &Json) -> (r: Option<&Json>)
    ensures
        visto(r) == resultado(*v),
{
    first_of(get_de(v.get("chart"), "result"))
}

/// A week, in seconds: a stamp older than that is taken for wrong.
pub const UMA_SEMANA: u64 = 604800;

/// The quote that an answer's summary gives. It is never live, however fresh the stamp: the
/// mark that says the number has no guarantee behind it is what matters here.
pub open spec fn quote_da_meta(meta: Json, ativo: (Market, Seq<char>), agora: u64) -> Option<
    QuoteV,
> {
    match dobro(campo(meta, "regularMarketPrice"@)) {
        None => None,
        Some(preco) => {
            let em = match natural_de(campo(meta, "regularMarketTime"@)) {
                Some(t) => t,
                None => agora,
            };
            Some(
                QuoteV {
                    ativo,
                    fonte: "yahoo"@,
                    preco,
                    anterior: dobro(
                        match campo(meta, "chartPreviousClose"@) {
                            Some(v) => Some(v),
                            None => campo(meta, "previousClose"@),
                        },
                    ),
                    moeda: if ativo.0 == Market::B3 {
                        Moeda::Brl
                    } else {
                        Moeda::Usd
                    },
                    grade: Grade::NaoOficial,
                    em: if depois(agora, em) < UMA_SEMANA {
                        em
                    } else {
                        agora
                    },
                    volume: dobro(campo(meta, "regularMarketVolume"@)),
                    max24: dobro(campo(meta, "regularMarketDayHigh"@)),
                    min24: dobro(campo(meta, "regularMarketDayLow"@)),
                },
            )
        },
    }
}

/// Reads a quote out of an answer's summary.
fn ler_meta(meta: &Json, ativo: &AssetId, agora: u64) -> (r: Option<Quote>)
    ensures
        valor_de(r) == quote_da_meta(*meta, ativo@, agora),
{
    let preco: u64 = match as_double(meta.get("regularMarketPrice")) {
        Some(p) => p,
        None => {
            return None;
        },
    };
    let em: u64 = match as_natural(meta.get("regularMarketTime")) {
        Some(t) => t,
        None => agora,
    };
    let fechamento = match meta.get("chartPreviousClose") {
        Some(v) => Some(v),
        None => meta.get("previousClose"),
    };
    Some(
        Quote {
            ativo: ativo.clone(),
            fonte: "yahoo",
            preco,
            anterior: as_double(fechamento),
            moeda: if ativo.market == Market::B3 {
                Moeda::Brl
            } else {
                Moeda::Usd
            },
            grade: Grade::NaoOficial,
            em: if agora.saturating_sub(em) < UMA_SEMANA {
                em
            } else {
                agora
            },
            volume: as_double(meta.get("regularMarketVolume")),
            max24: as_double(meta.get("regularMarketDayHigh")),
            min24: as_double(meta.get("regularMarketDayLow")),
        },
    )
}

/// Reads the answer about one asset: its quote, nothing when it has no price, or an error
/// when the answer has no summary.
pub fn ler(valor: &Json, ativo: &AssetId, agora: u64) -> (r: Result<Option<Quote>, FeedError>)
    ensures
        (match meta_de(*valor) {
            None => recusou(r, ativo.symbol@ + " veio sem «chart.result.meta»"@),
            Some(meta) => r is Ok && valor_de(r->Ok_0) == quote_da_meta(meta, ativo@, agora),
        }),
{
    match get_de(ler_resultado(valor), "meta") {
        None => {
            let mut m = ativo.symbol.clone();
            m.append(" veio sem «chart.result.meta»");
            Err(FeedError::Formato(m))
        },
        Some(meta) => Ok(ler_meta(meta, ativo, agora)),
    }
}

/// What a request about one asset comes to.
pub open spec fn retorno_do_yahoo(p: Pergunta, agora: u64) -> RetornoV<QuoteV> {
    match p.1 {
        Err(e) => RetornoV::Falhou(e@),
        Ok(v) => match meta_de(v) {
            None => RetornoV::Recusou(
                ErroV::Formato(p.0.symbol@ + " veio sem «chart.result.meta»"@),
            ),
            Some(meta) => RetornoV::Veio(no_maximo_um(quote_da_meta(meta, p.0@, agora))),
        },
    }
}

/// Reads what a request about one asset came to.
fn retorno(p: Pergunta, agora: u64) -> (r: Retorno<Quote>)
    ensures
        retorno_visto(r, da_quote()) == retorno_do_yahoo(p, agora),
{
    let (ativo, resposta) = p;
    match resposta {
        Err(e) => Retorno::Falhou(e),
        Ok(v) => match ler(&v, &ativo, agora) {
            Err(e) => Retorno::Recusou(e),
            Ok(q) => {
                let r = em_lista(q);
                assert(mostrados(r@, da_quote()) =~= no_maximo_um(valor_de(q)));
                Retorno::Veio(r)
            },
        },
    }
}

/// A round may be left at the first reply after which it does not go on: what the source answers
/// is the same, whatever the requests after it would have brought.
pub proof fn lemma_volta_interrompida(feitas: Seq<Pergunta>, resto: Seq<Pergunta>, agora: u64)
    requires
        feitas.len() > 0,
        !segue_depois(feitas.last().1),
    ensures
        feita(retornos(feitas + resto, |p: Pergunta| retorno_do_yahoo(p, agora))) == feita(
            retornos(feitas, |p: Pergunta| retorno_do_yahoo(p, agora)),
        ),
{
    let g = |p: Pergunta| retorno_do_yahoo(p, agora);
    let a = retornos(feitas, g);
    assert(a.last() == g(feitas.last()));
    assert(feita(a).parou);
    lemma_depois_do_fim(a, retornos(resto, g));
    assert(retornos(feitas + resto, g) =~= a + retornos(resto, g));
}

impl Yahoo {
    /// What the source answers after a round, given what each request asked and what came.
    pub fn quotes(&self, perguntas: Vec<Pergunta>, agora: u64) -> (r: Result<Vec<Quote>, FeedError>)
        ensures
            resposta_vista(r, da_quote()) == fechada(
                feita(retornos(perguntas@, |p: Pergunta| retorno_do_yahoo(p, agora))),
            ),
    {
        let ghost g = |p: Pergunta| retorno_do_yahoo(p, agora);
        let ghost todas = perguntas@;
        let ghost mut feitas: int = 0;
        let mut ps = perguntas;
        let mut rs: Vec<Retorno<Quote>> = Vec::new();
        let ghost f = |x: Retorno<Quote>| retorno_visto(x, da_quote());
        assert(todas.skip(0) =~= todas);
        assert(retornos(rs@, f) =~= retornos(todas.take(0), g));
        while ps.len() > 0
            invariant
                g == (|p: Pergunta| retorno_do_yahoo(p, agora)),
                f == (|x: Retorno<Quote>| retorno_visto(x, da_quote())),
                0 <= feitas <= todas.len(),
                ps@ == todas.skip(feitas),
                retornos(rs@, f) == retornos(todas.take(feitas), g),
            decreases ps@.len(),
        {
            let ghost antes = rs@;
            let p = ps.remove(0);
            let ghost q = p;
            assert(p == todas[feitas]);
            assert(ps@ =~= todas.skip(feitas + 1));
            rs.push(retorno(p, agora));
            proof {
                assert(retornos(rs@, f) =~= retornos(antes, f).push(g(q)));
                assert(retornos(todas.take(feitas + 1), g) =~= retornos(todas.take(feitas), g).push(
                    g(q),
                ));
                feitas = feitas + 1;
            }
        }
        assert(todas.take(feitas) =~= todas);
        reunir::<Quote, QuoteV>(rs, Ghost(da_quote()))
    }
}

/// The points of two lists side by side: an instant and a close for each. A close may be
/// missing on a day without trade, and is left out instead of becoming zero.
pub open spec fn pontos_alinhados(ts: Seq<Json>, cs: Seq<Json>, n: int) -> Seq<Candle>
    decreases n,
{
    if n <= 0 {
        Seq::empty()
    } else {
        let p = pontos_alinhados(ts, cs, n - 1);
        match (natural_de(Some(ts[n - 1])), dobro(Some(cs[n - 1]))) {
            (Some(em), Some(x)) => p.push(Candle { em, fechamento: x }),
            _ => p,
        }
    }
}

/// The smaller of two lengths.
pub open spec fn ate_o_menor(a: nat, b: nat) -> int {
    if a < b {
        a as int
    } else {
        b as int
    }
}

/// The instants of an answer's series.
pub open spec fn instantes_de(v: Json) -> Option<Seq<Json>> {
    itens(campo_de(resultado(v), "timestamp"@))
}

/// The closes of an answer's series.
pub open spec fn fechamentos_de(v: Json) -> Option<Seq<Json>> {
    itens(
        campo_de(
            primeiro(itens(campo_de(campo_de(resultado(v), "indicators"@), "quote"@))),
            "close"@,
        ),
    )
}

/// Reads the series of a chart.
pub fn historico(valor: &Json) -> (r: Result<Vec<Candle>, FeedError>)
    ensures
        resultado(*valor) is None ==> recusou(r, "resposta sem «chart.result»"@),
        resultado(*valor) is Some && instantes_de(*valor) is None ==> recusou(
            r,
            "série sem «timestamp»"@,
        ),
        resultado(*valor) is Some && instantes_de(*valor) is Some && fechamentos_de(*valor) is None
            ==> recusou(r, "série sem «close»"@),
        resultado(*valor) is Some && instantes_de(*valor) is Some && fechamentos_de(*valor) is Some
            ==> pontos_ou_erro(
            r,
            pontos_alinhados(
                instantes_de(*valor)->0,
                fechamentos_de(*valor)->0,
                ate_o_menor(instantes_de(*valor)->0.len(), fechamentos_de(*valor)->0.len()),
            ),
            "nenhum ponto utilizável"@,
        ),
{
    let res = ler_resultado(valor);
    if res.is_none() {
        return Err(FeedError::Formato("resposta sem «chart.result»".to_owned()));
    }
    let ts = match as_array(get_de(res, "timestamp")) {
        Some(ts) => ts,
        None => {
            return Err(FeedError::Formato("série sem «timestamp»".to_owned()));
        },
    };
    let cs = match as_array(get_de(first_of(get_de(get_de(res, "indicators"), "quote")), "close")) {
        Some(cs) => cs,
        None => {
            return Err(FeedError::Formato("série sem «close»".to_owned()));
        },
    };
    let n: usize = if ts.len() < cs.len() {
        ts.len()
    } else {
        cs.len()
    };
    let mut saida: Vec<Candle> = Vec::new();
    for i in 0..n
        invariant
            n <= ts@.len(),
            n <= cs@.len(),
            saida@ == pontos_alinhados(ts@, cs@, i as int),
    {
        match (as_natural(Some(&ts[i])), as_double(Some(&cs[i]))) {
            (Some(em), Some(x)) => {
                saida.push(Candle { em, fechamento: x });
            },
            _ => {},
        }
    }
    pontos_ou(saida, "nenhum ponto utilizável")
}

/// A quote is in the currency that the asset's market trades in: reais on the Brazilian exchange,
/// dollars on the American ones, as a price typed for the same asset would be. It is of the asset
/// that was asked about, and is never taken for live.
pub proof fn lemma_moeda_da_bolsa(meta: Json, ativo: (Market, Seq<char>), agora: u64)
    requires
        Yahoo::cobre(ativo),
        quote_da_meta(meta, ativo, agora) is Some,
    ensures
        ({
            let q = quote_da_meta(meta, ativo, agora)->0;
            &&& ativo.0 == Market::B3 ==> q.moeda == Moeda::Brl && q.moeda.codigo() == "BRL"@
            &&& ativo.0 == Market::Us ==> q.moeda == Moeda::Usd && q.moeda.codigo() == "USD"@
            &&& ativo.0.unica() == Some(q.moeda)
            &&& q.moeda == moeda_do_ativo(ativo)
            &&& q.ativo == ativo
            &&& q.fonte == Provedor::Yahoo.chave()
            &&& q.grade == Grade::NaoOficial
        }),
{
}

/// Two assets with one price at one source are told apart by their markets alone: only the
/// currency and the asset differ.
pub proof fn lemma_duas_bolsas(meta: Json, simbolo: Seq<char>, agora: u64)
    ensures
        ({
            let b = quote_da_meta(meta, (Market::B3, simbolo), agora);
            let u = quote_da_meta(meta, (Market::Us, simbolo), agora);
            &&& b is Some <==> u is Some
            &&& b is Some ==> b->0 == (QuoteV {
                moeda: Moeda::Brl,
                ativo: (Market::B3, simbolo),
                ..u->0
            }) && u->0.moeda == Moeda::Usd
        }),
{
}

/// There is a quote exactly where there is a price, and each number is the one under its name.
/// The stamp is the source's, unless that is a week old or more.
pub proof fn lemma_numeros_da_meta(meta: Json, ativo: (Market, Seq<char>), agora: u64)
    ensures
        quote_da_meta(meta, ativo, agora) is Some <==> dobro(campo(meta, "regularMarketPrice"@)) is Some,
        quote_da_meta(meta, ativo, agora) is Some ==> ({
            let q = quote_da_meta(meta, ativo, agora)->0;
            &&& dobro(campo(meta, "regularMarketPrice"@)) == Some(q.preco)
            &&& dobro(campo(meta, "regularMarketDayHigh"@)) == q.max24
            &&& dobro(campo(meta, "regularMarketDayLow"@)) == q.min24
            &&& dobro(campo(meta, "regularMarketVolume"@)) == q.volume
            &&& campo(meta, "chartPreviousClose"@) is Some ==> q.anterior == dobro(
                campo(meta, "chartPreviousClose"@),
            )
            &&& campo(meta, "chartPreviousClose"@) is None ==> q.anterior == dobro(
                campo(meta, "previousClose"@),
            )
            &&& agora < q.em + 7 * 24 * 60 * 60
            &&& q.em == agora || natural_de(campo(meta, "regularMarketTime"@)) == Some(q.em)
            &&& forall|t: u64|
                natural_de(campo(meta, "regularMarketTime"@)) == Some(t) && agora < t + 7 * 24 * 60
                    * 60 ==> q.em == t
        }),
{
}

/// The name of a Brazilian share is its symbol and the suffix, and that of an American one is its
/// symbol: what stands before the suffix is always the symbol.
pub proof fn lemma_nome_no_yahoo(simbolo: Seq<char>)
    ensures
        nome_no_yahoo((Market::Us, simbolo)) == simbolo,
        nome_no_yahoo((Market::B3, simbolo)) == simbolo + seq!['.', 'S', 'A'],
        nome_no_yahoo((Market::B3, simbolo)) != nome_no_yahoo((Market::Us, simbolo)),
{
    reveal_strlit(".SA");
    assert(".SA"@ =~= seq!['.', 'S', 'A']);
    assert(nome_no_yahoo((Market::B3, simbolo)).len() == simbolo.len() + 3);
}

/// Where the points of a series come from: instant and close of one place, places in the order
/// they stand in, and every place that has both is there.
pub proof fn lemma_pontos_alinhados(ts: Seq<Json>, cs: Seq<Json>, n: int) -> (ks: Seq<int>)
    requires
        0 <= n <= ts.len(),
        n <= cs.len(),
    ensures
        ks.len() == pontos_alinhados(ts, cs, n).len(),
        forall|i: int|
            0 <= i < ks.len() ==> 0 <= #[trigger] ks[i] < n && natural_de(Some(ts[ks[i]])) == Some(
                pontos_alinhados(ts, cs, n)[i].em,
            ) && dobro(Some(cs[ks[i]])) == Some(pontos_alinhados(ts, cs, n)[i].fechamento),
        forall|i: int, j: int| 0 <= i < j < ks.len() ==> #[trigger] ks[i] < #[trigger] ks[j],
        forall|k: int|
            0 <= k < n && natural_de(Some(#[trigger] ts[k])) is Some && dobro(Some(cs[k])) is Some
                ==> ks.contains(k),
    decreases n,
{
    if n <= 0 {
        Seq::empty()
    } else {
        let a = lemma_pontos_alinhados(ts, cs, n - 1);
        if natural_de(Some(ts[n - 1])) is Some && dobro(Some(cs[n - 1])) is Some {
            let ks = a.push(n - 1);
            assert forall|k: int|
                0 <= k < n && natural_de(Some(#[trigger] ts[k])) is Some && dobro(
                    Some(cs[k]),
                ) is Some implies ks.contains(k) by {
                if k < n - 1 {
                    let i = choose|i: int| 0 <= i < a.len() && a[i] == k;
                    assert(ks[i] == k);
                } else {
                    assert(ks[ks.len() - 1] == k);
                }
            }
            ks
        } else {
            a
        }
    }
}

} // verus!
