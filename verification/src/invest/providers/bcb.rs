//! Brazilian fixed income, from the Central Bank's series.
//!
//! A wrong series code would give a plausible number of something else, and nothing on the
//! screen would tell. Each entry of the catalogue says what its number means.

use vstd::prelude::*;
use crate::number::{dec, decimal};
use crate::pick::picked;
use crate::text::{is_without, lemma_join_and_cut, pieces, same, split, views, Cut};
use crate::invest::json::{as_array, as_str, as_written, campo, itens, letras, numero_escrito, Json};
use crate::invest::model::{AssetId, ErroV, FeedError, Market, Moeda};
use crate::invest::provider::{Candle, Grade, Quote, QuoteV, Span};
use crate::invest::providers::Provedor;
use crate::invest::providers::comum::{
    cotacao_da_serie, cotar_serie, da_quote, em_lista, fechada, feita, mostrados, no_maximo_um,
    pontos_ou, pontos_ou_erro, recusou, resposta_vista, retorno_visto, retornos, reunir, valor_de,
    Pergunta, Retorno, RetornoV,
};
use crate::invest::tempo::{
    cabe, data_em, dia_de, dias, dias_de, i32_lido, lemma_joined_three, ler_i32, ler_u32, u32_lido,
    BRT_OFFSET, Data,
};

verus! {

/// A series of the catalogue.
#[derive(Clone, Copy)]
pub struct Serie {
    /// The symbol by which this crate asks for it.
    pub simbolo: &'static str,
    /// Its code at the Central Bank.
    pub codigo: u32,
    pub nome: &'static str,
    /// Daily rates, which accumulate by product and not by sum.
    pub diaria: bool,
}

/// The symbols of the catalogue.
pub const SERIES: [&'static str; 8] = [
    "CDI",
    "SELIC-META",
    "SELIC",
    "SELIC-DIA",
    "IPCA",
    "IPCA12",
    "IGPM",
    "POUPANCA",
];

/// What the catalogue says of a symbol: the code at the Central Bank, the name, and whether
/// it is a daily rate.
pub open spec fn catalogo(simbolo: Seq<char>) -> Option<(int, Seq<char>, bool)> {
    if simbolo == "CDI"@ {
        // Daily rate, in percent.
        Some((12, "CDI"@, true))
    } else if simbolo == "SELIC-META"@ {
        // The target that the monetary committee sets.
        Some((432, "Selic (meta)"@, false))
    } else if simbolo == "SELIC"@ {
        // What the market practised, a year on 252 days: some tenths below the target.
        Some((4389, "Selic (efetiva a.a.)"@, false))
    } else if simbolo == "SELIC-DIA"@ {
        // The same, a day.
        Some((11, "Selic (diária)"@, true))
    } else if simbolo == "IPCA"@ {
        // Monthly change, in percent.
        Some((433, "IPCA (mensal)"@, false))
    } else if simbolo == "IPCA12"@ {
        // Twelve months, which is the number people quote.
        Some((13522, "IPCA (12 meses)"@, false))
    } else if simbolo == "IGPM"@ {
        Some((189, "IGP-M (mensal)"@, false))
    } else if simbolo == "POUPANCA"@ {
        Some((195, "Poupança (mensal)"@, false))
    } else {
        None
    }
}

/// What the catalogue says of a series.
pub open spec fn descrita(s: Serie, simbolo: Seq<char>) -> bool {
    s.simbolo@ == simbolo && catalogo(simbolo) == Some((s.codigo as int, s.nome@, s.diaria))
}

/// An entry of the catalogue.
fn entrada(simbolo: &'static str, codigo: u32, nome: &'static str, diaria: bool) -> (r: Option<Serie>)
    ensures
        r is Some,
        r->0.simbolo@ == simbolo@,
        r->0.codigo == codigo,
        r->0.nome@ == nome@,
        r->0.diaria == diaria,
{
    Some(Serie { simbolo, codigo, nome, diaria })
}

/// The entry of the catalogue with a symbol.
pub fn serie(simbolo: &str) -> (r: Option<Serie>)
    ensures
        (match r {
            Some(s) => descrita(s, simbolo@),
            None => catalogo(simbolo@) is None,
        }),
{
    if same(simbolo, "CDI") {
        entrada("CDI", 12, "CDI", true)
    } else if same(simbolo, "SELIC-META") {
        entrada("SELIC-META", 432, "Selic (meta)", false)
    } else if same(simbolo, "SELIC") {
        entrada("SELIC", 4389, "Selic (efetiva a.a.)", false)
    } else if same(simbolo, "SELIC-DIA") {
        entrada("SELIC-DIA", 11, "Selic (diária)", true)
    } else if same(simbolo, "IPCA") {
        entrada("IPCA", 433, "IPCA (mensal)", false)
    } else if same(simbolo, "IPCA12") {
        entrada("IPCA12", 13522, "IPCA (12 meses)", false)
    } else if same(simbolo, "IGPM") {
        entrada("IGPM", 189, "IGP-M (mensal)", false)
    } else if same(simbolo, "POUPANCA") {
        entrada("POUPANCA", 195, "Poupança (mensal)", false)
    } else {
        None
    }
}

/// Every symbol of the list is in the catalogue, and no two symbols have the same code: a
/// code under two names would show one number as two things.
pub proof fn lemma_catalogo(a: Seq<char>, b: Seq<char>)
    ensures
        forall|i: int| 0 <= i < 8 ==> catalogo(#[trigger] SERIES[i]@) is Some,
        codigo_de(a) is Some && codigo_de(a) == codigo_de(b) ==> a == b,
{
}

/// The code of a symbol at the Central Bank.
pub open spec fn codigo_de(simbolo: Seq<char>) -> Option<int> {
    match catalogo(simbolo) {
        Some((codigo, nome, diaria)) => Some(codigo),
        None => None,
    }
}

/// The Central Bank.
pub struct Bcb;

impl Bcb {
    /// The series that this source answers for.
    pub open spec fn cobre(a: (Market, Seq<char>)) -> bool {
        a.0 == Market::Bcb && catalogo(a.1) is Some
    }

    /// Whether this source answers for an asset. A made-up series is not covered: better no
    /// answer than the answer to something else.
    pub fn covers(&self, ativo: &AssetId) -> (r: bool)
        ensures
            r == Bcb::cobre(ativo@),
    {
        ativo.market == Market::Bcb && serie(ativo.symbol.as_str()).is_some()
    }
}

/// The instant at which the day that `dia/mes/ano` writes begins in Brasília.
pub open spec fn data_brasileira(s: Seq<char>) -> Option<int> {
    let p = pieces(s, Cut::At('/'));
    if p.len() < 3 {
        None
    } else {
        match (u32_lido(p[0]), u32_lido(p[1]), i32_lido(p[2])) {
            (Some(d), Some(m), Some(a)) => {
                let t = dias(a, m as int, d as int) * 86400 - BRT_OFFSET;
                Some(if t > 0 {
                    t
                } else {
                    0
                })
            },
            _ => None,
        }
    }
}

/// Reads a Brazilian date.
pub fn data_br(texto: &str) -> (r: Option<u64>)
    ensures
        crate::invest::tempo::instante_em(r) == data_brasileira(texto@),
{
    let p = split(texto, Cut::At('/'));
    assert(views(p@).len() == p@.len());
    if p.len() < 3 {
        return None;
    }
    assert(views(p@)[0] == p@[0]@ && views(p@)[1] == p@[1]@ && views(p@)[2] == p@[2]@);
    match (ler_u32(p[0].as_str()), ler_u32(p[1].as_str()), ler_i32(p[2].as_str())) {
        (Some(dia), Some(mes), Some(ano)) => {
            let n = dias_de(ano, mes, dia);
            let d = Data { ano, mes, dia };
            assert(d.n() == n);
            Some(d.epoch_inicio(BRT_OFFSET))
        },
        _ => None,
    }
}

/// How many last points the short address serves; above it the address by dates is used.
pub const MAX_ULTIMOS: u32 = 20;

/// Where a window of trading days begins: half as many calendar days again, as sessions are
/// some seven tenths of the calendar.
pub open spec fn inicio_da_janela(hoje: u64, quantos: u32) -> u64 {
    let d = quantos as int * 86400 * 3 / 2;
    if hoje > d {
        (hoje - d) as u64
    } else {
        0
    }
}

/// A date as the address takes it: `04/09/2026`.
pub open spec fn data_na_url(n: int) -> Seq<char> {
    data_em(n).texto_longo()
}

/// The address of the last points of a series.
pub open spec fn endereco(codigo: u32, quantos: u32, hoje: u64) -> Seq<char> {
    let base = "https://api.bcb.gov.br/dados/serie/bcdata.sgs."@ + decimal(codigo as nat);
    if quantos <= MAX_ULTIMOS {
        base + "/dados/ultimos/"@ + decimal(quantos as nat) + "?formato=json"@
    } else {
        base + "/dados?formato=json&dataInicial="@ + data_na_url(
            dia_de(inicio_da_janela(hoje, quantos), BRT_OFFSET),
        ) + "&dataFinal="@ + data_na_url(dia_de(hoje, BRT_OFFSET))
    }
}

/// The address that serves the last points of a series. The short one is refused above
/// twenty points; the one by dates has no such ceiling.
pub fn url_da_serie(codigo: u32, quantos: u32, hoje: u64) -> (r: String)
    requires
        cabe(hoje, BRT_OFFSET),
        cabe(inicio_da_janela(hoje, quantos), BRT_OFFSET),
    ensures
        r@ == endereco(codigo, quantos, hoje),
{
    let mut r = "https://api.bcb.gov.br/dados/serie/bcdata.sgs.".to_owned();
    r.append(dec(codigo as u64).as_str());
    if quantos <= MAX_ULTIMOS {
        r.append("/dados/ultimos/");
        r.append(dec(quantos as u64).as_str());
        r.append("?formato=json");
        return r;
    }
    let recuo: u64 = (quantos as u64) * 86400 * 3 / 2;
    let inicio = Data::de_epoch(hoje.saturating_sub(recuo), BRT_OFFSET);
    let fim = Data::de_epoch(hoje, BRT_OFFSET);
    r.append("/dados?formato=json&dataInicial=");
    r.append(inicio.longa().as_str());
    r.append("&dataFinal=");
    r.append(fim.longa().as_str());
    r
}

/// The point that an observation gives, when both of its fields can be read.
pub open spec fn ponto_de(v: Json) -> Option<Candle> {
    match (letras(campo(v, "data"@)), numero_escrito(campo(v, "valor"@))) {
        (Some(d), Some(x)) => match data_brasileira(d) {
            Some(em) => Some(Candle { em: em as u64, fechamento: x }),
            None => None,
        },
        _ => None,
    }
}

/// The points of a list of observations, those that cannot be read left out.
pub open spec fn pontos_de(vs: Seq<Json>) -> Seq<Candle>
    decreases vs.len(),
{
    if vs.len() == 0 {
        Seq::empty()
    } else {
        match ponto_de(vs.last()) {
            Some(c) => pontos_de(vs.drop_last()).push(c),
            None => pontos_de(vs.drop_last()),
        }
    }
}

/// Reads one observation.
fn ler_ponto(v: &Json) -> (r: Option<Candle>)
    ensures
        r == ponto_de(*v),
{
    match (as_str(v.get("data")), as_written(v.get("valor"))) {
        (Some(d), Some(x)) => match data_br(d) {
            Some(em) => Some(Candle { em, fechamento: x }),
            None => None,
        },
        _ => None,
    }
}

/// Reads a series: the points of a list of observations, or an error when it is no list or
/// none can be used.
pub fn pontos_publicos(valor: &Json) -> (r: Result<Vec<Candle>, FeedError>)
    ensures
        (match itens(Some(*valor)) {
            None => recusou(r, "esperava uma lista de observações"@),
            Some(vs) => pontos_ou_erro(r, pontos_de(vs), "nenhuma observação utilizável"@),
        }),
{
    let linhas = match as_array(Some(valor)) {
        Some(xs) => xs,
        None => {
            return Err(FeedError::Formato("esperava uma lista de observações".to_owned()));
        },
    };
    let mut saida: Vec<Candle> = Vec::new();
    assert(linhas@.take(0) =~= Seq::empty());
    for i in 0..linhas.len()
        invariant
            saida@ == pontos_de(linhas@.take(i as int)),
    {
        assert(linhas@.take(i + 1).drop_last() =~= linhas@.take(i as int));
        match ler_ponto(&linhas[i]) {
            Some(c) => saida.push(c),
            None => {},
        }
    }
    assert(linhas@.take(linhas@.len() as int) =~= linhas@);
    pontos_ou(saida, "nenhuma observação utilizável")
}

/// How many points a stretch of history takes: one a day for a daily series, one a month
/// for the others.
pub open spec fn pontos_no_periodo(diaria: bool, span: Span) -> int {
    if diaria {
        span.tamanho()
    } else if span.tamanho() / 30 < 2 {
        2
    } else {
        span.tamanho() / 30
    }
}

/// How many points to ask for.
pub fn quantos_pontos(diaria: bool, span: Span) -> (r: u32)
    ensures
        r == pontos_no_periodo(diaria, span),
        r <= 2000,
        !diaria ==> 2 <= r <= 120,
{
    let dias = span.dias();
    if diaria {
        dias
    } else if dias / 30 < 2 {
        2
    } else {
        dias / 30
    }
}

/// What a request for the last points of a series comes to. A series that fails does not bring
/// down the others.
pub open spec fn retorno_da_serie(p: Pergunta) -> RetornoV<QuoteV> {
    if catalogo(p.0.symbol@) is None {
        RetornoV::Veio(Seq::empty())
    } else {
        match p.1 {
            Err(e) => RetornoV::Recusou(e@),
            Ok(v) => match itens(Some(v)) {
                None => RetornoV::Recusou(ErroV::Formato("esperava uma lista de observações"@)),
                Some(vs) => if pontos_de(vs).len() == 0 {
                    RetornoV::Recusou(ErroV::Formato("nenhuma observação utilizável"@))
                } else {
                    RetornoV::Veio(
                        no_maximo_um(
                            cotacao_da_serie(p.0@, pontos_de(vs), "bcb"@, Moeda::Brl),
                        ),
                    )
                },
            },
        }
    }
}

/// Reads what a request for the last points of a series came to.
fn retorno(p: Pergunta) -> (r: Retorno<Quote>)
    ensures
        retorno_visto(r, da_quote()) == retorno_da_serie(p),
{
    let (ativo, resposta) = p;
    if serie(ativo.symbol.as_str()).is_none() {
        let nada: Vec<Quote> = Vec::new();
        assert(mostrados(nada@, da_quote()) =~= Seq::<QuoteV>::empty());
        return Retorno::Veio(nada);
    }
    match resposta {
        Err(e) => Retorno::Recusou(e),
        Ok(v) => match pontos_publicos(&v) {
            Err(e) => Retorno::Recusou(e),
            Ok(pontos) => {
                let q = cotar_serie(&ativo, pontos.as_slice(), "bcb", Moeda::Brl);
                let r = em_lista(q);
                assert(mostrados(r@, da_quote()) =~= no_maximo_um(valor_de(q)));
                Retorno::Veio(r)
            },
        },
    }
}

impl Bcb {
    /// What the source answers after a round, given what each request asked and what came.
    pub fn quotes(&self, perguntas: Vec<Pergunta>) -> (r: Result<Vec<Quote>, FeedError>)
        ensures
            resposta_vista(r, da_quote()) == fechada(
                feita(retornos(perguntas@, |p: Pergunta| retorno_da_serie(p))),
            ),
    {
        let ghost g = |p: Pergunta| retorno_da_serie(p);
        let ghost todas = perguntas@;
        let ghost mut feitas: int = 0;
        let mut ps = perguntas;
        let mut rs: Vec<Retorno<Quote>> = Vec::new();
        let ghost f = |x: Retorno<Quote>| retorno_visto(x, da_quote());
        assert(todas.skip(0) =~= todas);
        assert(retornos(rs@, f) =~= retornos(todas.take(0), g));
        while ps.len() > 0
            invariant
                g == (|p: Pergunta| retorno_da_serie(p)),
                f == (|x: Retorno<Quote>| retorno_visto(x, da_quote())),
                0 <= feitas <= todas.len(),
                ps@ == todas.skip(feitas),
                retornos(rs@, f) == retornos(todas.take(feitas), g),
            decreases ps@.len(),
        {
            let ghost antes = rs@;
            let p = ps.remove(0);
            let ghost q = p;
            assert(p == todas[feitas]);
            assert(ps@ =~= todas.skip(feitas + 1));
            rs.push(retorno(p));
            proof {
                assert(retornos(rs@, f) =~= retornos(antes, f).push(g(q)));
                assert(retornos(todas.take(feitas + 1), g) =~= retornos(todas.take(feitas), g).push(
                    g(q),
                ));
                feitas = feitas + 1;
            }
        }
        assert(todas.take(feitas) =~= todas);
        reunir::<Quote, QuoteV>(rs, Ghost(da_quote()))
    }
}

/// Three numbers with a slash between them are a day, a month and a year, in that order; the
/// instant is the first of that day on the clock of the country.
pub proof fn lemma_data_brasileira(d: Seq<char>, m: Seq<char>, a: Seq<char>)
    requires
        is_without(d, '/'),
        is_without(m, '/'),
        is_without(a, '/'),
        u32_lido(d) is Some,
        u32_lido(m) is Some,
        i32_lido(a) is Some,
        0 <= dias(i32_lido(a)->0, u32_lido(m)->0 as int, u32_lido(d)->0 as int),
    ensures
        ({
            let n = dias(i32_lido(a)->0, u32_lido(m)->0 as int, u32_lido(d)->0 as int);
            let t = data_brasileira(d + seq!['/'] + m + seq!['/'] + a);
            t is Some && t->0 + BRT_OFFSET == n * 86400
        }),
        BRT_OFFSET == -3 * 60 * 60,
{
    lemma_join_and_cut(seq![d, m, a], '/');
    lemma_joined_three(d, m, a, '/');
}

/// The points of a list: what each item that can be read gives, in the order of the items.
pub proof fn lemma_pontos_de(vs: Seq<Json>)
    ensures
        pontos_de(vs) == picked(vs, |v: Json| ponto_de(v)),
    decreases vs.len(),
{
    if vs.len() > 0 {
        lemma_pontos_de(vs.drop_last());
    }
}

/// The window asked for starts so many days and half as many again before today.
pub proof fn lemma_janela(hoje: u64, quantos: u32)
    requires
        quantos * 129600 <= hoje,
    ensures
        inicio_da_janela(hoje, quantos) + quantos * 129600 == hoje,
{
}

/// A quote of a series is in reais, with the value of its newest observation, and the one before
/// it as the previous.
pub proof fn lemma_quote_da_serie(p: Pergunta)
    requires
        catalogo(p.0.symbol@) is Some,
        p.1 is Ok,
        itens(Some(p.1->Ok_0)) is Some,
        pontos_de(itens(Some(p.1->Ok_0))->0).len() > 1,
    ensures
        (match retorno_da_serie(p) {
            RetornoV::Veio(qs) => {
                let pts = pontos_de(itens(Some(p.1->Ok_0))->0);
                &&& qs.len() == 1
                &&& qs[0].ativo == p.0@
                &&& qs[0].moeda == Moeda::Brl
                &&& qs[0].fonte == Provedor::Bcb.chave()
                &&& qs[0].grade == Grade::Fechamento
                &&& qs[0].preco == pts[pts.len() - 1].fechamento
                &&& qs[0].em == pts[pts.len() - 1].em
                &&& qs[0].anterior == Some(pts[pts.len() - 2].fechamento)
            },
            _ => false,
        }),
{
}

} // verus!
