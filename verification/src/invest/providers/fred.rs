//! American interest rates, from the Federal Reserve of St. Louis.

use vstd::prelude::*;
use crate::number::{dec, decimal, zero_fill, zero_filled};
use crate::pick::{lemma_pick, lemma_pick_ends, picked};
use crate::text::{cut_once, lines, same, split_lines, split_once, trim, trimmed, views, Cut};
use crate::invest::model::{AssetId, FeedError, Market, Moeda};
use crate::invest::provider::{Candle, Grade, Quote, QuoteV};
use crate::invest::providers::Provedor;
use crate::invest::providers::comum::{
    cotacao_da_serie, cotar_serie, da_quote, em_lista, fechada, feita, mostrados, no_maximo_um,
    pontos_ou, pontos_ou_erro, resposta_vista, retorno_visto, retornos, reunir, valor_de, Retorno,
    RetornoV,
};
use crate::invest::tempo::{
    cabe, data_em, dia_de, dois, dois_digitos, em_segundos, epoch_de_iso, iso, BRT_OFFSET, Data,
};

verus! {

/// A series of the catalogue.
#[derive(Clone, Copy)]
pub struct Serie {
    /// The symbol by which this crate asks for it.
    pub simbolo: &'static str,
    /// Its name in the source's catalogue.
    pub id: &'static str,
}

/// The symbols of the catalogue.
pub const SERIES: [&'static str; 2] = ["FEDFUNDS", "UST2Y"];

/// The name of a symbol in the source's catalogue.
pub open spec fn catalogo(simbolo: Seq<char>) -> Option<Seq<char>> {
    if simbolo == "FEDFUNDS"@ {
        // The effective rate of the federal funds, daily.
        Some("DFF"@)
    } else if simbolo == "UST2Y"@ {
        // The two-year Treasury at constant maturity, daily, in percent a year.
        Some("DGS2"@)
    } else {
        None
    }
}

/// The entry of the catalogue with a symbol.
pub fn serie(simbolo: &str) -> (r: Option<Serie>)
    ensures
        (match r {
            Some(s) => s.simbolo@ == simbolo@ && catalogo(simbolo@) == Some(s.id@),
            None => catalogo(simbolo@) is None,
        }),
{
    if same(simbolo, "FEDFUNDS") {
        Some(Serie { simbolo: "FEDFUNDS", id: "DFF" })
    } else if same(simbolo, "UST2Y") {
        Some(Serie { simbolo: "UST2Y", id: "DGS2" })
    } else {
        None
    }
}

/// Every symbol of the list is in the catalogue, and no two have the same name there.
pub proof fn lemma_catalogo(a: Seq<char>, b: Seq<char>)
    ensures
        forall|i: int| 0 <= i < 2 ==> catalogo(#[trigger] SERIES[i]@) is Some,
        catalogo(a) is Some && catalogo(a) == catalogo(b) ==> a == b,
{
    reveal_strlit("DFF");
    reveal_strlit("DGS2");
    assert("DFF"@.len() != "DGS2"@.len());
}

/// The Federal Reserve of St. Louis.
pub struct Fred;

impl Fred {
    /// The series that this source answers for.
    pub open spec fn cobre(a: (Market, Seq<char>)) -> bool {
        a.0 == Market::Outro && catalogo(a.1) is Some
    }

    /// Whether this source answers for an asset.
    pub fn covers(&self, ativo: &AssetId) -> (r: bool)
        ensures
            r == Fred::cobre(ativo@),
    {
        ativo.market == Market::Outro && serie(ativo.symbol.as_str()).is_some()
    }
}

/// A year in at least four characters, a minus sign counted among them.
pub open spec fn quatro(ano: int) -> Seq<char> {
    if ano < 0 {
        seq!['-'] + zero_filled(decimal((-ano) as nat), 3)
    } else {
        zero_filled(decimal(ano as nat), 4)
    }
}

/// Writes a year in at least four characters.
fn quatro_digitos(ano: i32) -> (r: String)
    ensures
        r@ == quatro(ano as int),
{
    if ano < 0 {
        let d = dec((-(ano as i64)) as u64);
        let z = zero_fill(d.as_str(), 3);
        let mut r = String::new();
        r.push('-');
        r.append(z.as_str());
        assert(r@ =~= seq!['-'] + z@);
        r
    } else {
        let d = dec(ano as u64);
        zero_fill(d.as_str(), 4)
    }
}

/// A date as the address takes it: year, month and day with hyphens.
pub open spec fn data_na_url(d: Data) -> Seq<char> {
    quatro(d.ano as int) + "-"@ + dois(d.mes as nat) + "-"@ + dois(
        d.dia as nat,
    )
}

/// An instant some days before another; the epoch when that is earlier still.
pub open spec fn dias_antes(agora: u64, dias: u32) -> u64 {
    if agora > dias * 86400 {
        (agora - dias * 86400) as u64
    } else {
        0
    }
}

/// The date some days before an instant, as the address takes it.
pub fn janela(agora: u64, dias: u32) -> (r: String)
    requires
        cabe(dias_antes(agora, dias), BRT_OFFSET),
    ensures
        r@ == data_na_url(data_em(dia_de(dias_antes(agora, dias), BRT_OFFSET))),
{
    let d = Data::de_epoch(agora.saturating_sub((dias as u64) * 86400), BRT_OFFSET);
    let mut r = quatro_digitos(d.ano);
    r.append("-");
    r.append(dois_digitos(d.mes as u64).as_str());
    r.append("-");
    r.append(dois_digitos(d.dia as u64).as_str());
    r
}

/// The address of a series from a date on.
pub fn url_da_serie(id: &str, desde: Option<&str>) -> (r: String)
    ensures
        r@ == "https://fred.stlouisfed.org/graph/fredgraph.csv?id="@ + id@ + (match desde {
            Some(d) => "&cosd="@ + d@,
            None => Seq::<char>::empty(),
        }),
{
    let mut r = "https://fred.stlouisfed.org/graph/fredgraph.csv?id=".to_owned();
    r.append(id);
    match desde {
        Some(d) => {
            r.append("&cosd=");
            r.append(d);
            assert(r@ =~= "https://fred.stlouisfed.org/graph/fredgraph.csv?id="@ + id@ + (
            "&cosd="@ + d@));
        },
        None => {
            assert(r@ =~= "https://fred.stlouisfed.org/graph/fredgraph.csv?id="@ + id@
                + Seq::<char>::empty());
        },
    }
    r
}

/// An observation whose number is still to be read.
pub struct Observacao {
    pub em: u64,
    pub bruto: String,
}

/// The observation that a line gives: a date and a text, with a comma between.
pub open spec fn observacao_de(linha: Seq<char>) -> Option<(int, Seq<char>)> {
    match cut_once(linha, Cut::At(',')) {
        None => None,
        Some((d, x)) => match em_segundos(iso(trimmed(d))) {
            Some(em) => Some((em, trimmed(x))),
            None => None,
        },
    }
}

/// An observation by the values it holds.
pub open spec fn lida(o: Observacao) -> (int, Seq<char>) {
    (o.em as int, o.bruto@)
}

/// Observations by the values they hold.
pub open spec fn lidas(v: Seq<Observacao>) -> Seq<(int, Seq<char>)> {
    Seq::new(v.len(), |i: int| lida(v[i]))
}

/// Reads the lines of the table after its heading, those whose date cannot be read left out.
pub fn ler(texto: &str) -> (r: Vec<Observacao>)
    ensures
        lidas(r@) == picked(
            if lines(texto@).len() > 0 {
                lines(texto@).skip(1)
            } else {
                lines(texto@)
            },
            |l: Seq<char>| observacao_de(l),
        ),
{
    let linhas = split_lines(texto);
    let ghost todas = views(linhas@);
    let ghost uteis = if todas.len() > 0 {
        todas.skip(1)
    } else {
        todas
    };
    let ghost f = |l: Seq<char>| observacao_de(l);
    let mut saida: Vec<Observacao> = Vec::new();
    if linhas.len() == 0 {
        assert(lidas(saida@) =~= picked(uteis, f));
        return saida;
    }
    proof {
        lemma_pick_ends(uteis, f);
        assert(lidas(saida@) =~= picked(uteis.take(0), f));
    }
    for i in 1..linhas.len()
        invariant
            todas == views(linhas@),
            uteis == todas.skip(1),
            todas.len() > 0,
            f == (|l: Seq<char>| observacao_de(l)),
            lidas(saida@) == picked(uteis.take(i - 1), f),
    {
        proof {
            assert(uteis[i - 1] == linhas@[i as int]@);
            lemma_pick(uteis, f, i - 1);
        }
        match split_once(linhas[i].as_str(), ',') {
            Some((d, x)) => {
                let d = trim(d.as_str());
                match epoch_de_iso(d.as_str()) {
                    Some(em) => {
                        let ghost antes = saida@;
                        let bruto = trim(x.as_str());
                        let ghost v = (em as int, bruto@);
                        saida.push(Observacao { em, bruto });
                        assert(lidas(saida@) =~= lidas(antes).push(v));
                    },
                    None => {},
                }
            },
            None => {},
        }
    }
    saida
}

/// The points of observations whose numbers have been read; one without a number, as on a
/// holiday, is left out and not read as zero.
pub open spec fn pontos_com(obs: Seq<(int, Seq<char>)>, valores: Seq<Option<u64>>) -> Seq<Candle>
    decreases obs.len(),
{
    if obs.len() == 0 {
        Seq::empty()
    } else {
        let p = pontos_com(obs.drop_last(), valores);
        match valores[obs.len() - 1] {
            Some(v) => p.push(Candle { em: obs.last().0 as u64, fechamento: v }),
            None => p,
        }
    }
}

/// Puts the observations and their numbers together.
pub fn pontos(obs: &[Observacao], valores: &[Option<u64>]) -> (r: Result<Vec<Candle>, FeedError>)
    requires
        obs@.len() == valores@.len(),
    ensures
        pontos_ou_erro(
            r,
            pontos_com(lidas(obs@), valores@),
            "nenhuma observação utilizável"@,
        ),
{
    let mut saida: Vec<Candle> = Vec::new();
    let ghost todas = lidas(obs@);
    assert(todas.take(0) =~= Seq::empty());
    for i in 0..obs.len()
        invariant
            obs@.len() == valores@.len(),
            todas == lidas(obs@),
            saida@ == pontos_com(todas.take(i as int), valores@),
    {
        assert(todas.take(i + 1).drop_last() =~= todas.take(i as int));
        match valores[i] {
            Some(v) => {
                saida.push(Candle { em: obs[i].em, fechamento: v });
            },
            None => {},
        }
    }
    assert(todas.take(todas.len() as int) =~= todas);
    pontos_ou(saida, "nenhuma observação utilizável")
}

/// A request: the asset that it asked about, and the points that came.
pub type Observada = (AssetId, Result<Vec<Candle>, FeedError>);

/// What a request for the last points of a series comes to. A series that fails does not bring
/// down the others.
pub open spec fn retorno_da_serie(p: Observada) -> RetornoV<QuoteV> {
    if catalogo(p.0.symbol@) is None {
        RetornoV::Veio(Seq::empty())
    } else {
        match p.1 {
            Err(e) => RetornoV::Recusou(e@),
            Ok(v) => RetornoV::Veio(
                no_maximo_um(cotacao_da_serie(p.0@, v@, "fred"@, Moeda::Usd)),
            ),
        }
    }
}

/// Reads what a request for the last points of a series came to.
fn retorno(p: Observada) -> (r: Retorno<Quote>)
    ensures
        retorno_visto(r, da_quote()) == retorno_da_serie(p),
{
    let (ativo, resposta) = p;
    if serie(ativo.symbol.as_str()).is_none() {
        let nada: Vec<Quote> = Vec::new();
        assert(mostrados(nada@, da_quote()) =~= Seq::<QuoteV>::empty());
        return Retorno::Veio(nada);
    }
    match resposta {
        Err(e) => Retorno::Recusou(e),
        Ok(pontos) => {
            let q = cotar_serie(&ativo, pontos.as_slice(), "fred", Moeda::Usd);
            let r = em_lista(q);
            assert(mostrados(r@, da_quote()) =~= no_maximo_um(valor_de(q)));
            Retorno::Veio(r)
        },
    }
}

impl Fred {
    /// What the source answers after a round, given what each request asked and what came.
    pub fn quotes(&self, perguntas: Vec<Observada>) -> (r: Result<Vec<Quote>, FeedError>)
        ensures
            resposta_vista(r, da_quote()) == fechada(
                feita(retornos(perguntas@, |p: Observada| retorno_da_serie(p))),
            ),
    {
        let ghost g = |p: Observada| retorno_da_serie(p);
        let ghost todas = perguntas@;
        let ghost mut feitas: int = 0;
        let mut ps = perguntas;
        let mut rs: Vec<Retorno<Quote>> = Vec::new();
        let ghost f = |x: Retorno<Quote>| retorno_visto(x, da_quote());
        assert(todas.skip(0) =~= todas);
        assert(retornos(rs@, f) =~= retornos(todas.take(0), g));
        while ps.len() > 0
            invariant
                g == (|p: Observada| retorno_da_serie(p)),
                f == (|x: Retorno<Quote>| retorno_visto(x, da_quote())),
                0 <= feitas <= todas.len(),
                ps@ == todas.skip(feitas),
                retornos(rs@, f) == retornos(todas.take(feitas), g),
            decreases ps@.len(),
        {
            let ghost antes = rs@;
            let p = ps.remove(0);
            let ghost q = p;
            assert(p == todas[feitas]);
            assert(ps@ =~= todas.skip(feitas + 1));
            rs.push(retorno(p));
            proof {
                assert(retornos(rs@, f) =~= retornos(antes, f).push(g(q)));
                assert(retornos(todas.take(feitas + 1), g) =~= retornos(todas.take(feitas), g).push(
                    g(q),
                ));
                feitas = feitas + 1;
            }
        }
        assert(todas.take(feitas) =~= todas);
        reunir::<Quote, QuoteV>(rs, Ghost(da_quote()))
    }
}

/// The points of a body: instant and value of one line each, lines in the order they stand in,
/// and every line with a value is there.
pub proof fn lemma_pontos_com(obs: Seq<(int, Seq<char>)>, valores: Seq<Option<u64>>) -> (ks: Seq<
    int,
>)
    requires
        obs.len() <= valores.len(),
    ensures
        ks.len() == pontos_com(obs, valores).len(),
        forall|i: int|
            0 <= i < ks.len() ==> 0 <= #[trigger] ks[i] < obs.len() && pontos_com(obs, valores)[i].em
                == obs[ks[i]].0 as u64 && valores[ks[i]] == Some(
                pontos_com(obs, valores)[i].fechamento,
            ),
        forall|i: int, j: int| 0 <= i < j < ks.len() ==> #[trigger] ks[i] < #[trigger] ks[j],
        forall|k: int| 0 <= k < obs.len() && (#[trigger] valores[k]) is Some ==> ks.contains(k),
    decreases obs.len(),
{
    if obs.len() == 0 {
        Seq::empty()
    } else {
        let n = obs.len() - 1;
        let w = obs.drop_last();
        let a = lemma_pontos_com(w, valores);
        assert forall|i: int| 0 <= i < a.len() implies w[#[trigger] a[i]] == obs[a[i]] by {}
        if valores[n] is Some {
            let ks = a.push(n);
            assert forall|k: int|
                0 <= k < obs.len() && (#[trigger] valores[k]) is Some implies ks.contains(k) by {
                if k < n {
                    let i = choose|i: int| 0 <= i < a.len() && a[i] == k;
                    assert(ks[i] == k);
                } else {
                    assert(ks[ks.len() - 1] == k);
                }
            }
            ks
        } else {
            a
        }
    }
}

/// A quote of a series is in dollars, with the value of its newest observation, and the one
/// before it as the previous.
pub proof fn lemma_quote_da_serie(p: Observada)
    requires
        catalogo(p.0.symbol@) is Some,
        p.1 is Ok,
        p.1->Ok_0@.len() > 1,
    ensures
        (match retorno_da_serie(p) {
            RetornoV::Veio(qs) => {
                let pts = p.1->Ok_0@;
                &&& qs.len() == 1
                &&& qs[0].ativo == p.0@
                &&& qs[0].moeda == Moeda::Usd
                &&& qs[0].fonte == Provedor::Fred.chave()
                &&& qs[0].grade == Grade::Fechamento
                &&& qs[0].preco == pts[pts.len() - 1].fechamento
                &&& qs[0].em == pts[pts.len() - 1].em
                &&& qs[0].anterior == Some(pts[pts.len() - 2].fechamento)
            },
            _ => false,
        }),
{
}

/// So many days before an instant is that many times the seconds of a day.
pub proof fn lemma_dias_antes(agora: u64, dias: u32)
    requires
        dias * 86400 <= agora,
    ensures
        dias_antes(agora, dias) + dias * 24 * 60 * 60 == agora,
{
}

} // verus!
