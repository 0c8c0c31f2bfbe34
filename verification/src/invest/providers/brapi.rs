//! Shares and funds of the Brazilian exchange, from an aggregator.
//!
//! With a token whose plan allows it, one request prices everything. Without, it is one asset
//! for each request, a few in each round, and the rest in turns.

use vstd::prelude::*;
use vstd::slice::slice_subrange;
use crate::number::{all_digits, digits_upto, value};
use crate::pick::{lemma_pick, lemma_pick_ends, picked};
use crate::text::{
    chars_of, cut_once, find_from, found, is_digit, is_without, join, joined, lemma_join_and_cut,
    lemma_reach, maybe, pieces, reach, same, split, split_once, split_words, text_of, trim_end_of,
    trimmed_end, views, words, Cut,
};
use crate::invest::json::{
    as_array, as_double, as_natural, as_str, campo, campo_de, dobro, first_of, get_de, is_true,
    itens, letras, natural_de, primeiro, Json,
};
use crate::invest::model::{vistos, AssetId, ErroV, FeedError, Market, Moeda};
use crate::invest::provider::{depois, Candle, Grade, Quote, QuoteV, Span};
use crate::invest::providers::cambio::{par_lido, pares_lidos};
use crate::invest::providers::comum::{
    da_cotada, em_lista, fechada, feita, lemma_depois_do_fim, mostrados, no_maximo_um, pontos_ou,
    pontos_ou_erro, recusou, resposta_vista, retorno_visto, retornos, reunir, segue_depois, Conta,
    Cotada, Pergunta, Retorno, RetornoV, Rodizio,
};
use crate::invest::providers::kinvo::Lote;
use crate::invest::providers::manual::moeda_do_ativo;
use crate::invest::tempo::{
    dias, dias_de, i32_lido, instante_em, lemma_joined_three, ler_i32, ler_u32, u32_lido,
};

verus! {

/// How many assets are asked about in one round when each takes a request.
pub const POR_VOLTA_ANONIMO: usize = 8;

/// Up to what age, in seconds, a quote is still live.
pub const AO_VIVO_ATE: u64 = 120;

/// What the plan allows is not known yet.
pub const LIMITE_DESCONHECIDO: usize = 0;

/// The environment variable that carries the token.
pub const VAR_TOKEN: &'static str = "MONITORZINHO_BRAPI_TOKEN";

/// The file that carries the token otherwise.
pub const ARQUIVO_TOKEN: &'static str = "brapi.token";

/// The token among what the environment and the file hold: the first that is not blank,
/// trimmed.
pub fn token(ambiente: Option<&str>, arquivo: Option<&str>) -> (r: Option<String>)
    ensures
        maybe(r) == (if ambiente is Some && crate::text::trimmed(ambiente->0@).len() > 0 {
            Some(crate::text::trimmed(ambiente->0@))
        } else if arquivo is Some && crate::text::trimmed(arquivo->0@).len() > 0 {
            Some(crate::text::trimmed(arquivo->0@))
        } else {
            None
        }),
{
    match ambiente {
        Some(t) => {
            let t = crate::text::trim(t);
            if !t.as_str().is_empty() {
                return Some(t);
            }
        },
        None => {},
    }
    match arquivo {
        Some(t) => {
            let t = crate::text::trim(t);
            if t.as_str().is_empty() {
                None
            } else {
                Some(t)
            }
        },
        None => None,
    }
}

// --- refusals ------------------------------------------------------------------------------

/// What an answer refuses, when it does: refusals of the plan come inside an answer that is
/// otherwise well.
pub open spec fn recusa(v: Json) -> Option<Seq<char>> {
    if campo(v, "error"@) == Some(Json::Bool(true)) {
        Some(
            match letras(campo(v, "message"@)) {
                Some(m) => m,
                None => "recusado sem explicação"@,
            },
        )
    } else {
        None
    }
}

/// The error that an answer carries.
pub fn erro_da_api(v: &Json) -> (r: Option<FeedError>)
    ensures
        (match r {
            Some(FeedError::Formato(m)) => recusa(*v) == Some(m@),
            Some(_) => false,
            None => recusa(*v) is None,
        }),
{
    if !is_true(v.get("error")) {
        return None;
    }
    let m = match as_str(v.get("message")) {
        Some(m) => m,
        None => "recusado sem explicação",
    };
    Some(FeedError::Formato(m.to_owned()))
}

/// The digits that a text begins with.
pub open spec fn digitos_do_inicio(s: Seq<char>) -> Seq<char> {
    s.take(reach(s, Cut::NonDigit) as int)
}

/// What stands between the first occurrence of a text and the next, or the end.
pub open spec fn depois_de(s: Seq<char>, pat: Seq<char>) -> Option<Seq<char>> {
    match found(s, pat, 0) {
        None => None,
        Some(i) => {
            let t = s.skip(i + pat.len());
            Some(
                match found(t, pat, 0) {
                    Some(j) => t.take(j),
                    None => t,
                },
            )
        },
    }
}

/// How many assets a plan allows in one request, out of the words of its refusal: the
/// digits that begin the word after «no máximo».
pub open spec fn limite_escrito(s: Seq<char>) -> Option<int> {
    match depois_de(s, "no máximo"@) {
        None => None,
        Some(t) => {
            let w = words(t);
            if w.len() == 0 {
                None
            } else {
                let d = digitos_do_inicio(w[0]);
                if d.len() > 0 && value(d) <= usize::MAX {
                    Some(value(d) as int)
                } else {
                    None
                }
            }
        },
    }
}

/// Reads how many assets a plan allows in one request.
pub fn limite_da_mensagem(mensagem: &str) -> (r: Option<usize>)
    ensures
        (match r {
            Some(n) => limite_escrito(mensagem@) == Some(n as int),
            None => limite_escrito(mensagem@) is None,
        }),
{
    let v = chars_of(mensagem);
    let pat = chars_of("no máximo");
    let i = match find_from(v.as_slice(), pat.as_slice(), 0) {
        Some(i) => i,
        None => {
            return None;
        },
    };
    let t = slice_subrange(v.as_slice(), i + pat.len(), v.len());
    assert(t@ =~= mensagem@.skip(i + pat@.len()));
    let parte = match find_from(t, pat.as_slice(), 0) {
        Some(j) => {
            let p = slice_subrange(t, 0, j);
            assert(p@ =~= t@.take(j as int));
            text_of(p)
        },
        None => text_of(t),
    };
    let w = split_words(parte.as_str());
    assert(views(w@).len() == w@.len());
    if w.len() == 0 {
        return None;
    }
    assert(views(w@)[0] == w@[0]@);
    let c = chars_of(w[0].as_str());
    assert(c@.skip(0) =~= c@);
    let n = crate::text::reach_from(c.as_slice(), 0, Cut::NonDigit);
    let d = slice_subrange(c.as_slice(), 0, n);
    assert(d@ =~= digitos_do_inicio(w@[0]@));
    assert forall|k: int| 0 <= k < d@.len() implies is_digit(#[trigger] d@[k]) by {
        assert(!Cut::NonDigit.cuts(c@[k]));
    }
    match digits_upto(d, usize::MAX as u64) {
        Some(n) => Some(n as usize),
        None => None,
    }
}

/// How many assets the plan allows in one request, once these words were heard.
pub open spec fn aprendido(palavras: Option<Seq<char>>, sabido: usize) -> int {
    match palavras {
        Some(m) => match limite_escrito(m) {
            Some(n) => if n < 1 {
                1
            } else {
                n
            },
            None => sabido as int,
        },
        None => sabido as int,
    }
}

/// The source: where it is in its list, and what its plan allows.
pub struct Brapi {
    pub rodizio: Rodizio,
    /// How many assets one request may hold; 0 while that is not known.
    pub por_requisicao: usize,
}

/// How a round is made.
#[derive(Clone, Copy, PartialEq, Eq, Debug, Structural)]
pub enum Plano {
    /// One request for this many assets.
    Lote(usize),
    /// One request for each asset, in turns.
    UmAUm,
}

impl Brapi {
    /// The words of a refusal, wherever the source put them.
    pub open spec fn palavras(erro: FeedError) -> Option<Seq<char>> {
        match erro {
            FeedError::Formato(m) => Some(m@),
            FeedError::Status { code, detalhe: Some(d) } => Some(d@),
            _ => None,
        }
    }

    /// Learns from a refusal how many assets the plan allows in one request. There is no
    /// other way to know.
    pub fn aprender(&mut self, erro: &FeedError)
        ensures
            final(self).rodizio == old(self).rodizio,
            final(self).por_requisicao == aprendido(
                Brapi::palavras(*erro),
                old(self).por_requisicao,
            ),
    {
        let limite = match erro {
            FeedError::Formato(m) => limite_da_mensagem(m.as_str()),
            FeedError::Status { code, detalhe } => match detalhe {
                Some(d) => limite_da_mensagem(d.as_str()),
                None => None,
            },
            _ => None,
        };
        match limite {
            Some(n) => {
                self.por_requisicao = if n < 1 {
                    1
                } else {
                    n
                };
            },
            None => {},
        }
    }

    /// The assets that this source answers for.
    pub open spec fn cobre(a: (Market, Seq<char>)) -> bool {
        a.0 == Market::B3
    }

    /// Whether this source answers for an asset.
    pub fn covers(&self, ativo: &AssetId) -> (r: bool)
        ensures
            r == Brapi::cobre(ativo@),
    {
        ativo.market == Market::B3
    }

    /// How a round over `n` assets is made. A token does not imply being allowed several
    /// assets in one request: that is found out by trying once.
    pub fn plano(&self, tem_token: bool, n: usize) -> (r: Plano)
        ensures
            r == (if tem_token && self.por_requisicao != 1 {
                Plano::Lote(
                    if self.por_requisicao == LIMITE_DESCONHECIDO || n < self.por_requisicao {
                        n
                    } else {
                        self.por_requisicao
                    },
                )
            } else {
                Plano::UmAUm
            }),
    {
        if tem_token && self.por_requisicao != 1 {
            if self.por_requisicao == LIMITE_DESCONHECIDO || n < self.por_requisicao {
                Plano::Lote(n)
            } else {
                Plano::Lote(self.por_requisicao)
            }
        } else {
            Plano::UmAUm
        }
    }

    /// Whether a round that failed as one request goes on one by one: the refusal taught
    /// that this is the way.
    pub fn insiste(&self) -> (r: bool)
        ensures
            r == (self.por_requisicao == 1),
    {
        self.por_requisicao == 1
    }

    /// The pace of the source, in milliseconds: one request may be quick; one for each
    /// asset, with a token or without, is slow.
    pub fn intervalo(&self) -> (r: u64)
        ensures
            r == (if self.por_requisicao > 1 {
                5_000u64
            } else {
                30_000u64
            }),
    {
        if self.por_requisicao > 1 {
            5_000
        } else {
            30_000
        }
    }
}

// --- addresses -----------------------------------------------------------------------------

/// The address that prices several assets at once.
pub fn url_do_lote(ativos: &[AssetId], token: &str) -> (r: String)
    ensures
        r@ == "https://brapi.dev/api/quote/"@ + joined(
            Seq::new(ativos@.len(), |i: int| ativos@[i].symbol@),
            ","@,
        ) + "?token="@ + token@,
{
    let mut nomes: Vec<String> = Vec::new();
    for i in 0..ativos.len()
        invariant
            views(nomes@) =~= Seq::new(i as nat, |k: int| ativos@[k].symbol@),
    {
        let ghost antes = nomes@;
        nomes.push(ativos[i].symbol.clone());
        assert(views(nomes@) =~= views(antes).push(ativos@[i as int].symbol@));
    }
    assert(views(nomes@) =~= Seq::new(ativos@.len(), |i: int| ativos@[i].symbol@));
    let mut r = "https://brapi.dev/api/quote/".to_owned();
    let j = join(nomes.as_slice(), ",");
    r.append(j.as_str());
    r.append("?token=");
    r.append(token);
    r
}

/// The address that prices one asset.
pub fn url_de_um(ativo: &AssetId) -> (r: String)
    ensures
        r@ == "https://brapi.dev/api/quote/"@ + ativo.symbol@,
{
    let mut r = "https://brapi.dev/api/quote/".to_owned();
    r.append(ativo.symbol.as_str());
    r
}

/// The length of history as the source calls it. The shortest it has is a month, which
/// covers the day and the week; a year covers the rest as far as it goes.
pub open spec fn range_de(span: Span) -> Seq<char> {
    match span {
        Span::Dia => "1mo"@,
        Span::Semana => "1mo"@,
        Span::Mes => "1mo"@,
        Span::SeisMeses => "1y"@,
        Span::Ano => "1y"@,
        Span::CincoAnos => "1y"@,
    }
}

/// The end of an address that carries the token, when there is one.
pub open spec fn com_token(token: Option<Seq<char>>) -> Seq<char> {
    match token {
        Some(t) => "&token="@ + t,
        None => Seq::empty(),
    }
}

/// The address of an asset's history.
pub fn url_do_historico(ativo: &AssetId, span: Span, token: Option<String>) -> (r: String)
    ensures
        r@ == "https://brapi.dev/api/quote/"@ + ativo.symbol@ + "?range="@ + range_de(span)
            + "&interval=1d"@ + com_token(maybe(token)),
{
    let mut r = "https://brapi.dev/api/quote/".to_owned();
    r.append(ativo.symbol.as_str());
    r.append("?range=");
    r.append(
        match span {
            Span::Dia => "1mo",
            Span::Semana => "1mo",
            Span::Mes => "1mo",
            Span::SeisMeses => "1y",
            Span::Ano => "1y",
            Span::CincoAnos => "1y",
        },
    );
    r.append("&interval=1d");
    let ghost base = r@;
    match token {
        Some(t) => {
            r.append("&token=");
            r.append(t.as_str());
            assert(r@ =~= base + ("&token="@ + t@));
        },
        None => {
            assert(r@ =~= base + Seq::<char>::empty());
        },
    }
    r
}

/// The address of a company's figures.
pub fn url_dos_fundamentos(ativo: &AssetId, token: Option<String>) -> (r: String)
    ensures
        r@ == "https://brapi.dev/api/quote/"@ + ativo.symbol@
            + "?modules=defaultKeyStatistics,financialData,summaryProfile"@ + com_token(
            maybe(token),
        ),
{
    let mut r = "https://brapi.dev/api/quote/".to_owned();
    r.append(ativo.symbol.as_str());
    r.append("?modules=defaultKeyStatistics,financialData,summaryProfile");
    let ghost base = r@;
    match token {
        Some(t) => {
            r.append("&token=");
            r.append(t.as_str());
            assert(r@ =~= base + ("&token="@ + t@));
        },
        None => {
            assert(r@ =~= base + Seq::<char>::empty());
        },
    }
    r
}

// --- quotes --------------------------------------------------------------------------------

/// A natural number of a text, when it fits in 64 bits.
pub open spec fn u64_lido(s: Seq<char>) -> Option<nat> {
    crate::number::within(crate::number::natural(s), u64::MAX as nat)
}

/// The instant that a stamp writes, `2026-09-08T20:13:30.000Z`: every field is required.
pub open spec fn instante_escrito(s: Seq<char>) -> Option<int> {
    match cut_once(s, Cut::At('T')) {
        None => None,
        Some((data, resto)) => {
            let d = pieces(data, Cut::At('-'));
            let h = pieces(trimmed_end(resto, Cut::At('Z')), Cut::At(':'));
            if d.len() < 3 || h.len() < 3 {
                None
            } else {
                match (
                    (i32_lido(d[0]), u32_lido(d[1]), u32_lido(d[2])),
                    (
                        u64_lido(h[0]),
                        u64_lido(h[1]),
                        u64_lido(crate::text::before(h[2], Cut::At('.'))),
                    ),
                ) {
                    (
                        (Some(a), Some(m), Some(dia)),
                        (Some(hh), Some(mm), Some(ss)),
                    ) => {
                        let t = dias(a, m as int, dia as int) * 86400 + hh * 3600 + mm * 60 + ss;
                        if 0 <= dias(a, m as int, dia as int) && t <= u64::MAX {
                            Some(t)
                        } else {
                            None
                        }
                    },
                    _ => None,
                }
            }
        },
    }
}

/// Reads the instant that a stamp writes. A day before the epoch, or an instant that does
/// not fit, is none.
pub fn instante(texto: &str) -> (r: Option<u64>)
    ensures
        instante_em(r) == instante_escrito(texto@),
{
    let (data, resto) = match split_once(texto, 'T') {
        Some(x) => x,
        None => {
            return None;
        },
    };
    let d = split(data.as_str(), Cut::At('-'));
    let limpo = trim_end_of(resto.as_str(), Cut::At('Z'));
    let h = split(limpo.as_str(), Cut::At(':'));
    assert(views(d@).len() == d@.len() && views(h@).len() == h@.len());
    if d.len() < 3 || h.len() < 3 {
        return None;
    }
    assert(views(d@)[0] == d@[0]@ && views(d@)[1] == d@[1]@ && views(d@)[2] == d@[2]@);
    assert(views(h@)[0] == h@[0]@ && views(h@)[1] == h@[1]@ && views(h@)[2] == h@[2]@);
    let s = crate::text::head_before(h[2].as_str(), '.');
    match (
        (ler_i32(d[0].as_str()), ler_u32(d[1].as_str()), ler_u32(d[2].as_str())),
        (
            crate::number::parse_upto(h[0].as_str(), u64::MAX),
            crate::number::parse_upto(h[1].as_str(), u64::MAX),
            crate::number::parse_upto(s.as_str(), u64::MAX),
        ),
    ) {
        ((Some(a), Some(m), Some(dia)), (Some(hh), Some(mm), Some(ss))) => {
            let n = dias_de(a, m, dia);
            if n < 0 {
                return None;
            }
            let t: i128 = (n as i128) * 86400 + (hh as i128) * 3600 + (mm as i128) * 60 + (
            ss as i128);
            if t <= 0xffff_ffff_ffff_ffff {
                Some(t as u64)
            } else {
                None
            }
        },
        _ => None,
    }
}

/// The quote that a result gives, and the change from which its previous close follows: the
/// field that claims to be the previous close repeats the price.
pub open spec fn quote_do_resultado(
    r: Json,
    ativo: (Market, Seq<char>),
    agora: u64,
) -> Option<(QuoteV, Conta)> {
    match dobro(campo(r, "regularMarketPrice"@)) {
        None => None,
        Some(preco) => {
            let em: u64 = match letras(campo(r, "regularMarketTime"@)) {
                Some(s) => match instante_escrito(s) {
                    Some(t) => t as u64,
                    None => agora,
                },
                None => agora,
            };
            let atraso = depois(agora, em);
            Some(
                (
                    QuoteV {
                        ativo,
                        fonte: "brapi"@,
                        preco,
                        anterior: None,
                        moeda: Moeda::Brl,
                        grade: if atraso <= AO_VIVO_ATE {
                            Grade::AoVivo
                        } else {
                            Grade::Atrasado(atraso as u64)
                        },
                        em,
                        volume: dobro(campo(r, "regularMarketVolume"@)),
                        max24: dobro(campo(r, "regularMarketDayHigh"@)),
                        min24: dobro(campo(r, "regularMarketDayLow"@)),
                    },
                    match dobro(campo(r, "regularMarketChange"@)) {
                        Some(v) => Conta::Diferenca(v),
                        None => Conta::Nenhuma,
                    },
                ),
            )
        },
    }
}

/// The value of an optional quote with its account.
pub open spec fn lido(c: Option<Cotada>) -> Option<(QuoteV, Conta)> {
    match c {
        Some(x) => Some(par_lido(x)),
        None => None,
    }
}

/// Reads the quote of one asset. Without a price there is none: an unknown symbol must not
/// become a price of zero.
pub fn cotacao(ativo: &AssetId, r: &Json, agora: u64) -> (q: Option<Cotada>)
    ensures
        lido(q) == quote_do_resultado(*r, ativo@, agora),
{
    let preco: u64 = match as_double(r.get("regularMarketPrice")) {
        Some(p) => p,
        None => {
            return None;
        },
    };
    let em: u64 = match as_str(r.get("regularMarketTime")) {
        Some(s) => match instante(s) {
            Some(t) => t,
            None => agora,
        },
        None => agora,
    };
    let atraso: u64 = agora.saturating_sub(em);
    let conta = match as_double(r.get("regularMarketChange")) {
        Some(v) => Conta::Diferenca(v),
        None => Conta::Nenhuma,
    };
    Some(
        Cotada {
            quote: Quote {
                ativo: ativo.clone(),
                fonte: "brapi",
                preco,
                anterior: None,
                moeda: Moeda::Brl,
                grade: if atraso <= AO_VIVO_ATE {
                    Grade::AoVivo
                } else {
                    Grade::Atrasado(atraso)
                },
                em,
                volume: as_double(r.get("regularMarketVolume")),
                max24: as_double(r.get("regularMarketDayHigh")),
                min24: as_double(r.get("regularMarketDayLow")),
            },
            conta,
        },
    )
}

/// The first asset of a list with a symbol.
pub open spec fn com_simbolo(v: Seq<(Market, Seq<char>)>, s: Seq<char>) -> Option<
    (Market, Seq<char>),
>
    decreases v.len(),
{
    if v.len() == 0 {
        None
    } else if v[0].1 == s {
        Some(v[0])
    } else {
        com_simbolo(v.skip(1), s)
    }
}

/// The quote that one result of a batch gives: of the asset it names.
pub open spec fn quote_no_lote(
    r: Json,
    ativos: Seq<(Market, Seq<char>)>,
    agora: u64,
) -> Option<(QuoteV, Conta)> {
    match letras(campo(r, "symbol"@)) {
        None => None,
        Some(s) => match com_simbolo(ativos, s) {
            None => None,
            Some(a) => quote_do_resultado(r, a, agora),
        },
    }
}

/// Reads one result of a batch.
fn ler_do_lote(r: &Json, ativos: &[AssetId], agora: u64) -> (q: Option<Cotada>)
    ensures
        lido(q) == quote_no_lote(*r, vistos(ativos@), agora),
{
    let s = match as_str(r.get("symbol")) {
        Some(s) => s,
        None => {
            return None;
        },
    };
    let ghost todos = vistos(ativos@);
    assert(todos.skip(0) =~= todos);
    for i in 0..ativos.len()
        invariant
            todos == vistos(ativos@),
            letras(campo(*r, "symbol"@)) == Some(s@),
            com_simbolo(todos.skip(i as int), s@) == com_simbolo(todos, s@),
    {
        assert(todos.skip(i as int)[0] == ativos@[i as int]@);
        assert(todos.skip(i as int).skip(1) =~= todos.skip(i + 1));
        if same(ativos[i].symbol.as_str(), s) {
            return cotacao(&ativos[i], r, agora);
        }
    }
    None
}

/// What an answer about several assets says.
pub open spec fn resposta_do_lote(
    valor: Json,
    ativos: Seq<(Market, Seq<char>)>,
    agora: u64,
) -> Result<Seq<(QuoteV, Conta)>, ErroV> {
    match recusa(valor) {
        Some(m) => Err(ErroV::Formato(m)),
        None => match itens(campo(valor, "results"@)) {
            None => Err(ErroV::Formato("resposta sem «results»"@)),
            Some(xs) => Ok(picked(xs, |x: Json| quote_no_lote(x, ativos, agora))),
        },
    }
}

/// Reads the answer to a request for several assets. A refusal is learnt from.
pub fn ler_lote(b: &mut Brapi, valor: &Json, ativos: &[AssetId], agora: u64) -> (r: Result<
    Vec<Cotada>,
    FeedError,
>)
    ensures
        final(b).rodizio == old(b).rodizio,
        final(b).por_requisicao == aprendido(recusa(*valor), old(b).por_requisicao),
        (match r {
            Ok(v) => resposta_do_lote(*valor, vistos(ativos@), agora) == Ok::<
                Seq<(QuoteV, Conta)>,
                ErroV,
            >(pares_lidos(v@)),
            Err(e) => resposta_do_lote(*valor, vistos(ativos@), agora) == Err::<
                Seq<(QuoteV, Conta)>,
                ErroV,
            >(e@),
        }),
{
    match erro_da_api(valor) {
        Some(e) => {
            b.aprender(&e);
            return Err(e);
        },
        None => {},
    }
    let xs = match as_array(valor.get("results")) {
        Some(xs) => xs,
        None => {
            return Err(FeedError::Formato("resposta sem «results»".to_owned()));
        },
    };
    let ghost f = |x: Json| quote_no_lote(x, vistos(ativos@), agora);
    let mut saida: Vec<Cotada> = Vec::new();
    proof {
        lemma_pick_ends(xs@, f);
        assert(pares_lidos(saida@) =~= picked(xs@.take(0), f));
    }
    for i in 0..xs.len()
        invariant
            f == (|x: Json| quote_no_lote(x, vistos(ativos@), agora)),
            pares_lidos(saida@) == picked(xs@.take(i as int), f),
    {
        proof {
            lemma_pick(xs@, f, i as int);
        }
        match ler_do_lote(&xs[i], ativos, agora) {
            Some(c) => {
                let ghost antes = saida@;
                let ghost x = par_lido(c);
                saida.push(c);
                assert(pares_lidos(saida@) =~= pares_lidos(antes).push(x));
            },
            None => {},
        }
    }
    Ok(saida)
}

/// Reads the answer to a request for one asset: its quote, nothing when the source does not
/// know it, or the refusal that the answer carries.
pub fn ler_um(valor: &Json, ativo: &AssetId, agora: u64) -> (r: Result<Option<Cotada>, FeedError>)
    ensures
        (match recusa(*valor) {
            Some(m) => recusou(r, m),
            None => r is Ok && lido(r->Ok_0) == (match primeiro(itens(campo(*valor, "results"@))) {
                Some(x) => quote_do_resultado(x, ativo@, agora),
                None => None,
            }),
        }),
{
    match erro_da_api(valor) {
        Some(e) => {
            return Err(e);
        },
        None => {},
    }
    match first_of(valor.get("results")) {
        Some(x) => Ok(cotacao(ativo, x, agora)),
        None => Ok(None),
    }
}

/// What a request about one asset comes to.
pub open spec fn retorno_de_um(p: Pergunta, agora: u64) -> RetornoV<(QuoteV, Conta)> {
    match p.1 {
        Err(e) => RetornoV::Falhou(e@),
        Ok(v) => match recusa(v) {
            Some(m) => RetornoV::Recusou(ErroV::Formato(m)),
            None => RetornoV::Veio(
                no_maximo_um(
                    match primeiro(itens(campo(v, "results"@))) {
                        Some(x) => quote_do_resultado(x, p.0@, agora),
                        None => None,
                    },
                ),
            ),
        },
    }
}

/// Reads what a request about one asset came to.
fn retorno(p: Pergunta, agora: u64) -> (r: Retorno<Cotada>)
    ensures
        retorno_visto(r, da_cotada()) == retorno_de_um(p, agora),
{
    let (ativo, resposta) = p;
    match resposta {
        Err(e) => Retorno::Falhou(e),
        Ok(v) => match ler_um(&v, &ativo, agora) {
            Err(e) => Retorno::Recusou(e),
            Ok(c) => {
                let r = em_lista(c);
                assert(mostrados(r@, da_cotada()) =~= no_maximo_um(lido(c)));
                Retorno::Veio(r)
            },
        },
    }
}

/// A round may be left at the first reply after which it does not go on: what the source answers
/// is the same, whatever the requests after it would have brought.
pub proof fn lemma_volta_interrompida(feitas: Seq<Pergunta>, resto: Seq<Pergunta>, agora: u64)
    requires
        feitas.len() > 0,
        !segue_depois(feitas.last().1),
    ensures
        feita(retornos(feitas + resto, |p: Pergunta| retorno_de_um(p, agora))) == feita(
            retornos(feitas, |p: Pergunta| retorno_de_um(p, agora)),
        ),
{
    let g = |p: Pergunta| retorno_de_um(p, agora);
    let a = retornos(feitas, g);
    assert(a.last() == g(feitas.last()));
    assert(feita(a).parou);
    lemma_depois_do_fim(a, retornos(resto, g));
    assert(retornos(feitas + resto, g) =~= a + retornos(resto, g));
}

impl Brapi {
    /// What the source answers to one request for several assets. A refusal is learnt from,
    /// wherever it came.
    pub fn em_lote(&mut self, resposta: Result<Json, FeedError>, ativos: &[AssetId], agora: u64) -> (r:
        Result<Vec<Cotada>, FeedError>)
        ensures
            final(self).rodizio == old(self).rodizio,
            (match resposta {
                Err(e) => r == Err::<Vec<Cotada>, FeedError>(e) && final(self).por_requisicao
                    == aprendido(Brapi::palavras(e), old(self).por_requisicao),
                Ok(v) => final(self).por_requisicao == aprendido(
                    recusa(v),
                    old(self).por_requisicao,
                ) && resposta_vista(r, da_cotada()) == resposta_do_lote(v, vistos(ativos@), agora),
            }),
    {
        match resposta {
            Err(e) => {
                self.aprender(&e);
                Err(e)
            },
            Ok(v) => {
                let r = ler_lote(self, &v, ativos, agora);
                proof {
                    if r is Ok {
                        assert(mostrados(r->Ok_0@, da_cotada()) =~= pares_lidos(r->Ok_0@));
                    }
                }
                r
            },
        }
    }

    /// What the source answers after a round of one request for each asset, given what each
    /// asked and what came.
    pub fn um_a_um(&self, perguntas: Vec<Pergunta>, agora: u64) -> (r: Result<Vec<Cotada>, FeedError>)
        ensures
            resposta_vista(r, da_cotada()) == fechada(
                feita(retornos(perguntas@, |p: Pergunta| retorno_de_um(p, agora))),
            ),
    {
        let ghost g = |p: Pergunta| retorno_de_um(p, agora);
        let ghost todas = perguntas@;
        let ghost mut feitas: int = 0;
        let mut ps = perguntas;
        let mut rs: Vec<Retorno<Cotada>> = Vec::new();
        let ghost f = |x: Retorno<Cotada>| retorno_visto(x, da_cotada());
        assert(todas.skip(0) =~= todas);
        assert(retornos(rs@, f) =~= retornos(todas.take(0), g));
        while ps.len() > 0
            invariant
                g == (|p: Pergunta| retorno_de_um(p, agora)),
                f == (|x: Retorno<Cotada>| retorno_visto(x, da_cotada())),
                0 <= feitas <= todas.len(),
                ps@ == todas.skip(feitas),
                retornos(rs@, f) == retornos(todas.take(feitas), g),
            decreases ps@.len(),
        {
            let ghost antes = rs@;
            let p = ps.remove(0);
            let ghost q = p;
            assert(p == todas[feitas]);
            assert(ps@ =~= todas.skip(feitas + 1));
            rs.push(retorno(p, agora));
            proof {
                assert(retornos(rs@, f) =~= retornos(antes, f).push(g(q)));
                assert(retornos(todas.take(feitas + 1), g) =~= retornos(todas.take(feitas), g).push(
                    g(q),
                ));
                feitas = feitas + 1;
            }
        }
        assert(todas.take(feitas) =~= todas);
        reunir::<Cotada, (QuoteV, Conta)>(rs, Ghost(da_cotada()))
    }
}

// --- history -------------------------------------------------------------------------------

/// The points of an answer, as the source lists them.
pub open spec fn lista_do_historico(v: Json) -> Option<Seq<Json>> {
    itens(campo_de(primeiro(itens(campo(v, "results"@))), "historicalDataPrice"@))
}

/// The point that an item gives.
pub open spec fn ponto_de(v: Json) -> Option<Candle> {
    match (natural_de(campo(v, "date"@)), dobro(campo(v, "close"@))) {
        (Some(em), Some(x)) => Some(Candle { em, fechamento: x }),
        _ => None,
    }
}

/// Reads the history that comes with a quote.
pub fn historico(valor: &Json) -> (r: Result<Vec<Candle>, FeedError>)
    ensures
        (match recusa(*valor) {
            Some(m) => recusou(r, m),
            None => match lista_do_historico(*valor) {
                None => recusou(r, "resposta sem «historicalDataPrice»"@),
                Some(xs) => pontos_ou_erro(
                    r,
                    picked(xs, |v: Json| ponto_de(v)),
                    "nenhum ponto utilizável"@,
                ),
            },
        }),
{
    match erro_da_api(valor) {
        Some(e) => {
            return Err(e);
        },
        None => {},
    }
    let xs = match as_array(get_de(first_of(valor.get("results")), "historicalDataPrice")) {
        Some(xs) => xs,
        None => {
            return Err(FeedError::Formato("resposta sem «historicalDataPrice»".to_owned()));
        },
    };
    let ghost f = |v: Json| ponto_de(v);
    let mut saida: Vec<Candle> = Vec::new();
    proof {
        lemma_pick_ends(xs@, f);
    }
    for i in 0..xs.len()
        invariant
            f == (|v: Json| ponto_de(v)),
            saida@ == picked(xs@.take(i as int), f),
    {
        proof {
            lemma_pick(xs@, f, i as int);
        }
        match (as_natural(xs[i].get("date")), as_double(xs[i].get("close"))) {
            (Some(em), Some(x)) => {
                saida.push(Candle { em, fechamento: x });
            },
            _ => {},
        }
    }
    pontos_ou(saida, "nenhum ponto utilizável")
}

// --- figures of the company ------------------------------------------------------------------

/// The figures of the company behind a share. Amounts are bit patterns of doubles; each may
/// be missing on its own, and what is missing is never a zero.
#[derive(Debug)]
pub struct Fundamentos {
    pub setor: Option<String>,
    pub industria: Option<String>,
    pub p_l: Option<u64>,
    pub lpa: Option<u64>,
    pub valor_de_mercado: Option<u64>,
    /// The net margin as a fraction.
    pub margem_liquida: Option<u64>,
    pub ebitda: Option<u64>,
    pub divida_total: Option<u64>,
    pub caixa: Option<u64>,
    pub liquidez_corrente: Option<u64>,
    pub acoes_emitidas: Option<u64>,
}

/// A number of a module of a result.
pub open spec fn do_modulo(r: Json, modulo: Seq<char>, nome: Seq<char>) -> Option<u64> {
    dobro(campo_de(campo(r, modulo), nome))
}

/// A text of a module of a result.
pub open spec fn texto_do_modulo(r: Json, modulo: Seq<char>, nome: Seq<char>) -> Option<
    Seq<char>,
> {
    letras(campo_de(campo(r, modulo), nome))
}

/// The figures that a result gives.
pub open spec fn figuras(r: Json, f: Fundamentos) -> bool {
    &&& maybe(f.setor) == texto_do_modulo(r, "summaryProfile"@, "sector"@)
    &&& maybe(f.industria) == texto_do_modulo(r, "summaryProfile"@, "industry"@)
    &&& f.p_l == dobro(campo(r, "priceEarnings"@))
    &&& f.lpa == dobro(campo(r, "earningsPerShare"@))
    &&& f.valor_de_mercado == dobro(campo(r, "marketCap"@))
    &&& f.margem_liquida == do_modulo(r, "defaultKeyStatistics"@, "profitMargins"@)
    &&& f.ebitda == do_modulo(r, "financialData"@, "ebitda"@)
    &&& f.divida_total == do_modulo(r, "financialData"@, "totalDebt"@)
    &&& f.caixa == do_modulo(r, "financialData"@, "totalCash"@)
    &&& f.liquidez_corrente == do_modulo(r, "financialData"@, "currentRatio"@)
    &&& f.acoes_emitidas == do_modulo(r, "defaultKeyStatistics"@, "sharesOutstanding"@)
}

/// A number of a module of a result.
fn numero_do_modulo(r: &Json, modulo: &str, nome: &str) -> (x: Option<u64>)
    ensures
        x == do_modulo(*r, modulo@, nome@),
{
    as_double(get_de(r.get(modulo), nome))
}

/// A text of a module of a result.
fn letras_do_modulo(r: &Json, modulo: &str, nome: &str) -> (x: Option<String>)
    ensures
        maybe(x) == texto_do_modulo(*r, modulo@, nome@),
{
    match as_str(get_de(r.get(modulo), nome)) {
        Some(s) => Some(s.to_owned()),
        None => None,
    }
}

/// Reads the figures of a company.
pub fn fundamentos(valor: &Json) -> (x: Result<Fundamentos, FeedError>)
    ensures
        (match recusa(*valor) {
            Some(m) => recusou(x, m),
            None => match primeiro(itens(campo(*valor, "results"@))) {
                None => recusou(x, "resposta sem «results»"@),
                Some(r) => x is Ok && figuras(r, x->Ok_0),
            },
        }),
{
    match erro_da_api(valor) {
        Some(e) => {
            return Err(e);
        },
        None => {},
    }
    let r = match first_of(valor.get("results")) {
        Some(r) => r,
        None => {
            return Err(FeedError::Formato("resposta sem «results»".to_owned()));
        },
    };
    Ok(
        Fundamentos {
            setor: letras_do_modulo(r, "summaryProfile", "sector"),
            industria: letras_do_modulo(r, "summaryProfile", "industry"),
            p_l: as_double(r.get("priceEarnings")),
            lpa: as_double(r.get("earningsPerShare")),
            valor_de_mercado: as_double(r.get("marketCap")),
            margem_liquida: numero_do_modulo(r, "defaultKeyStatistics", "profitMargins"),
            ebitda: numero_do_modulo(r, "financialData", "ebitda"),
            divida_total: numero_do_modulo(r, "financialData", "totalDebt"),
            caixa: numero_do_modulo(r, "financialData", "totalCash"),
            liquidez_corrente: numero_do_modulo(r, "financialData", "currentRatio"),
            acoes_emitidas: numero_do_modulo(r, "defaultKeyStatistics", "sharesOutstanding"),
        },
    )
}

/// A result's quote is in reais, of the asset asked about, with each number under its name. It is
/// live when its stamp is at most two minutes old, and delayed by its age otherwise.
pub proof fn lemma_quote_do_resultado(r: Json, ativo: (Market, Seq<char>), agora: u64)
    ensures
        quote_do_resultado(r, ativo, agora) is Some <==> dobro(campo(r, "regularMarketPrice"@)) is Some,
        quote_do_resultado(r, ativo, agora) is Some ==> ({
            let q = (quote_do_resultado(r, ativo, agora)->0).0;
            &&& q.ativo == ativo
            &&& q.moeda == Moeda::Brl
            &&& ativo.0 == Market::B3 ==> q.moeda == moeda_do_ativo(ativo)
            &&& q.fonte == "brapi"@
            &&& dobro(campo(r, "regularMarketPrice"@)) == Some(q.preco)
            &&& q.volume == dobro(campo(r, "regularMarketVolume"@))
            &&& q.max24 == dobro(campo(r, "regularMarketDayHigh"@))
            &&& q.min24 == dobro(campo(r, "regularMarketDayLow"@))
            &&& q.grade == Grade::AoVivo <==> agora <= q.em + 2 * 60
            &&& agora > q.em + 2 * 60 ==> q.grade == Grade::Atrasado((agora - q.em) as u64)
        }),
{
}

/// The asset of a symbol in a batch has that symbol, and is the first that does.
pub proof fn lemma_com_simbolo(v: Seq<(Market, Seq<char>)>, s: Seq<char>)
    ensures
        (match com_simbolo(v, s) {
            Some(a) => a.1 == s && exists|k: int|
                0 <= k < v.len() && #[trigger] v[k] == a && forall|j: int|
                    0 <= j < k ==> (#[trigger] v[j]).1 != s,
            None => forall|j: int| 0 <= j < v.len() ==> (#[trigger] v[j]).1 != s,
        }),
    decreases v.len(),
{
    if v.len() > 0 && v[0].1 != s {
        let t = v.skip(1);
        lemma_com_simbolo(t, s);
        match com_simbolo(t, s) {
            Some(a) => {
                let k = choose|k: int|
                    0 <= k < t.len() && #[trigger] t[k] == a && forall|j: int|
                        0 <= j < k ==> (#[trigger] t[j]).1 != s;
                assert(v[k + 1] == a);
                assert forall|j: int| 0 <= j < k + 1 implies (#[trigger] v[j]).1 != s by {
                    if j > 0 {
                        assert(t[j - 1] == v[j]);
                    }
                }
            },
            None => {
                assert forall|j: int| 0 <= j < v.len() implies (#[trigger] v[j]).1 != s by {
                    if j > 0 {
                        assert(t[j - 1] == v[j]);
                    }
                }
            },
        }
    }
}

/// A written instant: year, month and day, then hours, minutes and seconds.
pub proof fn lemma_instante_escrito(
    a: Seq<char>,
    m: Seq<char>,
    d: Seq<char>,
    hh: Seq<char>,
    mm: Seq<char>,
    ss: Seq<char>,
)
    requires
        all_digits(a) && i32_lido(a) is Some,
        all_digits(m) && u32_lido(m) is Some,
        all_digits(d) && u32_lido(d) is Some,
        all_digits(hh) && u64_lido(hh) is Some,
        all_digits(mm) && u64_lido(mm) is Some,
        all_digits(ss) && u64_lido(ss) is Some,
    ensures
        ({
            let n = dias(i32_lido(a)->0, u32_lido(m)->0 as int, u32_lido(d)->0 as int);
            let t = n * 86400 + u64_lido(hh)->0 * 3600 + u64_lido(mm)->0 * 60 + u64_lido(ss)->0;
            let dia = a + seq!['-'] + m + seq!['-'] + d;
            let hora = hh + seq![':'] + mm + seq![':'] + ss;
            0 <= n && t <= u64::MAX ==> instante_escrito(dia + seq!['T'] + hora) == Some(t)
        }),
{
    let dia = a + seq!['-'] + m + seq!['-'] + d;
    let hora = hh + seq![':'] + mm + seq![':'] + ss;
    let s = dia + seq!['T'] + hora;
    let n = dia.len() as int;
    assert forall|j: int| 0 <= j < n implies !Cut::At('T').cuts(#[trigger] s[j]) by {
        assert(s[j] == dia[j]);
        lemma_juntos(a, m, d, '-', j);
    }
    assert(s[n] == 'T');
    lemma_reach(s, Cut::At('T'), n);
    assert(s.take(n) =~= dia);
    assert(s.skip(n + 1) =~= hora);
    assert(hora.last() == ss.last());
    assert(is_digit(ss[ss.len() - 1]));
    assert(trimmed_end(hora, Cut::At('Z')) == hora);
    lemma_joined_three(a, m, d, '-');
    lemma_joined_three(hh, mm, ss, ':');
    lemma_sem(a, '-');
    lemma_sem(m, '-');
    lemma_sem(d, '-');
    lemma_sem(hh, ':');
    lemma_sem(mm, ':');
    lemma_sem(ss, ':');
    lemma_join_and_cut(seq![a, m, d], '-');
    lemma_join_and_cut(seq![hh, mm, ss], ':');
    assert forall|j: int| 0 <= j < ss.len() implies !Cut::At('.').cuts(#[trigger] ss[j]) by {
        assert(is_digit(ss[j]));
    }
    lemma_reach(ss, Cut::At('.'), ss.len() as int);
    assert(ss.take(ss.len() as int) =~= ss);
}

proof fn lemma_sem(s: Seq<char>, c: char)
    requires
        all_digits(s),
        !is_digit(c),
    ensures
        is_without(s, c),
{
    assert forall|i: int| 0 <= i < s.len() implies #[trigger] s[i] != c by {
        assert(is_digit(s[i]));
    }
}

proof fn lemma_juntos(a: Seq<char>, m: Seq<char>, d: Seq<char>, c: char, j: int)
    requires
        all_digits(a),
        all_digits(m),
        all_digits(d),
        0 <= j < (a + seq![c] + m + seq![c] + d).len(),
    ensures
        ({
            let x = (a + seq![c] + m + seq![c] + d)[j];
            is_digit(x) || x == c
        }),
{
    let p = a.len() as int;
    let q = p + 1 + m.len();
    if j < p {
        assert(is_digit(a[j]));
    } else if p < j < q {
        assert(is_digit(m[j - p - 1]));
    } else if j > q {
        assert(is_digit(d[j - q - 1]));
    }
}

} // verus!
