//! Crypto, from the one source that is live, free and never closes.

use vstd::prelude::*;
use vstd::utf8::encode_utf8;
use crate::number::{dec, decimal, hex_value};
use crate::pick::{lemma_pick, lemma_pick_ends, picked};
use crate::text::{ends_with, finishes, join, joined, maybe, same, views};
use crate::invest::json::{
    as_array, as_natural, as_str, as_written, itens, natural_de, numero_escrito, visto, Json,
};
use crate::invest::model::{vistos, AssetId, ErroV, FeedError, Market, Moeda};
use crate::invest::provider::{valores, Candle, Grade, Quote, QuoteV, Span};
use crate::invest::providers::Provedor;
use crate::invest::providers::comum::{pontos_ou, pontos_ou_erro, recusou, valor_de};
use crate::invest::providers::manual::moeda_do_ativo;

verus! {

/// The currency that a pair is quoted in: the longest suffix wins, as `BTCUSDT` ends in
/// `USDT` and also in `USD`. An unknown suffix is taken for tether, the least wrong guess.
pub open spec fn moeda_de(simbolo: Seq<char>) -> Moeda {
    if finishes(simbolo, "USDT"@) {
        Moeda::Usdt
    } else if finishes(simbolo, "BRL"@) {
        Moeda::Brl
    } else if finishes(simbolo, "EUR"@) {
        Moeda::Eur
    } else if finishes(simbolo, "USD"@) {
        Moeda::Usd
    } else {
        Moeda::Usdt
    }
}

/// The currency that a pair is quoted in, read from the end of its symbol.
pub fn moeda_do_par(simbolo: &str) -> (r: Moeda)
    ensures
        r == moeda_de(simbolo@),
{
    if ends_with(simbolo, "USDT") {
        Moeda::Usdt
    } else if ends_with(simbolo, "BRL") {
        Moeda::Brl
    } else if ends_with(simbolo, "EUR") {
        Moeda::Eur
    } else if ends_with(simbolo, "USD") {
        Moeda::Usd
    } else {
        Moeda::Usdt
    }
}

// --- the address ---------------------------------------------------------------------------

/// A byte that stands for itself in a query.
pub open spec fn inocente(b: u8) -> bool {
    65 <= b <= 90 || 97 <= b <= 122 || 48 <= b <= 57 || b == 45 || b == 95 || b == 46 || b == 126
}

/// A hexadecimal digit in capitals.
pub open spec fn digito_hex(d: nat) -> char {
    if d < 10 {
        (48 + d) as char
    } else {
        (55 + d) as char
    }
}

/// A byte as a query carries it.
pub open spec fn byte_na_query(b: u8) -> Seq<char> {
    if inocente(b) {
        seq![b as char]
    } else {
        seq!['%', digito_hex((b / 16) as nat), digito_hex((b % 16) as nat)]
    }
}

/// Bytes as a query carries them.
pub open spec fn na_query(bs: Seq<u8>) -> Seq<char>
    decreases bs.len(),
{
    if bs.len() == 0 {
        Seq::empty()
    } else {
        na_query(bs.drop_last()) + byte_na_query(bs.last())
    }
}

/// One hexadecimal digit in capitals.
fn hex_de(d: u8) -> (r: char)
    requires
        d < 16,
    ensures
        r == digito_hex(d as nat),
{
    if d < 10 {
        (48 + d) as char
    } else {
        (55 + d) as char
    }
}

/// Percent-encodes a text, byte by byte.
pub fn encode(bruto: &str) -> (r: String)
    ensures
        r@ == na_query(encode_utf8(bruto@)),
{
    let bs = bruto.as_bytes();
    let mut r = String::new();
    assert(bs@.take(0) =~= Seq::empty());
    for i in 0..bs.len()
        invariant
            r@ == na_query(bs@.take(i as int)),
    {
        let b: u8 = bs[i];
        let ghost antes = r@;
        assert(bs@.take(i + 1).drop_last() =~= bs@.take(i as int));
        if (65 <= b && b <= 90) || (97 <= b && b <= 122) || (48 <= b && b <= 57) || b == 45 || b
            == 95 || b == 46 || b == 126 {
            r.push(b as char);
            assert(r@ =~= antes + byte_na_query(b));
        } else {
            r.push('%');
            r.push(hex_de(b / 16));
            r.push(hex_de(b % 16));
            assert(r@ =~= antes + byte_na_query(b));
        }
    }
    assert(bs@.take(bs@.len() as int) =~= bs@);
    r
}

/// The list of symbols that the address takes: a JSON array of texts.
pub open spec fn lista_de(ativos: Seq<(Market, Seq<char>)>) -> Seq<char> {
    "["@ + joined(Seq::new(ativos.len(), |i: int| "\""@ + ativos[i].1 + "\""@), ","@) + "]"@
}

/// The list of symbols, before it is encoded.
pub fn lista(ativos: &[AssetId]) -> (r: String)
    ensures
        r@ == lista_de(vistos(ativos@)),
{
    let mut nomes: Vec<String> = Vec::new();
    let ghost todos = Seq::new(ativos@.len(), |i: int| "\""@ + ativos@[i].symbol@ + "\""@);
    for i in 0..ativos.len()
        invariant
            todos == Seq::new(ativos@.len(), |k: int| "\""@ + ativos@[k].symbol@ + "\""@),
            views(nomes@) =~= todos.take(i as int),
    {
        let mut s = "\"".to_owned();
        s.append(ativos[i].symbol.as_str());
        s.append("\"");
        let ghost antes = nomes@;
        let ghost x = s@;
        nomes.push(s);
        assert(views(nomes@) =~= views(antes).push(x));
    }
    let mut r = "[".to_owned();
    let j = join(nomes.as_slice(), ",");
    r.append(j.as_str());
    r.append("]");
    proof {
        assert(views(nomes@) =~= Seq::new(
            vistos(ativos@).len(),
            |i: int| "\""@ + vistos(ativos@)[i].1 + "\""@,
        ));
    }
    r
}

/// The address that prices several pairs at once: the quota is by request and not by
/// symbol.
pub fn url_dos_tickers(ativos: &[AssetId]) -> (r: String)
    ensures
        r@ == "https://api.binance.com/api/v3/ticker/24hr?symbols="@ + na_query(
            encode_utf8(lista_de(vistos(ativos@))),
        ),
{
    let l = lista(ativos);
    let mut r = "https://api.binance.com/api/v3/ticker/24hr?symbols=".to_owned();
    let e = encode(l.as_str());
    r.append(e.as_str());
    r
}

// --- prices --------------------------------------------------------------------------------

/// The members of an object: the name of each, and its text where it is one.
pub type Membros = Vec<(String, Option<String>)>;

/// The members of an object, in contracts.
pub open spec fn membros_de(m: Seq<(String, Option<String>)>) -> Seq<
    (Seq<char>, Option<Seq<char>>),
> {
    Seq::new(m.len(), |i: int| (m[i].0@, maybe(m[i].1)))
}

/// What a parser says of a body, in contracts.
pub open spec fn lista_vista(r: Result<Option<Vec<Membros>>, String>) -> Result<
    Option<Seq<Seq<(Seq<char>, Option<Seq<char>>)>>>,
    Seq<char>,
> {
    match r {
        Ok(Some(v)) => Ok(Some(Seq::new(v@.len(), |i: int| membros_de(v@[i]@)))),
        Ok(None) => Ok(None),
        Err(m) => Err(m@),
    }
}

/// What a JSON parser says of a body: the members of each item of the list that it writes, none
/// for an item that is no object; nothing where it writes something else than a list; the words
/// of the refusal where it is not JSON.
pub uninterp spec fn lista_do_corpo(corpo: Seq<u8>) -> Result<
    Option<Seq<Seq<(Seq<char>, Option<Seq<char>>)>>>,
    Seq<char>,
>;

/// Parses a body.
///
/// `serde_json::from_slice` into a `serde_json::Value`, then `Value::as_array`,
/// `Value::as_object` on each item and `Value::as_str` on each member; the refusal is the text of
/// `serde_json::Error`. Claimed is only that the result is one of the bytes alone.
#[verifier::external_body]
fn ler_corpo(corpo: &[u8]) -> (r: Result<Option<Vec<Membros>>, String>)
    ensures
        lista_vista(r) == lista_do_corpo(corpo@),
{
    let valor: serde_json::Value = serde_json::from_slice(corpo).map_err(|e| e.to_string())?;
    Ok(valor.as_array().map(|itens| {
        itens.iter().map(|item| {
            item.as_object().into_iter().flatten().map(|(nome, membro)| {
                (nome.clone(), membro.as_str().map(String::from))
            }).collect()
        }).collect()
    }))
}

/// The text of the first member of an object with a given name, where it is one.
pub open spec fn texto_do_membro(m: Seq<(Seq<char>, Option<Seq<char>>)>, nome: Seq<char>) -> Option<
    Seq<char>,
>
    decreases m.len(),
{
    if m.len() == 0 {
        None
    } else if m[0].0 == nome {
        m[0].1
    } else {
        texto_do_membro(m.skip(1), nome)
    }
}

/// The text of a member of an object.
fn texto(m: &Membros, nome: &str) -> (r: Option<String>)
    ensures
        maybe(r) == texto_do_membro(membros_de(m@), nome@),
{
    let ghost todos = membros_de(m@);
    assert(todos.skip(0) =~= todos);
    for i in 0..m.len()
        invariant
            todos == membros_de(m@),
            texto_do_membro(todos.skip(i as int), nome@) == texto_do_membro(todos, nome@),
    {
        assert(todos.skip(i as int)[0] == todos[i as int]);
        assert(todos.skip(i as int).skip(1) =~= todos.skip(i + 1));
        if same(m[i].0.as_str(), nome) {
            return m[i].1.clone();
        }
    }
    None
}

/// A ticker as it is written: its symbol, and the texts of its numbers.
#[derive(Debug)]
pub struct Escrita<T> {
    pub simbolo: T,
    pub preco: Option<T>,
    /// The opening of the 24 hours.
    pub abertura: Option<T>,
    /// The close before them.
    pub fechamento: Option<T>,
    pub volume: Option<T>,
    pub maxima: Option<T>,
    pub minima: Option<T>,
}

impl View for Escrita<String> {
    type V = Escrita<Seq<char>>;

    open spec fn view(&self) -> Escrita<Seq<char>> {
        Escrita {
            simbolo: self.simbolo@,
            preco: maybe(self.preco),
            abertura: maybe(self.abertura),
            fechamento: maybe(self.fechamento),
            volume: maybe(self.volume),
            maxima: maybe(self.maxima),
            minima: maybe(self.minima),
        }
    }
}

/// Tickers as they are written, in contracts.
pub open spec fn escritas_de(v: Seq<Escrita<String>>) -> Seq<Escrita<Seq<char>>> {
    Seq::new(v.len(), |i: int| v[i]@)
}

/// The ticker that the members of an object write: it needs a symbol.
pub open spec fn escrita_de(m: Seq<(Seq<char>, Option<Seq<char>>)>) -> Option<Escrita<Seq<char>>> {
    match texto_do_membro(m, "symbol"@) {
        Some(simbolo) => Some(
            Escrita {
                simbolo,
                preco: texto_do_membro(m, "lastPrice"@),
                abertura: texto_do_membro(m, "openPrice"@),
                fechamento: texto_do_membro(m, "prevClosePrice"@),
                volume: texto_do_membro(m, "quoteVolume"@),
                maxima: texto_do_membro(m, "highPrice"@),
                minima: texto_do_membro(m, "lowPrice"@),
            },
        ),
        None => None,
    }
}

/// Reads the ticker that the members of an object write.
fn escrita(m: &Membros) -> (r: Option<Escrita<String>>)
    ensures
        (match r {
            Some(e) => escrita_de(membros_de(m@)) == Some(e@),
            None => escrita_de(membros_de(m@)) is None,
        }),
{
    match texto(m, "symbol") {
        Some(simbolo) => Some(
            Escrita {
                simbolo,
                preco: texto(m, "lastPrice"),
                abertura: texto(m, "openPrice"),
                fechamento: texto(m, "prevClosePrice"),
                volume: texto(m, "quoteVolume"),
                maxima: texto(m, "highPrice"),
                minima: texto(m, "lowPrice"),
            },
        ),
        None => None,
    }
}

/// What the words of a parser come to: the tickers of a list, or why there is none.
pub open spec fn tickers_de(
    l: Result<Option<Seq<Seq<(Seq<char>, Option<Seq<char>>)>>>, Seq<char>>,
) -> Result<Seq<Escrita<Seq<char>>>, ErroV> {
    match l {
        Err(m) => Err(ErroV::Formato(m)),
        Ok(None) => Err(ErroV::Formato("esperava uma lista de tickers"@)),
        Ok(Some(v)) => Ok(
            picked(v, |m: Seq<(Seq<char>, Option<Seq<char>>)>| escrita_de(m)),
        ),
    }
}

/// What was read, in contracts.
pub open spec fn tickers_vistos(r: Result<Vec<Escrita<String>>, FeedError>) -> Result<
    Seq<Escrita<Seq<char>>>,
    ErroV,
> {
    match r {
        Ok(v) => Ok(escritas_de(v@)),
        Err(e) => Err(e@),
    }
}

/// Reads the tickers out of what a parser says of a body.
pub fn ler_tickers(lista: Result<Option<Vec<Membros>>, String>) -> (r: Result<
    Vec<Escrita<String>>,
    FeedError,
>)
    ensures
        tickers_vistos(r) == tickers_de(lista_vista(lista)),
{
    let v = match lista {
        Ok(Some(v)) => v,
        Ok(None) => {
            return Err(FeedError::Formato("esperava uma lista de tickers".to_owned()));
        },
        Err(m) => {
            return Err(FeedError::Formato(m));
        },
    };
    let ghost todos = Seq::new(v@.len(), |i: int| membros_de(v@[i]@));
    let ghost f = |m: Seq<(Seq<char>, Option<Seq<char>>)>| escrita_de(m);
    let mut saida: Vec<Escrita<String>> = Vec::new();
    proof {
        lemma_pick_ends(todos, f);
        assert(escritas_de(saida@) =~= picked(todos.take(0), f));
    }
    for i in 0..v.len()
        invariant
            todos == Seq::new(v@.len(), |i: int| membros_de(v@[i]@)),
            f == (|m: Seq<(Seq<char>, Option<Seq<char>>)>| escrita_de(m)),
            escritas_de(saida@) == picked(todos.take(i as int), f),
    {
        proof {
            lemma_pick(todos, f, i as int);
        }
        match escrita(&v[i]) {
            Some(e) => {
                let ghost antes = saida@;
                let ghost x = e@;
                saida.push(e);
                assert(escritas_de(saida@) =~= escritas_de(antes).push(x));
            },
            None => {},
        }
    }
    Ok(saida)
}

/// The doubles that the texts of a ticker read as, by their bit patterns.
#[derive(Clone, Copy, PartialEq, Eq, Debug, Structural)]
pub struct Numeros {
    pub preco: Option<u64>,
    pub abertura: Option<u64>,
    pub fechamento: Option<u64>,
    pub volume: Option<u64>,
    pub maxima: Option<u64>,
    pub minima: Option<u64>,
}

/// What a text reads as: nothing where there is no text.
pub open spec fn lido(t: Option<Seq<char>>, n: Option<u64>) -> Option<u64> {
    if t is Some {
        n
    } else {
        None
    }
}

fn ler(t: &Option<String>, n: Option<u64>) -> (r: Option<u64>)
    ensures
        r == lido(maybe(*t), n),
{
    if t.is_some() {
        n
    } else {
        None
    }
}

/// The quote that a ticker gives: a last price is required. The opening of the 24 hours is the
/// reference that the source itself uses.
pub open spec fn quote_do_ticker(e: Escrita<Seq<char>>, n: Numeros, agora: u64) -> Option<QuoteV> {
    match lido(e.preco, n.preco) {
        Some(preco) => Some(
            QuoteV {
                ativo: (Market::Binance, e.simbolo),
                fonte: "binance"@,
                preco,
                anterior: match lido(e.abertura, n.abertura) {
                    Some(a) => Some(a),
                    None => lido(e.fechamento, n.fechamento),
                },
                moeda: moeda_de(e.simbolo),
                grade: Grade::AoVivo,
                em: agora,
                volume: lido(e.volume, n.volume),
                max24: lido(e.maxima, n.maxima),
                min24: lido(e.minima, n.minima),
            },
        ),
        None => None,
    }
}

/// The quote that a ticker gives.
fn cotar(e: &Escrita<String>, n: Numeros, agora: u64) -> (r: Option<Quote>)
    ensures
        valor_de(r) == quote_do_ticker(e@, n, agora),
{
    match ler(&e.preco, n.preco) {
        Some(preco) => Some(
            Quote {
                ativo: AssetId::new(Market::Binance, e.simbolo.as_str()),
                fonte: "binance",
                preco,
                anterior: match ler(&e.abertura, n.abertura) {
                    Some(a) => Some(a),
                    None => ler(&e.fechamento, n.fechamento),
                },
                moeda: moeda_do_par(e.simbolo.as_str()),
                grade: Grade::AoVivo,
                em: agora,
                volume: ler(&e.volume, n.volume),
                max24: ler(&e.maxima, n.maxima),
                min24: ler(&e.minima, n.minima),
            },
        ),
        None => None,
    }
}

/// Tickers with what their texts read as, in contracts.
pub open spec fn lidas(v: Seq<(Escrita<String>, Numeros)>) -> Seq<(Escrita<Seq<char>>, Numeros)> {
    Seq::new(v.len(), |i: int| (v[i].0@, v[i].1))
}

/// What a text reads as, to a reader of texts.
pub open spec fn lido_por(t: Option<Seq<char>>, ler: spec_fn(Seq<char>) -> Option<u64>) -> Option<
    u64,
> {
    match t {
        Some(x) => ler(x),
        None => None,
    }
}

/// What the texts of a ticker read as, to a reader of texts.
pub open spec fn numeros_por(
    e: Escrita<Seq<char>>,
    ler: spec_fn(Seq<char>) -> Option<u64>,
) -> Numeros {
    Numeros {
        preco: lido_por(e.preco, ler),
        abertura: lido_por(e.abertura, ler),
        fechamento: lido_por(e.fechamento, ler),
        volume: lido_por(e.volume, ler),
        maxima: lido_por(e.maxima, ler),
        minima: lido_por(e.minima, ler),
    }
}

/// Tickers with what their texts read as, to a reader of texts.
pub open spec fn com_numeros(
    es: Seq<Escrita<Seq<char>>>,
    ler: spec_fn(Seq<char>) -> Option<u64>,
) -> Seq<(Escrita<Seq<char>>, Numeros)> {
    Seq::new(es.len(), |i: int| (es[i], numeros_por(es[i], ler)))
}

/// The quote that an item of the list gives: a symbol and a last price are required.
pub open spec fn quote_do_item(
    m: Seq<(Seq<char>, Option<Seq<char>>)>,
    ler: spec_fn(Seq<char>) -> Option<u64>,
    agora: u64,
) -> Option<QuoteV> {
    let numero = |nome: Seq<char>| lido_por(texto_do_membro(m, nome), ler);
    match (texto_do_membro(m, "symbol"@), numero("lastPrice"@)) {
        (Some(simbolo), Some(preco)) => Some(
            QuoteV {
                ativo: (Market::Binance, simbolo),
                fonte: "binance"@,
                preco,
                anterior: match numero("openPrice"@) {
                    Some(a) => Some(a),
                    None => numero("prevClosePrice"@),
                },
                moeda: moeda_de(simbolo),
                grade: Grade::AoVivo,
                em: agora,
                volume: numero("quoteVolume"@),
                max24: numero("highPrice"@),
                min24: numero("lowPrice"@),
            },
        ),
        _ => None,
    }
}

/// From a body to its quotes, in two steps: where the texts of the tickers are read by one reader
/// of texts, the quotes are those that the items of the body give to that reader, in their order.
pub proof fn lemma_do_corpo_as_cotacoes(
    itens: Seq<Seq<(Seq<char>, Option<Seq<char>>)>>,
    ler: spec_fn(Seq<char>) -> Option<u64>,
    agora: u64,
)
    ensures
        picked(
            com_numeros(
                picked(itens, |m: Seq<(Seq<char>, Option<Seq<char>>)>| escrita_de(m)),
                ler,
            ),
            |x: (Escrita<Seq<char>>, Numeros)| quote_do_ticker(x.0, x.1, agora),
        ) == picked(
            itens,
            |m: Seq<(Seq<char>, Option<Seq<char>>)>| quote_do_item(m, ler, agora),
        ),
    decreases itens.len(),
{
    let f = |m: Seq<(Seq<char>, Option<Seq<char>>)>| escrita_de(m);
    let g = |x: (Escrita<Seq<char>>, Numeros)| quote_do_ticker(x.0, x.1, agora);
    let h = |m: Seq<(Seq<char>, Option<Seq<char>>)>| quote_do_item(m, ler, agora);
    if itens.len() == 0 {
        assert(com_numeros(picked(itens, f), ler) =~= Seq::empty());
    } else {
        let a = itens.drop_last();
        let m = itens.last();
        lemma_do_corpo_as_cotacoes(a, ler, agora);
        match f(m) {
            Some(e) => {
                let antes = com_numeros(picked(a, f), ler);
                let todos = com_numeros(picked(itens, f), ler);
                assert(todos =~= antes.push((e, numeros_por(e, ler))));
                assert(todos.drop_last() =~= antes);
                assert(g(todos.last()) == h(m));
            },
            None => {
                assert(h(m) is None);
            },
        }
    }
}

// --- history -------------------------------------------------------------------------------

/// The candle length and count that suit a stretch of history.
pub open spec fn granularidade(span: Span) -> (Seq<char>, nat) {
    match span {
        Span::Dia => ("5m"@, 288),
        Span::Semana => ("1h"@, 120),
        Span::Mes => ("4h"@, 180),
        Span::SeisMeses => ("1d"@, 182),
        Span::Ano => ("1d"@, 365),
        Span::CincoAnos => ("1w"@, 260),
    }
}

/// The address of a pair's candles: each stretch in the length that suits it.
pub fn url_das_velas(simbolo: &str, span: Span) -> (r: String)
    ensures
        r@ == "https://api.binance.com/api/v3/klines?symbol="@ + simbolo@ + "&interval="@
            + granularidade(span).0 + "&limit="@ + decimal(granularidade(span).1),
{
    let (intervalo, limite): (&str, u64) = match span {
        Span::Dia => ("5m", 288),
        Span::Semana => ("1h", 120),
        Span::Mes => ("4h", 180),
        Span::SeisMeses => ("1d", 182),
        Span::Ano => ("1d", 365),
        Span::CincoAnos => ("1w", 260),
    };
    let mut r = "https://api.binance.com/api/v3/klines?symbol=".to_owned();
    r.append(simbolo);
    r.append("&interval=");
    r.append(intervalo);
    r.append("&limit=");
    r.append(dec(limite).as_str());
    r
}

/// Item `i` of a list.
pub open spec fn item(xs: Seq<Json>, i: int) -> Option<Json> {
    if i < xs.len() {
        Some(xs[i])
    } else {
        None
    }
}

/// The point that a candle gives: a positional list whose first member is the opening in
/// milliseconds and whose fifth is the close.
pub open spec fn vela_de(v: Json) -> Option<Candle> {
    match itens(Some(v)) {
        None => None,
        Some(xs) => match (natural_de(item(xs, 0)), numero_escrito(item(xs, 4))) {
            (Some(em), Some(x)) => Some(Candle { em: em / 1000, fechamento: x }),
            _ => None,
        },
    }
}

/// Item `i` of a list.
fn item_de(xs: &Vec<Json>, i: usize) -> (r: Option<&Json>)
    ensures
        visto(r) == item(xs@, i as int),
{
    if i < xs.len() {
        Some(&xs[i])
    } else {
        None
    }
}

/// Reads one candle.
fn ler_vela(v: &Json) -> (r: Option<Candle>)
    ensures
        r == vela_de(*v),
{
    match as_array(Some(v)) {
        None => None,
        Some(xs) => match (as_natural(item_de(xs, 0)), as_written(item_de(xs, 4))) {
            (Some(em), Some(x)) => Some(Candle { em: em / 1000, fechamento: x }),
            _ => None,
        },
    }
}

/// Reads the candles of a pair.
pub fn ler_klines(valor: &Json) -> (r: Result<Vec<Candle>, FeedError>)
    ensures
        (match itens(Some(*valor)) {
            None => recusou(r, "esperava uma lista de velas"@),
            Some(vs) => pontos_ou_erro(
                r,
                picked(vs, |v: Json| vela_de(v)),
                "nenhuma vela utilizável"@,
            ),
        }),
{
    let linhas = match as_array(Some(valor)) {
        Some(xs) => xs,
        None => {
            return Err(FeedError::Formato("esperava uma lista de velas".to_owned()));
        },
    };
    let ghost f = |v: Json| vela_de(v);
    let mut saida: Vec<Candle> = Vec::new();
    proof {
        lemma_pick_ends(linhas@, f);
    }
    for i in 0..linhas.len()
        invariant
            f == (|v: Json| vela_de(v)),
            saida@ == picked(linhas@.take(i as int), f),
    {
        proof {
            lemma_pick(linhas@, f, i as int);
        }
        match ler_vela(&linhas[i]) {
            Some(c) => saida.push(c),
            None => {},
        }
    }
    pontos_ou(saida, "nenhuma vela utilizável")
}

/// The exchange.
pub struct Binance {
    /// How much of the quota has been spent, as the source itself reports; 0 while it has
    /// not said.
    pub peso: u64,
}

impl Binance {
    /// The pairs that this source answers for.
    pub open spec fn cobre(a: (Market, Seq<char>)) -> bool {
        a.0 == Market::Binance
    }

    /// Whether this source answers for an asset.
    pub fn covers(&self, ativo: &AssetId) -> (r: bool)
        ensures
            r == Binance::cobre(ativo@),
    {
        ativo.market == Market::Binance
    }

    /// How much of the quota has been spent, when the source has said.
    pub fn peso_usado(&self) -> (r: Option<u64>)
        ensures
            r == (if self.peso == 0 {
                None
            } else {
                Some(self.peso)
            }),
    {
        if self.peso == 0 {
            None
        } else {
            Some(self.peso)
        }
    }

    /// Hears an answer: how much of the quota it says has been spent, and the tickers that its
    /// body writes. The first is kept even where the body is of no use.
    pub fn ouvir(&mut self, resposta: Result<(Vec<u8>, Option<u64>), FeedError>) -> (r: Result<
        Vec<Escrita<String>>,
        FeedError,
    >)
        ensures
            (match resposta {
                Err(e) => r == Err::<Vec<Escrita<String>>, FeedError>(e) && *final(self) == *old(
                    self,
                ),
                Ok((corpo, peso)) => final(self).peso == (match peso {
                    Some(p) => p,
                    None => old(self).peso,
                }) && tickers_vistos(r) == tickers_de(lista_do_corpo(corpo@)),
            }),
    {
        match resposta {
            Err(e) => Err(e),
            Ok((corpo, peso)) => {
                match peso {
                    Some(p) => {
                        self.peso = p;
                    },
                    None => {},
                }
                ler_tickers(ler_corpo(corpo.as_slice()))
            },
        }
    }

    /// The quotes of the tickers that an answer wrote, given what their texts read as.
    pub fn quotes(&self, tickers: &Vec<(Escrita<String>, Numeros)>, agora: u64) -> (r: Vec<Quote>)
        ensures
            valores(r@) == picked(
                lidas(tickers@),
                |x: (Escrita<Seq<char>>, Numeros)| quote_do_ticker(x.0, x.1, agora),
            ),
    {
        let ghost todos = lidas(tickers@);
        let ghost f = |x: (Escrita<Seq<char>>, Numeros)| quote_do_ticker(x.0, x.1, agora);
        let mut saida: Vec<Quote> = Vec::new();
        proof {
            lemma_pick_ends(todos, f);
            assert(valores(saida@) =~= picked(todos.take(0), f));
        }
        for i in 0..tickers.len()
            invariant
                todos == lidas(tickers@),
                f == (|x: (Escrita<Seq<char>>, Numeros)| quote_do_ticker(x.0, x.1, agora)),
                valores(saida@) == picked(todos.take(i as int), f),
        {
            proof {
                lemma_pick(todos, f, i as int);
            }
            match cotar(&tickers[i].0, tickers[i].1, agora) {
                Some(q) => {
                    let ghost antes = saida@;
                    let ghost x = q@;
                    saida.push(q);
                    assert(valores(saida@) =~= valores(antes).push(x));
                },
                None => {},
            }
        }
        saida
    }
}

/// The currency is what the symbol ends in, whatever stands before it.
pub proof fn lemma_moeda_do_par(base: Seq<char>)
    ensures
        moeda_de(base + "USDT"@) == Moeda::Usdt,
        moeda_de(base + "BRL"@) == Moeda::Brl,
        moeda_de(base + "EUR"@) == Moeda::Eur,
        moeda_de(base + "USD"@) == Moeda::Usd,
        moeda_de(base + "BTC"@) == Moeda::Usdt,
{
    reveal_strlit("USDT");
    reveal_strlit("BRL");
    reveal_strlit("EUR");
    reveal_strlit("USD");
    reveal_strlit("BTC");
    let n = base.len() as int;
    let a = base + "USDT"@;
    assert(a.skip(n) =~= "USDT"@);
    let b = base + "BRL"@;
    assert(b.skip(n) =~= "BRL"@);
    assert(b[n + 2] == 'L');
    assert(finishes(b, "USDT"@) ==> b.skip(b.len() - 4)[3] == 'T');
    let c = base + "EUR"@;
    assert(c.skip(n) =~= "EUR"@);
    assert(c[n + 2] == 'R');
    assert(finishes(c, "USDT"@) ==> c.skip(c.len() - 4)[3] == 'T');
    assert(finishes(c, "BRL"@) ==> c.skip(c.len() - 3)[2] == 'L');
    let d = base + "USD"@;
    assert(d.skip(n) =~= "USD"@);
    assert(d[n + 2] == 'D');
    assert(finishes(d, "USDT"@) ==> d.skip(d.len() - 4)[3] == 'T');
    assert(finishes(d, "BRL"@) ==> d.skip(d.len() - 3)[2] == 'L');
    assert(finishes(d, "EUR"@) ==> d.skip(d.len() - 3)[2] == 'R');
    let e = base + "BTC"@;
    assert(e[n + 2] == 'C');
    assert(finishes(e, "BRL"@) ==> e.skip(e.len() - 3)[2] == 'L');
    assert(finishes(e, "EUR"@) ==> e.skip(e.len() - 3)[2] == 'R');
    assert(finishes(e, "USD"@) ==> e.skip(e.len() - 3)[2] == 'D');
}

/// The quote of an item: of the pair that the item names, in the currency that the pair ends in,
/// with each number read from the text under its name.
pub proof fn lemma_quote_do_item(
    m: Seq<(Seq<char>, Option<Seq<char>>)>,
    ler: spec_fn(Seq<char>) -> Option<u64>,
    agora: u64,
)
    ensures
        quote_do_item(m, ler, agora) is Some ==> ({
            let q = quote_do_item(m, ler, agora)->0;
            &&& q.ativo.0 == Market::Binance
            &&& texto_do_membro(m, "symbol"@) == Some(q.ativo.1)
            &&& lido_por(texto_do_membro(m, "lastPrice"@), ler) == Some(q.preco)
            &&& q.max24 == lido_por(texto_do_membro(m, "highPrice"@), ler)
            &&& q.min24 == lido_por(texto_do_membro(m, "lowPrice"@), ler)
            &&& q.volume == lido_por(texto_do_membro(m, "quoteVolume"@), ler)
            &&& lido_por(texto_do_membro(m, "openPrice"@), ler) is Some ==> q.anterior == lido_por(
                texto_do_membro(m, "openPrice"@),
                ler,
            )
            &&& q.moeda == moeda_do_ativo(q.ativo)
            &&& q.fonte == Provedor::Binance.chave()
            &&& q.grade == Grade::AoVivo
            &&& q.em == agora
        }),
        quote_do_item(m, ler, agora) is None ==> texto_do_membro(m, "symbol"@) is None || lido_por(
            texto_do_membro(m, "lastPrice"@),
            ler,
        ) is None,
{
}

/// A point is at the second that its milliseconds fall in.
pub proof fn lemma_vela_de(v: Json)
    ensures
        vela_de(v) is Some ==> ({
            let xs = itens(Some(v))->0;
            let c = vela_de(v)->0;
            &&& xs.len() > 4
            &&& natural_de(Some(xs[0])) is Some
            &&& c.em * 1000 <= natural_de(Some(xs[0]))->0 < c.em * 1000 + 1000
            &&& numero_escrito(Some(xs[4])) == Some(c.fechamento)
        }),
{
}

/// What a percent sign and two digits stand for, and any other character.
pub open spec fn desfeito(s: Seq<char>) -> Seq<u8>
    decreases s.len(),
{
    if s.len() == 0 {
        Seq::empty()
    } else if s[0] == '%' && s.len() >= 3 {
        seq![hex_value(s.subrange(1, 3)) as u8] + desfeito(s.skip(3))
    } else {
        seq![s[0] as u8] + desfeito(s.skip(1))
    }
}

proof fn lemma_um_byte(b: u8, resto: Seq<char>)
    ensures
        desfeito(byte_na_query(b) + resto) == seq![b] + desfeito(resto),
{
    let s = byte_na_query(b) + resto;
    if inocente(b) {
        assert(s[0] == b as char);
        assert(s.skip(1) =~= resto);
        assert(s[0] as u8 == b);
    } else {
        let x = digito_hex((b / 16) as nat);
        let y = digito_hex((b % 16) as nat);
        assert(s[0] == '%' && s[1] == x && s[2] == y);
        assert(s.skip(3) =~= resto);
        assert(s.subrange(1, 3) =~= seq![x, y]);
        reveal_with_fuel(hex_value, 4);
        assert(seq![x, y].drop_last() =~= seq![x]);
        assert(seq![x].drop_last() =~= Seq::<char>::empty());
        assert(hex_value(seq![x, y]) == b);
    }
}

proof fn lemma_query_da_frente(bs: Seq<u8>)
    requires
        bs.len() > 0,
    ensures
        na_query(bs) == byte_na_query(bs[0]) + na_query(bs.skip(1)),
    decreases bs.len(),
{
    if bs.len() == 1 {
        assert(bs.drop_last() =~= Seq::empty());
        assert(bs.skip(1) =~= Seq::empty());
        assert(na_query(bs) =~= byte_na_query(bs[0]) + na_query(bs.skip(1)));
    } else {
        lemma_query_da_frente(bs.drop_last());
        assert(bs.drop_last().skip(1) =~= bs.skip(1).drop_last());
        assert(na_query(bs) =~= byte_na_query(bs[0]) + na_query(bs.skip(1)));
    }
}

/// What is written into an address reads back as the bytes it stands for.
pub proof fn lemma_query_volta(bs: Seq<u8>)
    ensures
        desfeito(na_query(bs)) == bs,
    decreases bs.len(),
{
    if bs.len() > 0 {
        lemma_query_da_frente(bs);
        lemma_query_volta(bs.skip(1));
        lemma_um_byte(bs[0], na_query(bs.skip(1)));
        assert(seq![bs[0]] + bs.skip(1) =~= bs);
    } else {
        assert(desfeito(na_query(bs)) =~= bs);
    }
}

/// Letters, digits and the four marks that an address may hold are written as they are; any other
/// byte becomes a percent sign and two capital digits.
pub proof fn lemma_query_limpa(b: u8)
    ensures
        ({
            let c = b as char;
            byte_na_query(b) == seq![c] <==> ('A' <= c <= 'Z' || 'a' <= c <= 'z' || '0' <= c <= '9'
                || c == '-' || c == '_' || c == '.' || c == '~')
        }),
        byte_na_query(b).len() == 1 || byte_na_query(b).len() == 3,
        forall|i: int|
            0 <= i < byte_na_query(b).len() ==> ({
                let c = #[trigger] byte_na_query(b)[i];
                'A' <= c <= 'Z' || 'a' <= c <= 'z' || '0' <= c <= '9' || c == '-' || c == '_' || c
                    == '.' || c == '~' || (c == '%' && i == 0)
            }),
{
    assert(seq![b as char].len() == 1);
    if !inocente(b) {
        assert(byte_na_query(b).len() == 3);
    }
}

} // verus!
