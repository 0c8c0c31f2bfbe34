//! Prices of Brazilian government bonds, from the Treasury's open data.

use vstd::prelude::*;
use crate::order::{goes_before, is_order, stable_order};
use crate::pick::{lemma_pick, lemma_pick_ends, picked};
use crate::text::{
    begins, chars_of, is_digit, is_without, joined, lemma_join_and_cut, lines, maybe, pieces, same,
    split, split_lines, starts_with, to_upper, trim, trimmed, uppercase, views, Cut,
};
use crate::invest::model::{vistos, AssetId, FeedError, Market, Moeda};
use crate::invest::provider::{valores, Candle, Grade, Quote, QuoteV};
use crate::invest::providers::Provedor;
use crate::invest::providers::comum::{recusou, valor_de};
use crate::invest::tempo::{
    cabe, data_em, dia_de, dias, dias_de, i32_lido, instante_em, lemma_ida_e_volta, ler_i32,
    ler_u32, local, u32_lido, BRT_OFFSET, Data,
};

verus! {

/// How much of the file is read, in bytes: the most recent days, which come first.
pub const TETO: usize = 32768;

/// The year of a maturity: the last of exactly three parts, of four digits. `31/2031` ends
/// in a year and is no date, and a key made of it would match the wrong bond.
pub open spec fn ano_do_vencimento(v: Seq<char>) -> Option<Seq<char>> {
    let p = pieces(trimmed(v), Cut::At('/'));
    if p.len() == 3 && p[2].len() == 4 && (forall|i: int|
        0 <= i < 4 ==> is_digit(#[trigger] p[2][i])) {
        Some(p[2])
    } else {
        None
    }
}

/// A character of a bond's kind as the symbol writes it: hyphens for spaces, and capitals
/// without their accents.
pub open spec fn letra(c: char) -> char {
    if c == ' ' {
        '-'
    } else if c == 'Á' || c == 'À' || c == 'Â' || c == 'Ã' {
        'A'
    } else if c == 'É' || c == 'Ê' {
        'E'
    } else if c == 'Í' {
        'I'
    } else if c == 'Ó' || c == 'Ô' || c == 'Õ' {
        'O'
    } else if c == 'Ú' {
        'U'
    } else if c == 'Ç' {
        'C'
    } else {
        c
    }
}

/// The symbol of a bond whose kind is already in capitals: `TESOURO-SELIC-2031`.
pub open spec fn chave_em_maiusculas(tipo: Seq<char>, vencimento: Seq<char>) -> Option<Seq<char>> {
    match ano_do_vencimento(vencimento) {
        Some(ano) => Some(tipo.map_values(|c: char| letra(c)) + "-"@ + ano),
        None => None,
    }
}

/// One character as the symbol writes it.
fn letra_de(c: char) -> (r: char)
    ensures
        r == letra(c),
{
    if c == ' ' {
        '-'
    } else if c == 'Á' || c == 'À' || c == 'Â' || c == 'Ã' {
        'A'
    } else if c == 'É' || c == 'Ê' {
        'E'
    } else if c == 'Í' {
        'I'
    } else if c == 'Ó' || c == 'Ô' || c == 'Õ' {
        'O'
    } else if c == 'Ú' {
        'U'
    } else if c == 'Ç' {
        'C'
    } else {
        c
    }
}

/// The year of a maturity.
fn ano_de(vencimento: &str) -> (r: Option<String>)
    ensures
        maybe(r) == ano_do_vencimento(vencimento@),
{
    let v = trim(vencimento);
    let mut p = split(v.as_str(), Cut::At('/'));
    let ghost ps = views(p@);
    if p.len() != 3 {
        return None;
    }
    assert(ps[2] == p@[2]@);
    let d = chars_of(p[2].as_str());
    if d.len() != 4 {
        return None;
    }
    for i in 0..4
        invariant
            d@.len() == 4,
            ps.len() == 3,
            ps[2] == d@,
            ps == pieces(trimmed(vencimento@), Cut::At('/')),
            forall|j: int| 0 <= j < i ==> is_digit(#[trigger] d@[j]),
    {
        if !('0' <= d[i] && d[i] <= '9') {
            assert(!is_digit(ps[2][i as int]));
            return None;
        }
    }
    p.pop()
}

/// The symbol of a bond whose kind is already in capitals.
pub fn chave_de_maiusculas(tipo: &str, vencimento: &str) -> (r: Option<String>)
    ensures
        maybe(r) == chave_em_maiusculas(tipo@, vencimento@),
{
    let ano = match ano_de(vencimento) {
        Some(a) => a,
        None => {
            return None;
        },
    };
    let v = chars_of(tipo);
    let mut r = String::new();
    for i in 0..v.len()
        invariant
            v@ == tipo@,
            r@ == v@.take(i as int).map_values(|c: char| letra(c)),
    {
        let c = letra_de(v[i]);
        r.push(c);
        assert(r@ =~= v@.take(i + 1).map_values(|c: char| letra(c)));
    }
    assert(v@.take(v@.len() as int) =~= v@);
    r.append("-");
    r.append(ano.as_str());
    Some(r)
}

/// The symbol of a bond, made of its kind and maturity by the rule that made the symbols
/// of the positions.
pub fn chave(tipo: &str, vencimento: &str) -> (r: Option<String>)
    ensures
        maybe(r) == chave_em_maiusculas(uppercase(trimmed(tipo@)), vencimento@),
{
    let t = trim(tipo);
    let m = to_upper(t.as_str());
    chave_de_maiusculas(m.as_str(), vencimento)
}

/// A line whose price is still to be read.
pub struct LinhaLida {
    pub chave: String,
    pub em: u64,
    /// The selling price as it is written: what is received on redemption, and so what a
    /// position is worth.
    pub bruto: String,
}

/// The columns that a line has when it is whole.
pub const COLUNAS: usize = 8;

/// The year, month and day that `dia/mes/ano` writes.
pub open spec fn dia_escrito(s: Seq<char>) -> Option<(int, int, int)> {
    let p = pieces(trimmed(s), Cut::At('/'));
    if p.len() < 3 {
        None
    } else {
        match (u32_lido(p[0]), u32_lido(p[1]), i32_lido(p[2])) {
            (Some(d), Some(m), Some(a)) => Some((a as int, m as int, d as int)),
            _ => None,
        }
    }
}

/// The last second, in Brasília, of the day that `dia/mes/ano` writes; 0 when that is before the
/// epoch.
pub open spec fn fim_do_dia(s: Seq<char>) -> Option<int> {
    match dia_escrito(s) {
        Some(t) => {
            let e = dias(t.0, t.1, t.2) * 86400 - BRT_OFFSET + 86399;
            Some(
                if e > 0 {
                    e
                } else {
                    0
                },
            )
        },
        None => None,
    }
}

/// Reads the reference day of a price as its end in Brasília: the stamp is of the day the price
/// is for, not of when it was read.
pub fn data_br(texto: &str) -> (r: Option<u64>)
    ensures
        instante_em(r) == fim_do_dia(texto@),
{
    let t = trim(texto);
    let p = split(t.as_str(), Cut::At('/'));
    assert(views(p@).len() == p@.len());
    if p.len() < 3 {
        return None;
    }
    assert(views(p@)[0] == p@[0]@ && views(p@)[1] == p@[1]@ && views(p@)[2] == p@[2]@);
    match (ler_u32(p[0].as_str()), ler_u32(p[1].as_str()), ler_i32(p[2].as_str())) {
        (Some(dia), Some(mes), Some(ano)) => {
            let e: i64 = dias_de(ano, mes, dia) * 86400 - BRT_OFFSET + 86399;
            Some(
                if e > 0 {
                    e as u64
                } else {
                    0
                },
            )
        },
        _ => None,
    }
}

/// A price of a day of the calendar, from 1970 on, is stamped in the last hour of that day in
/// Brasília, and the date of its stamp is that day.
pub proof fn lemma_fim_do_dia(s: Seq<char>, d: Data, em: u64)
    requires
        dia_escrito(s) == Some((d.ano as int, d.mes as int, d.dia as int)),
        d.valida(),
        d.ano >= 1970,
        fim_do_dia(s) == Some(em as int),
    ensures
        cabe(em, BRT_OFFSET),
        local(em, BRT_OFFSET) % 86400 / 3600 == 23,
        data_em(dia_de(em, BRT_OFFSET)) == d,
{
    let t = (d.ano as int, d.mes as int, d.dia as int);
    assert(0 <= d.n() <= 1_000_000_000_000);
    assert(local(em, BRT_OFFSET) == d.n() * 86400 + 86399);
    assert(dia_de(em, BRT_OFFSET) == d.n());
    lemma_ida_e_volta(t.0, t.1, t.2);
}

/// What a line gives: symbol, day and price. A line without all of its columns is the end
/// of a body cut short, and is left out instead of becoming half a price.
pub open spec fn linha_de(l: Seq<char>) -> Option<(Seq<char>, int, Seq<char>)> {
    let c = pieces(l, Cut::At(';'));
    if c.len() < COLUNAS {
        None
    } else {
        match (
            chave_em_maiusculas(uppercase(trimmed(c[0])), c[1]),
            fim_do_dia(c[2]),
        ) {
            (Some(k), Some(em)) => Some((k, em, c[6])),
            _ => None,
        }
    }
}

/// A line by the values it holds.
pub open spec fn lida(l: LinhaLida) -> (Seq<char>, int, Seq<char>) {
    (l.chave@, l.em as int, l.bruto@)
}

/// Lines by the values they hold.
pub open spec fn lidas(v: Seq<LinhaLida>) -> Seq<(Seq<char>, int, Seq<char>)> {
    Seq::new(v.len(), |i: int| lida(v[i]))
}

/// Reads one line.
fn ler_linha(l: &str) -> (r: Option<LinhaLida>)
    ensures
        (match r {
            Some(x) => linha_de(l@) == Some(lida(x)),
            None => linha_de(l@) is None,
        }),
{
    let c = split(l, Cut::At(';'));
    assert(views(c@).len() == c@.len());
    if c.len() < COLUNAS {
        return None;
    }
    assert(views(c@)[0] == c@[0]@ && views(c@)[1] == c@[1]@ && views(c@)[2] == c@[2]@ && views(
        c@,
    )[6] == c@[6]@);
    match (chave(c[0].as_str(), c[1].as_str()), data_br(c[2].as_str())) {
        (Some(chave), Some(em)) => Some(LinhaLida { chave, em, bruto: c[6].clone() }),
        _ => None,
    }
}

/// The lines of a text after its heading.
pub open spec fn corpo(texto: Seq<char>) -> Seq<Seq<char>> {
    if lines(texto).len() > 0 {
        lines(texto).skip(1)
    } else {
        lines(texto)
    }
}

/// Reads the lines of the file after its heading, those that are not whole left out.
pub fn ler(csv: &str) -> (r: Vec<LinhaLida>)
    ensures
        lidas(r@) == picked(corpo(csv@), |l: Seq<char>| linha_de(l)),
{
    let linhas = split_lines(csv);
    let ghost todas = views(linhas@);
    let ghost uteis = corpo(csv@);
    let ghost f = |l: Seq<char>| linha_de(l);
    let mut saida: Vec<LinhaLida> = Vec::new();
    if linhas.len() == 0 {
        assert(lidas(saida@) =~= picked(uteis, f));
        return saida;
    }
    proof {
        lemma_pick_ends(uteis, f);
        assert(lidas(saida@) =~= picked(uteis.take(0), f));
    }
    for i in 1..linhas.len()
        invariant
            todas == views(linhas@),
            uteis == todas.skip(1),
            todas.len() > 0,
            f == (|l: Seq<char>| linha_de(l)),
            lidas(saida@) == picked(uteis.take(i - 1), f),
    {
        proof {
            assert(uteis[i - 1] == linhas@[i as int]@);
            lemma_pick(uteis, f, i - 1);
        }
        match ler_linha(linhas[i].as_str()) {
            Some(x) => {
                let ghost antes = saida@;
                let ghost v = lida(x);
                saida.push(x);
                assert(lidas(saida@) =~= lidas(antes).push(v));
            },
            None => {},
        }
    }
    saida
}

/// A line with its price, the bit pattern of a double.
pub struct Linha {
    pub chave: String,
    pub em: u64,
    pub preco: u64,
}

/// A line by the values it holds.
pub open spec fn vista(l: Linha) -> (Seq<char>, u64, u64) {
    (l.chave@, l.em, l.preco)
}

/// Lines by the values they hold.
pub open spec fn vistas(v: Seq<Linha>) -> Seq<(Seq<char>, u64, u64)> {
    Seq::new(v.len(), |i: int| vista(v[i]))
}

/// The lines whose price was read, with it.
pub open spec fn com_precos(
    ls: Seq<(Seq<char>, int, Seq<char>)>,
    precos: Seq<Option<u64>>,
) -> Seq<(Seq<char>, u64, u64)>
    decreases ls.len(),
{
    if ls.len() == 0 {
        Seq::empty()
    } else {
        let p = com_precos(ls.drop_last(), precos);
        match precos[ls.len() - 1] {
            Some(v) => p.push((ls.last().0, ls.last().1 as u64, v)),
            None => p,
        }
    }
}

/// Puts lines and prices together; an error when nothing is left.
pub fn linhas_com_precos(ls: &[LinhaLida], precos: &[Option<u64>]) -> (r: Result<
    Vec<Linha>,
    FeedError,
>)
    requires
        ls@.len() == precos@.len(),
    ensures
        com_precos(lidas(ls@), precos@).len() == 0 ==> recusou(r, "nenhuma linha utilizável"@),
        com_precos(lidas(ls@), precos@).len() > 0 ==> r is Ok && vistas(r->Ok_0@) == com_precos(
            lidas(ls@),
            precos@,
        ),
{
    let mut saida: Vec<Linha> = Vec::new();
    let ghost todas = lidas(ls@);
    assert(todas.take(0) =~= Seq::empty());
    assert(vistas(saida@) =~= com_precos(todas.take(0), precos@));
    for i in 0..ls.len()
        invariant
            ls@.len() == precos@.len(),
            todas == lidas(ls@),
            vistas(saida@) == com_precos(todas.take(i as int), precos@),
    {
        assert(todas.take(i + 1).drop_last() =~= todas.take(i as int));
        match precos[i] {
            Some(v) => {
                let ghost antes = saida@;
                let l = Linha { chave: ls[i].chave.clone(), em: ls[i].em, preco: v };
                let ghost x = vista(l);
                saida.push(l);
                assert(vistas(saida@) =~= vistas(antes).push(x));
            },
            None => {},
        }
    }
    assert(todas.take(todas.len() as int) =~= todas);
    if saida.len() == 0 {
        Err(FeedError::Formato("nenhuma linha utilizável".to_owned()))
    } else {
        Ok(saida)
    }
}

/// The Treasury.
pub struct Tesouro;

impl Tesouro {
    /// The bonds that this source answers for.
    pub open spec fn cobre(a: (Market, Seq<char>)) -> bool {
        a.0 == Market::Outro && begins(a.1, "TESOURO-"@)
    }

    /// Whether this source answers for an asset. Whether the bond exists is for the answer
    /// to say.
    pub fn covers(&self, ativo: &AssetId) -> (r: bool)
        ensures
            r == Tesouro::cobre(ativo@),
    {
        ativo.market == Market::Outro && starts_with(ativo.symbol.as_str(), "TESOURO-")
    }
}

/// The newest line of a symbol that is older than a bound, the last of equals. No bound
/// takes them all.
pub open spec fn mais_nova(
    ls: Seq<(Seq<char>, u64, u64)>,
    simbolo: Seq<char>,
    antes_de: Option<u64>,
) -> Option<(Seq<char>, u64, u64)>
    decreases ls.len(),
{
    if ls.len() == 0 {
        None
    } else {
        let m = mais_nova(ls.drop_last(), simbolo, antes_de);
        let l = ls.last();
        if l.0 == simbolo && (antes_de is None || l.1 < antes_de->0) && (m is None || (m->0).1
            <= l.1) {
            Some(l)
        } else {
            m
        }
    }
}

/// The newest line of a symbol is one of its lines within the bound, and none of them is
/// newer.
pub proof fn lemma_mais_nova(
    ls: Seq<(Seq<char>, u64, u64)>,
    simbolo: Seq<char>,
    antes_de: Option<u64>,
)
    ensures
        (match mais_nova(ls, simbolo, antes_de) {
            Some(m) => ls.contains(m) && m.0 == simbolo && (antes_de is None || m.1 < antes_de->0)
                && (forall|i: int|
                0 <= i < ls.len() && (#[trigger] ls[i]).0 == simbolo && (antes_de is None
                    || ls[i].1 < antes_de->0) ==> ls[i].1 <= m.1),
            None => forall|i: int|
                0 <= i < ls.len() && (#[trigger] ls[i]).0 == simbolo ==> antes_de is Some
                    && ls[i].1 >= antes_de->0,
        }),
    decreases ls.len(),
{
    if ls.len() > 0 {
        let w = ls.drop_last();
        lemma_mais_nova(w, simbolo, antes_de);
        assert forall|i: int| 0 <= i < ls.len() - 1 implies #[trigger] ls[i] == w[i] by {}
        assert(ls[ls.len() - 1] == ls.last());
        let m = mais_nova(w, simbolo, antes_de);
        if m is Some {
            let k = choose|k: int| 0 <= k < w.len() && w[k] == m->0;
            assert(ls[k] == m->0);
        }
    }
}

/// The quote of a bond: its newest price, and the one of the day before as its previous
/// close. One price is published for each session, so it is a close and never live.
pub open spec fn quote_do_titulo(
    ls: Seq<(Seq<char>, u64, u64)>,
    ativo: (Market, Seq<char>),
) -> Option<QuoteV> {
    match mais_nova(ls, ativo.1, None) {
        None => None,
        Some(atual) => Some(
            QuoteV {
                ativo,
                fonte: "tesouro"@,
                preco: atual.2,
                anterior: match mais_nova(ls, ativo.1, Some(atual.1)) {
                    Some(l) => Some(l.2),
                    None => None,
                },
                moeda: Moeda::Brl,
                grade: Grade::Fechamento,
                em: atual.1,
                volume: None,
                max24: None,
                min24: None,
            },
        ),
    }
}

/// Finds the newest line of a symbol that is older than a bound.
fn achar_mais_nova(ls: &[Linha], simbolo: &str, antes_de: Option<u64>) -> (r: Option<usize>)
    ensures
        (match r {
            Some(i) => i < ls@.len() && mais_nova(vistas(ls@), simbolo@, antes_de) == Some(
                vista(ls@[i as int]),
            ),
            None => mais_nova(vistas(ls@), simbolo@, antes_de) is None,
        }),
{
    let mut melhor: Option<usize> = None;
    let ghost todas = vistas(ls@);
    assert(todas.take(0) =~= Seq::empty());
    for i in 0..ls.len()
        invariant
            todas == vistas(ls@),
            (match melhor {
                Some(k) => k < i && mais_nova(todas.take(i as int), simbolo@, antes_de) == Some(
                    vista(ls@[k as int]),
                ),
                None => mais_nova(todas.take(i as int), simbolo@, antes_de) is None,
            }),
    {
        assert(todas.take(i + 1).drop_last() =~= todas.take(i as int));
        assert(todas.take(i + 1).last() == vista(ls@[i as int]));
        let dentro = match antes_de {
            Some(t) => ls[i].em < t,
            None => true,
        };
        let ganha = match melhor {
            Some(k) => ls[k].em <= ls[i].em,
            None => true,
        };
        if same(ls[i].chave.as_str(), simbolo) && dentro && ganha {
            melhor = Some(i);
        }
    }
    assert(todas.take(todas.len() as int) =~= todas);
    melhor
}

/// The quote of a bond.
pub fn cotar(ativo: &AssetId, ls: &[Linha]) -> (r: Option<Quote>)
    ensures
        valor_de(r) == quote_do_titulo(vistas(ls@), ativo@),
{
    match achar_mais_nova(ls, ativo.symbol.as_str(), None) {
        None => None,
        Some(i) => {
            let anterior: Option<u64> = match achar_mais_nova(
                ls,
                ativo.symbol.as_str(),
                Some(ls[i].em),
            ) {
                Some(j) => Some(ls[j].preco),
                None => None,
            };
            Some(
                Quote {
                    ativo: ativo.clone(),
                    fonte: "tesouro",
                    preco: ls[i].preco,
                    anterior,
                    moeda: Moeda::Brl,
                    grade: Grade::Fechamento,
                    em: ls[i].em,
                    volume: None,
                    max24: None,
                    min24: None,
                },
            )
        },
    }
}

/// The points of a bond from an instant on, as they come.
pub open spec fn pontos_do_titulo(
    ls: Seq<(Seq<char>, u64, u64)>,
    simbolo: Seq<char>,
    corte: u64,
) -> Seq<Candle>
    decreases ls.len(),
{
    if ls.len() == 0 {
        Seq::empty()
    } else {
        let p = pontos_do_titulo(ls.drop_last(), simbolo, corte);
        if ls.last().0 == simbolo && ls.last().1 >= corte {
            p.push(Candle { em: ls.last().1, fechamento: ls.last().2 })
        } else {
            p
        }
    }
}

/// Points put in the order of time, equal instants as they stood.
pub open spec fn em_ordem(pontos: Seq<Candle>, r: Seq<Candle>) -> bool {
    let chaves = Seq::new(pontos.len(), |i: int| pontos[i].em as i128);
    exists|o: Seq<usize>| #[trigger]
        is_order(chaves, o) && r =~= Seq::new(pontos.len(), |i: int| pontos[o[i] as int])
}

/// Puts points in the order of time.
pub fn ordenar(pontos: &[Candle]) -> (r: Vec<Candle>)
    ensures
        em_ordem(pontos@, r@),
{
    let mut chaves: Vec<i128> = Vec::new();
    for i in 0..pontos.len()
        invariant
            chaves@ =~= Seq::new(i as nat, |k: int| pontos@[k].em as i128),
    {
        chaves.push(pontos[i].em as i128);
    }
    let o = stable_order(chaves.as_slice());
    let mut r: Vec<Candle> = Vec::new();
    for i in 0..o.len()
        invariant
            is_order(chaves@, o@),
            chaves@.len() == pontos@.len(),
            r@ =~= Seq::new(i as nat, |k: int| pontos@[o@[k] as int]),
    {
        r.push(pontos[o[i]]);
    }
    proof {
        assert(chaves@ =~= Seq::new(pontos@.len(), |i: int| pontos@[i].em as i128));
        assert(is_order(Seq::new(pontos@.len(), |i: int| pontos@[i].em as i128), o@));
    }
    r
}

/// The history of a bond from an instant on, in the order of time.
pub fn historico(ls: &[Linha], simbolo: &str, corte: u64) -> (r: Vec<Candle>)
    ensures
        em_ordem(pontos_do_titulo(vistas(ls@), simbolo@, corte), r@),
{
    let mut v: Vec<Candle> = Vec::new();
    let ghost todas = vistas(ls@);
    assert(todas.take(0) =~= Seq::empty());
    for i in 0..ls.len()
        invariant
            todas == vistas(ls@),
            v@ == pontos_do_titulo(todas.take(i as int), simbolo@, corte),
    {
        assert(todas.take(i + 1).drop_last() =~= todas.take(i as int));
        if same(ls[i].chave.as_str(), simbolo) && ls[i].em >= corte {
            v.push(Candle { em: ls[i].em, fechamento: ls[i].preco });
        }
    }
    assert(todas.take(todas.len() as int) =~= todas);
    ordenar(v.as_slice())
}

/// The quote of a bond that this source answers for.
pub open spec fn quote_do_coberto(
    ls: Seq<(Seq<char>, u64, u64)>,
    ativo: (Market, Seq<char>),
) -> Option<QuoteV> {
    if Tesouro::cobre(ativo) {
        quote_do_titulo(ls, ativo)
    } else {
        None
    }
}

impl Tesouro {
    /// Whether the file has to be fetched: one of the assets is a bond.
    pub fn precisa(&self, ativos: &[AssetId]) -> (r: bool)
        ensures
            r == exists|i: int| 0 <= i < ativos@.len() && Tesouro::cobre(#[trigger] ativos@[i]@),
    {
        for i in 0..ativos.len()
            invariant
                forall|j: int| 0 <= j < i ==> !Tesouro::cobre(#[trigger] ativos@[j]@),
        {
            if self.covers(&ativos[i]) {
                return true;
            }
        }
        false
    }

    /// What the source answers, given the lines of its file. One reading serves all the bonds;
    /// without a bond among the assets the file is not needed.
    pub fn quotes(&self, ativos: &[AssetId], linhas: Result<Vec<Linha>, FeedError>) -> (r: Result<
        Vec<Quote>,
        FeedError,
    >)
        ensures
            (exists|i: int| 0 <= i < ativos@.len() && Tesouro::cobre(#[trigger] ativos@[i]@)) ==> (
            match linhas {
                Err(e) => r == Err::<Vec<Quote>, FeedError>(e),
                Ok(ls) => r is Ok && valores(r->Ok_0@) == picked(
                    vistos(ativos@),
                    |a: (Market, Seq<char>)| quote_do_coberto(vistas(ls@), a),
                ),
            }),
            !(exists|i: int| 0 <= i < ativos@.len() && Tesouro::cobre(#[trigger] ativos@[i]@))
                ==> r is Ok && r->Ok_0@.len() == 0,
    {
        if !self.precisa(ativos) {
            return Ok(Vec::new());
        }
        let ls = match linhas {
            Ok(ls) => ls,
            Err(e) => {
                return Err(e);
            },
        };
        let ghost f = |a: (Market, Seq<char>)| quote_do_coberto(vistas(ls@), a);
        let ghost todos = vistos(ativos@);
        let mut saida: Vec<Quote> = Vec::new();
        proof {
            lemma_pick_ends(todos, f);
            assert(valores(saida@) =~= picked(todos.take(0), f));
        }
        for i in 0..ativos.len()
            invariant
                f == (|a: (Market, Seq<char>)| quote_do_coberto(vistas(ls@), a)),
                todos == vistos(ativos@),
                valores(saida@) == picked(todos.take(i as int), f),
        {
            proof {
                lemma_pick(todos, f, i as int);
            }
            if self.covers(&ativos[i]) {
                match cotar(&ativos[i], ls.as_slice()) {
                    Some(q) => {
                        let ghost antes = saida@;
                        let ghost x = q@;
                        saida.push(q);
                        assert(valores(saida@) =~= valores(antes).push(x));
                    },
                    None => {},
                }
            }
        }
        Ok(saida)
    }
}

/// Which columns of a line are read: the kind of bond, the day it matures, the day of the price,
/// and the selling price.
pub proof fn lemma_colunas(c: Seq<Seq<char>>)
    requires
        c.len() >= COLUNAS,
        forall|k: int| 0 <= k < c.len() ==> is_without(#[trigger] c[k], ';'),
        ano_do_vencimento(c[1]) is Some,
        fim_do_dia(c[2]) is Some,
    ensures
        ({
            let l = linha_de(joined(c, seq![';']));
            let x = l->0;
            &&& l is Some
            &&& x.1 == fim_do_dia(c[2])->0
            &&& x.2 == c[6]
            &&& x.0.skip(x.0.len() - 5) == seq!['-'] + ano_do_vencimento(c[1])->0
            &&& x.0.len() == uppercase(trimmed(c[0])).len() + 5
        }),
{
    lemma_join_and_cut(c, ';');
    reveal_strlit("-");
    assert("-"@ =~= seq!['-']);
    let l = linha_de(joined(c, seq![';']))->0;
    assert(l.0.skip(l.0.len() - 5) =~= seq!['-'] + ano_do_vencimento(c[1])->0);
}

/// The key of a bond has no space and no accent of those that the source writes.
pub proof fn lemma_letra(c: char)
    ensures
        letra(c) != ' ',
        !seq!['Á', 'À', 'Â', 'Ã', 'É', 'Ê', 'Í', 'Ó', 'Ô', 'Õ', 'Ú', 'Ç'].contains(letra(c)),
        'A' <= c <= 'Z' || '0' <= c <= '9' || c == '-' || c == '+' ==> letra(c) == c,
        letra(letra(c)) == letra(c),
{
    let s = seq!['Á', 'À', 'Â', 'Ã', 'É', 'Ê', 'Í', 'Ó', 'Ô', 'Õ', 'Ú', 'Ç'];
    assert forall|i: int| 0 <= i < s.len() implies #[trigger] s[i] != letra(c) by {}
}

/// The quote of a bond: in reais, the price of its newest day; the previous is that of the newest
/// day before that one.
pub proof fn lemma_quote_do_titulo(ls: Seq<(Seq<char>, u64, u64)>, ativo: (Market, Seq<char>))
    ensures
        (match quote_do_titulo(ls, ativo) {
            Some(q) => {
                &&& q.ativo == ativo
                &&& q.moeda == Moeda::Brl
                &&& q.grade == Grade::Fechamento
                &&& q.fonte == Provedor::Tesouro.chave()
                &&& ls.contains((ativo.1, q.em, q.preco))
                &&& forall|i: int|
                    0 <= i < ls.len() && (#[trigger] ls[i]).0 == ativo.1 ==> ls[i].1 <= q.em
                &&& (match q.anterior {
                    Some(p) => exists|k: int|
                        0 <= k < ls.len() && (#[trigger] ls[k]).0 == ativo.1 && ls[k].2 == p
                            && ls[k].1 < q.em && forall|i: int|
                            0 <= i < ls.len() && (#[trigger] ls[i]).0 == ativo.1 && ls[i].1 < q.em
                                ==> ls[i].1 <= ls[k].1,
                    None => forall|i: int|
                        0 <= i < ls.len() && (#[trigger] ls[i]).0 == ativo.1 ==> ls[i].1 == q.em,
                })
            },
            None => forall|i: int| 0 <= i < ls.len() ==> (#[trigger] ls[i]).0 != ativo.1,
        }),
{
    lemma_mais_nova(ls, ativo.1, None);
    match quote_do_titulo(ls, ativo) {
        Some(q) => {
            lemma_mais_nova(ls, ativo.1, Some(q.em));
            match mais_nova(ls, ativo.1, Some(q.em)) {
                Some(m) => {
                    let k = choose|k: int| 0 <= k < ls.len() && ls[k] == m;
                    assert(ls[k].0 == ativo.1);
                },
                None => {},
            }
        },
        None => {},
    }
}

/// The points of a bond: those of its lines from the cut on, as they stood.
pub proof fn lemma_pontos_do_titulo(
    ls: Seq<(Seq<char>, u64, u64)>,
    simbolo: Seq<char>,
    corte: u64,
)
    ensures
        pontos_do_titulo(ls, simbolo, corte) == picked(
            ls,
            |l: (Seq<char>, u64, u64)|
                if l.0 == simbolo && corte <= l.1 {
                    Some(Candle { em: l.1, fechamento: l.2 })
                } else {
                    None
                },
        ),
    decreases ls.len(),
{
    if ls.len() > 0 {
        lemma_pontos_do_titulo(ls.drop_last(), simbolo, corte);
    }
}

/// Points in order go from the oldest to the newest, and are those that were there.
pub proof fn lemma_em_ordem(pontos: Seq<Candle>, r: Seq<Candle>)
    requires
        em_ordem(pontos, r),
        pontos.len() <= usize::MAX,
    ensures
        r.len() == pontos.len(),
        forall|i: int, j: int| 0 <= i < j < r.len() ==> (#[trigger] r[i]).em <= (#[trigger] r[j]).em,
        forall|c: Candle| pontos.contains(c) <==> #[trigger] r.contains(c),
{
    let chaves = Seq::new(pontos.len(), |i: int| pontos[i].em as i128);
    let o = choose|o: Seq<usize>| #[trigger]
        is_order(chaves, o) && r =~= Seq::new(pontos.len(), |i: int| pontos[o[i] as int]);
    assert forall|i: int, j: int| 0 <= i < j < r.len() implies (#[trigger] r[i]).em <= (
    #[trigger] r[j]).em by {
        assert(goes_before(chaves, o[i] as int, o[j] as int));
    }
    assert forall|c: Candle| pontos.contains(c) <==> #[trigger] r.contains(c) by {
        if pontos.contains(c) {
            let i = choose|i: int| 0 <= i < pontos.len() && pontos[i] == c;
            assert(o.contains(i as usize));
            let k = choose|k: int| 0 <= k < o.len() && o[k] == i as usize;
            assert(r[k] == c);
        }
        if r.contains(c) {
            let k = choose|k: int| 0 <= k < r.len() && r[k] == c;
            assert(pontos[o[k] as int] == c);
        }
    }
}

/// Lines with their prices: a line without a price is left out, and the others stand as they did,
/// each with its own.
pub proof fn lemma_com_precos(
    ls: Seq<(Seq<char>, int, Seq<char>)>,
    precos: Seq<Option<u64>>,
) -> (ks: Seq<int>)
    requires
        ls.len() <= precos.len(),
    ensures
        ks.len() == com_precos(ls, precos).len(),
        forall|i: int|
            0 <= i < ks.len() ==> ({
                let l = com_precos(ls, precos)[i];
                &&& 0 <= #[trigger] ks[i] < ls.len()
                &&& l.0 == ls[ks[i]].0
                &&& l.1 == ls[ks[i]].1 as u64
                &&& precos[ks[i]] == Some(l.2)
            }),
        forall|i: int, j: int| 0 <= i < j < ks.len() ==> #[trigger] ks[i] < #[trigger] ks[j],
        forall|k: int| 0 <= k < ls.len() && (#[trigger] precos[k]) is Some ==> ks.contains(k),
    decreases ls.len(),
{
    if ls.len() == 0 {
        Seq::empty()
    } else {
        let n = ls.len() - 1;
        let w = ls.drop_last();
        let a = lemma_com_precos(w, precos);
        assert forall|i: int| 0 <= i < a.len() implies w[#[trigger] a[i]] == ls[a[i]] by {}
        if precos[n] is Some {
            let ks = a.push(n);
            assert forall|k: int|
                0 <= k < ls.len() && (#[trigger] precos[k]) is Some implies ks.contains(k) by {
                if k < n {
                    let i = choose|i: int| 0 <= i < a.len() && a[i] == k;
                    assert(ks[i] == k);
                } else {
                    assert(ks[ks.len() - 1] == k);
                }
            }
            ks
        } else {
            a
        }
    }
}

} // verus!
