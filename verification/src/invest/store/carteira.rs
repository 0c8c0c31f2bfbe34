//! The portfolio as rows of tables, and back.
//!
//! The tables are written anew each time instead of compared row by row: what is in memory is
//! what is in the tables. A row that cannot be read — of a market, say, that only a newer
//! version knows — is skipped, and does not bring down the others.

use vstd::prelude::*;
use crate::dict::{
    lemma_is_place, lemma_place, lemma_put_all, once, pairs, place, put, put_all, put_pair,
    put_word, under, words_of,
};
use crate::order::{is_order, lemma_already_sorted, lemma_sorted, sorted_by, stable_order};
use crate::pick::{
    lemma_pick, lemma_pick_each, lemma_pick_ends, lemma_pick_none, lemma_pick_sum, picked,
};
use crate::text::{maybe, same, views};
use crate::invest::model::{
    ativo_de, chave_de, lemma_chave_volta, lemma_moeda, vistos, AssetId, Moeda,
};
use crate::invest::portfolio::{
    mapeamentos_de, Alerta, AlvoCarteira, Ativo, Carteira, CarteiraV, Lancamento, Portfolio,
    PortfolioV, Position, Provento,
};

verus! {

/// A row of the positions.
#[derive(Debug)]
pub struct LinhaPosicao<T> {
    pub id: i64,
    pub fonte: T,
    pub conta: T,
    pub ativo: T,
    pub classe: T,
    pub quantidade: u64,
    pub preco_medio: Option<u64>,
    pub moeda: T,
    pub preco_manual: Option<u64>,
    pub preco_manual_em: Option<i64>,
    pub atualizado_em: i64,
    pub carteira: Option<T>,
}

/// A row of a table of texts that are kept in order, each once.
#[derive(Debug)]
pub struct LinhaOrdem<T> {
    pub texto: T,
    pub ordem: i64,
}

/// A row of the payments.
#[derive(Debug)]
pub struct LinhaProvento<T> {
    pub id: i64,
    pub ativo: T,
    pub tipo: T,
    pub pago_em: i64,
    pub bruto: u64,
    pub retido: u64,
    pub moeda: T,
    pub quantidade: Option<u64>,
}

/// A row of the entries.
#[derive(Debug)]
pub struct LinhaLancamento<T> {
    pub id: i64,
    pub em: i64,
    pub tipo: T,
    pub ativo: Option<T>,
    pub quantidade: u64,
    pub preco: u64,
    pub taxas: u64,
    pub valor: u64,
    pub moeda: Option<T>,
    pub nota: T,
}

/// A row of the alerts.
#[derive(Debug)]
pub struct LinhaAlerta<T> {
    pub id: i64,
    pub ativo: T,
    pub regra: T,
    pub valor: u64,
    pub ligado: i64,
    pub armado: i64,
    pub ultimo_disparo: Option<i64>,
}

/// A row of the places in target portfolios.
#[derive(Debug)]
pub struct LinhaAlvo<T> {
    pub id: i64,
    pub carteira: T,
    pub ativo: T,
    pub ordem: i64,
    pub percentual: u64,
    pub teto: Option<u64>,
}

/// The codes that this version knows, of each kind.
#[derive(Debug)]
pub struct Vocabulario {
    pub classes: Vec<String>,
    pub proventos: Vec<String>,
    pub lancamentos: Vec<String>,
    pub regras: Vec<String>,
}

/// The codes that this version knows, in contracts.
pub struct VocabularioV {
    pub classes: Seq<Seq<char>>,
    pub proventos: Seq<Seq<char>>,
    pub lancamentos: Seq<Seq<char>>,
    pub regras: Seq<Seq<char>>,
}

impl View for Vocabulario {
    type V = VocabularioV;

    open spec fn view(&self) -> VocabularioV {
        VocabularioV {
            classes: views(self.classes@),
            proventos: views(self.proventos@),
            lancamentos: views(self.lancamentos@),
            regras: views(self.regras@),
        }
    }
}

/// The tables of the portfolio.
#[derive(Debug)]
pub struct Tabelas {
    pub moeda_base: Option<String>,
    pub posicao: Vec<LinhaPosicao<String>>,
    pub watchlist: Vec<LinhaOrdem<String>>,
    pub alvo: Vec<(String, u64)>,
    pub setor: Vec<(String, String)>,
    pub feed: Vec<LinhaOrdem<String>>,
    pub mapeamento: Vec<(String, String, String)>,
    pub provento: Vec<LinhaProvento<String>>,
    pub lancamento: Vec<LinhaLancamento<String>>,
    pub alerta: Vec<LinhaAlerta<String>>,
    pub carteira: Vec<LinhaOrdem<String>>,
    pub carteira_alvo: Vec<LinhaAlvo<String>>,
}

/// The tables of the portfolio, in contracts.
pub struct TabelasV {
    pub moeda_base: Option<Seq<char>>,
    pub posicao: Seq<LinhaPosicao<Seq<char>>>,
    pub watchlist: Seq<LinhaOrdem<Seq<char>>>,
    pub alvo: Seq<(Seq<char>, u64)>,
    pub setor: Seq<(Seq<char>, Seq<char>)>,
    pub feed: Seq<LinhaOrdem<Seq<char>>>,
    pub mapeamento: Seq<(Seq<char>, Seq<char>, Seq<char>)>,
    pub provento: Seq<LinhaProvento<Seq<char>>>,
    pub lancamento: Seq<LinhaLancamento<Seq<char>>>,
    pub alerta: Seq<LinhaAlerta<Seq<char>>>,
    pub carteira: Seq<LinhaOrdem<Seq<char>>>,
    pub carteira_alvo: Seq<LinhaAlvo<Seq<char>>>,
}

impl View for LinhaPosicao<String> {
    type V = LinhaPosicao<Seq<char>>;

    open spec fn view(&self) -> LinhaPosicao<Seq<char>> {
        LinhaPosicao {
            id: self.id,
            fonte: self.fonte@,
            conta: self.conta@,
            ativo: self.ativo@,
            classe: self.classe@,
            quantidade: self.quantidade,
            preco_medio: self.preco_medio,
            moeda: self.moeda@,
            preco_manual: self.preco_manual,
            preco_manual_em: self.preco_manual_em,
            atualizado_em: self.atualizado_em,
            carteira: maybe(self.carteira),
        }
    }
}

impl View for LinhaOrdem<String> {
    type V = LinhaOrdem<Seq<char>>;

    open spec fn view(&self) -> LinhaOrdem<Seq<char>> {
        LinhaOrdem { texto: self.texto@, ordem: self.ordem }
    }
}

impl View for LinhaProvento<String> {
    type V = LinhaProvento<Seq<char>>;

    open spec fn view(&self) -> LinhaProvento<Seq<char>> {
        LinhaProvento {
            id: self.id,
            ativo: self.ativo@,
            tipo: self.tipo@,
            pago_em: self.pago_em,
            bruto: self.bruto,
            retido: self.retido,
            moeda: self.moeda@,
            quantidade: self.quantidade,
        }
    }
}

impl View for LinhaLancamento<String> {
    type V = LinhaLancamento<Seq<char>>;

    open spec fn view(&self) -> LinhaLancamento<Seq<char>> {
        LinhaLancamento {
            id: self.id,
            em: self.em,
            tipo: self.tipo@,
            ativo: maybe(self.ativo),
            quantidade: self.quantidade,
            preco: self.preco,
            taxas: self.taxas,
            valor: self.valor,
            moeda: maybe(self.moeda),
            nota: self.nota@,
        }
    }
}

impl View for LinhaAlerta<String> {
    type V = LinhaAlerta<Seq<char>>;

    open spec fn view(&self) -> LinhaAlerta<Seq<char>> {
        LinhaAlerta {
            id: self.id,
            ativo: self.ativo@,
            regra: self.regra@,
            valor: self.valor,
            ligado: self.ligado,
            armado: self.armado,
            ultimo_disparo: self.ultimo_disparo,
        }
    }
}

impl View for LinhaAlvo<String> {
    type V = LinhaAlvo<Seq<char>>;

    open spec fn view(&self) -> LinhaAlvo<Seq<char>> {
        LinhaAlvo {
            id: self.id,
            carteira: self.carteira@,
            ativo: self.ativo@,
            ordem: self.ordem,
            percentual: self.percentual,
            teto: self.teto,
        }
    }
}

/// The rows of the table of columns.
pub open spec fn linhas_de_colunas(v: Seq<(String, String, String)>) -> Seq<
    (Seq<char>, Seq<char>, Seq<char>),
> {
    Seq::new(v.len(), |i: int| (v[i].0@, v[i].1@, v[i].2@))
}

/// The rows of a table of texts in order.
pub open spec fn em_linhas(v: Seq<LinhaOrdem<String>>) -> Seq<LinhaOrdem<Seq<char>>> {
    Seq::new(v.len(), |i: int| v[i]@)
}

impl View for Tabelas {
    type V = TabelasV;

    open spec fn view(&self) -> TabelasV {
        TabelasV {
            moeda_base: maybe(self.moeda_base),
            posicao: Seq::new(self.posicao@.len(), |i: int| self.posicao@[i]@),
            watchlist: em_linhas(self.watchlist@),
            alvo: pairs(self.alvo@),
            setor: words_of(self.setor@),
            feed: em_linhas(self.feed@),
            mapeamento: linhas_de_colunas(self.mapeamento@),
            provento: Seq::new(self.provento@.len(), |i: int| self.provento@[i]@),
            lancamento: Seq::new(self.lancamento@.len(), |i: int| self.lancamento@[i]@),
            alerta: Seq::new(self.alerta@.len(), |i: int| self.alerta@[i]@),
            carteira: em_linhas(self.carteira@),
            carteira_alvo: Seq::new(self.carteira_alvo@.len(), |i: int| self.carteira_alvo@[i]@),
        }
    }
}

// --- instants in rows ------------------------------------------------------------------------

/// An optional instant as a row keeps it.
pub open spec fn em_linha(v: Option<u64>) -> Option<i64> {
    match v {
        Some(x) => Some(x as i64),
        None => None,
    }
}

/// An optional instant of a row.
pub open spec fn da_linha(v: Option<i64>) -> Option<u64> {
    match v {
        Some(x) => Some(x as u64),
        None => None,
    }
}

proof fn lemma_instante_volta(v: u64)
    ensures
        (v as i64) as u64 == v,
{
    assert((v as i64) as u64 == v) by (bit_vector);
}

proof fn lemma_ordem_volta(v: u32)
    ensures
        (v as i64) as u32 == v,
{
}

fn por_em_linha(v: Option<u64>) -> (r: Option<i64>)
    ensures
        r == em_linha(v),
{
    match v {
        Some(x) => Some(x as i64),
        None => None,
    }
}

fn ler_da_linha(v: Option<i64>) -> (r: Option<u64>)
    ensures
        r == da_linha(v),
{
    match v {
        Some(x) => Some(x as u64),
        None => None,
    }
}

fn copia(v: &Option<String>) -> (r: Option<String>)
    ensures
        maybe(r) == maybe(*v),
{
    match v {
        Some(s) => Some(s.clone()),
        None => None,
    }
}

/// Whether a code is one of those that are known.
fn conhecido(v: &Vec<String>, s: &str) -> (r: bool)
    ensures
        r == views(v@).contains(s@),
{
    for i in 0..v.len()
        invariant
            forall|j: int| 0 <= j < i ==> #[trigger] views(v@)[j] != s@,
    {
        assert(views(v@)[i as int] == v@[i as int]@);
        if same(v[i].as_str(), s) {
            return true;
        }
    }
    false
}

// --- reading -----------------------------------------------------------------------------------

/// The position that a row holds, where its asset, class and currency are known.
pub open spec fn posicao_lida(l: LinhaPosicao<Seq<char>>, classes: Seq<Seq<char>>) -> Option<
    Position<Seq<char>, Ativo>,
> {
    match (ativo_de(l.ativo), Moeda::de_codigo(l.moeda)) {
        (Some(ativo), Some(moeda)) => if classes.contains(l.classe) {
            Some(
                Position {
                    fonte: l.fonte,
                    conta: l.conta,
                    ativo,
                    classe: l.classe,
                    quantidade: l.quantidade,
                    preco_medio: l.preco_medio,
                    moeda,
                    preco_manual: l.preco_manual,
                    preco_manual_em: da_linha(l.preco_manual_em),
                    atualizado_em: l.atualizado_em as u64,
                    carteira: l.carteira,
                },
            )
        } else {
            None
        },
        _ => None,
    }
}

/// The payment that a row holds.
pub open spec fn provento_lido(l: LinhaProvento<Seq<char>>, tipos: Seq<Seq<char>>) -> Option<
    Provento<Seq<char>, Ativo>,
> {
    match (ativo_de(l.ativo), Moeda::de_codigo(l.moeda)) {
        (Some(ativo), Some(moeda)) => if tipos.contains(l.tipo) {
            Some(
                Provento {
                    ativo,
                    tipo: l.tipo,
                    pago_em: l.pago_em as u64,
                    bruto: l.bruto,
                    retido: l.retido,
                    moeda,
                    quantidade: l.quantidade,
                },
            )
        } else {
            None
        },
        _ => None,
    }
}

/// The entry that a row holds. An asset or a currency that is not known is left out of it,
/// and the entry stays.
pub open spec fn lancamento_lido(l: LinhaLancamento<Seq<char>>, tipos: Seq<Seq<char>>) -> Option<
    Lancamento<Seq<char>, Ativo>,
> {
    if tipos.contains(l.tipo) {
        Some(
            Lancamento {
                em: l.em as u64,
                tipo: l.tipo,
                ativo: match l.ativo {
                    Some(s) => ativo_de(s),
                    None => None,
                },
                quantidade: l.quantidade,
                preco: l.preco,
                taxas: l.taxas,
                valor: l.valor,
                moeda: match l.moeda {
                    Some(s) => Moeda::de_codigo(s),
                    None => None,
                },
                nota: l.nota,
            },
        )
    } else {
        None
    }
}

/// The alert that a row holds.
pub open spec fn alerta_lido(l: LinhaAlerta<Seq<char>>, regras: Seq<Seq<char>>) -> Option<
    Alerta<Seq<char>, Ativo>,
> {
    match ativo_de(l.ativo) {
        Some(ativo) => if regras.contains(l.regra) {
            Some(
                Alerta {
                    ativo,
                    regra: l.regra,
                    valor: l.valor,
                    ligado: l.ligado != 0,
                    armado: l.armado != 0,
                    ultimo_disparo: da_linha(l.ultimo_disparo),
                },
            )
        } else {
            None
        },
        None => None,
    }
}

/// The place in a target portfolio that a row holds.
pub open spec fn alvo_lido(l: LinhaAlvo<Seq<char>>) -> Option<AlvoCarteira<Ativo>> {
    match ativo_de(l.ativo) {
        Some(ativo) => Some(
            AlvoCarteira {
                ordem: l.ordem as u32,
                ativo,
                percentual: l.percentual,
                teto: l.teto,
            },
        ),
        None => None,
    }
}

/// The texts of a table that keeps them in order.
pub open spec fn textos(ls: Seq<LinhaOrdem<Seq<char>>>) -> Seq<Seq<char>> {
    let o = sorted_by(ls, Seq::new(ls.len(), |i: int| ls[i].ordem as i128));
    Seq::new(o.len(), |i: int| o[i].texto)
}

/// The columns by field, for each source, that rows give one after the other.
pub open spec fn mapeados(ls: Seq<(Seq<char>, Seq<char>, Seq<char>)>) -> Seq<
    (Seq<char>, Seq<(Seq<char>, Seq<char>)>),
>
    decreases ls.len(),
{
    if ls.len() == 0 {
        Seq::empty()
    } else {
        let m = mapeados(ls.drop_last());
        let l = ls.last();
        put(m, l.0, put(campos_de(m, l.0), l.1, l.2))
    }
}

/// The columns of a source so far.
pub open spec fn campos_de(m: Seq<(Seq<char>, Seq<(Seq<char>, Seq<char>)>)>, f: Seq<char>) -> Seq<
    (Seq<char>, Seq<char>),
> {
    match under(m, f) {
        Some(c) => c,
        None => Seq::empty(),
    }
}

/// A row, where it is of this target portfolio.
pub open spec fn so_desta(l: LinhaAlvo<Seq<char>>, nome: Seq<char>) -> Option<
    LinhaAlvo<Seq<char>>,
> {
    if l.carteira == nome {
        Some(l)
    } else {
        None
    }
}

/// The rows of one target portfolio.
pub open spec fn da_carteira(ls: Seq<LinhaAlvo<Seq<char>>>, nome: Seq<char>) -> Seq<
    LinhaAlvo<Seq<char>>,
> {
    picked(ls, |l: LinhaAlvo<Seq<char>>| so_desta(l, nome))
}

/// The places of one target portfolio: its rows by `ordem`, then by `id`.
pub open spec fn alvos_lidos(ls: Seq<LinhaAlvo<Seq<char>>>, nome: Seq<char>) -> Seq<
    AlvoCarteira<Ativo>,
> {
    let por_id = sorted_by(ls, Seq::new(ls.len(), |i: int| ls[i].id as i128));
    let minhas = da_carteira(por_id, nome);
    let em_ordem = sorted_by(minhas, Seq::new(minhas.len(), |i: int| minhas[i].ordem as i128));
    picked(em_ordem, |l: LinhaAlvo<Seq<char>>| alvo_lido(l))
}

/// The portfolio that tables hold.
pub open spec fn portfolio_lido(t: TabelasV, v: VocabularioV) -> PortfolioV {
    let nomes = textos(t.carteira);
    PortfolioV {
        moeda_base: match t.moeda_base {
            Some(s) => match Moeda::de_codigo(s) {
                Some(m) => m,
                None => Moeda::Brl,
            },
            None => Moeda::Brl,
        },
        posicoes: picked(
            sorted_by(t.posicao, Seq::new(t.posicao.len(), |i: int| t.posicao[i].id as i128)),
            |l: LinhaPosicao<Seq<char>>| posicao_lida(l, v.classes),
        ),
        watchlist: picked(textos(t.watchlist), |s: Seq<char>| ativo_de(s)),
        alvos: put_all(Seq::empty(), t.alvo),
        setores: put_all(Seq::empty(), t.setor),
        feeds: textos(t.feed),
        mapeamentos: mapeados(t.mapeamento),
        proventos: picked(
            sorted_by(t.provento, Seq::new(t.provento.len(), |i: int| t.provento[i].id as i128)),
            |l: LinhaProvento<Seq<char>>| provento_lido(l, v.proventos),
        ),
        lancamentos: picked(
            sorted_by(
                t.lancamento,
                Seq::new(t.lancamento.len(), |i: int| t.lancamento[i].id as i128),
            ),
            |l: LinhaLancamento<Seq<char>>| lancamento_lido(l, v.lancamentos),
        ),
        alertas: picked(
            sorted_by(t.alerta, Seq::new(t.alerta.len(), |i: int| t.alerta[i].id as i128)),
            |l: LinhaAlerta<Seq<char>>| alerta_lido(l, v.regras),
        ),
        carteiras: Seq::new(
            nomes.len(),
            |i: int| CarteiraV { nome: nomes[i], alvos: alvos_lidos(t.carteira_alvo, nomes[i]) },
        ),
    }
}

fn ler_posicao(l: &LinhaPosicao<String>, classes: &Vec<String>) -> (r: Option<
    Position<String, AssetId>,
>)
    ensures
        (match r {
            Some(p) => posicao_lida(l@, views(classes@)) == Some(p@),
            None => posicao_lida(l@, views(classes@)) is None,
        }),
{
    match (AssetId::parse(l.ativo.as_str()), Moeda::parse(l.moeda.as_str())) {
        (Some(ativo), Some(moeda)) => if conhecido(classes, l.classe.as_str()) {
            Some(
                Position {
                    fonte: l.fonte.clone(),
                    conta: l.conta.clone(),
                    ativo,
                    classe: l.classe.clone(),
                    quantidade: l.quantidade,
                    preco_medio: l.preco_medio,
                    moeda,
                    preco_manual: l.preco_manual,
                    preco_manual_em: ler_da_linha(l.preco_manual_em),
                    atualizado_em: l.atualizado_em as u64,
                    carteira: copia(&l.carteira),
                },
            )
        } else {
            None
        },
        _ => None,
    }
}

fn ler_provento(l: &LinhaProvento<String>, tipos: &Vec<String>) -> (r: Option<
    Provento<String, AssetId>,
>)
    ensures
        (match r {
            Some(p) => provento_lido(l@, views(tipos@)) == Some(p@),
            None => provento_lido(l@, views(tipos@)) is None,
        }),
{
    match (AssetId::parse(l.ativo.as_str()), Moeda::parse(l.moeda.as_str())) {
        (Some(ativo), Some(moeda)) => if conhecido(tipos, l.tipo.as_str()) {
            Some(
                Provento {
                    ativo,
                    tipo: l.tipo.clone(),
                    pago_em: l.pago_em as u64,
                    bruto: l.bruto,
                    retido: l.retido,
                    moeda,
                    quantidade: l.quantidade,
                },
            )
        } else {
            None
        },
        _ => None,
    }
}

fn ler_lancamento(l: &LinhaLancamento<String>, tipos: &Vec<String>) -> (r: Option<
    Lancamento<String, AssetId>,
>)
    ensures
        (match r {
            Some(p) => lancamento_lido(l@, views(tipos@)) == Some(p@),
            None => lancamento_lido(l@, views(tipos@)) is None,
        }),
{
    if !conhecido(tipos, l.tipo.as_str()) {
        return None;
    }
    let ativo = match &l.ativo {
        Some(s) => AssetId::parse(s.as_str()),
        None => None,
    };
    let moeda = match &l.moeda {
        Some(s) => Moeda::parse(s.as_str()),
        None => None,
    };
    Some(
        Lancamento {
            em: l.em as u64,
            tipo: l.tipo.clone(),
            ativo,
            quantidade: l.quantidade,
            preco: l.preco,
            taxas: l.taxas,
            valor: l.valor,
            moeda,
            nota: l.nota.clone(),
        },
    )
}

fn ler_alerta(l: &LinhaAlerta<String>, regras: &Vec<String>) -> (r: Option<Alerta<String, AssetId>>)
    ensures
        (match r {
            Some(p) => alerta_lido(l@, views(regras@)) == Some(p@),
            None => alerta_lido(l@, views(regras@)) is None,
        }),
{
    match AssetId::parse(l.ativo.as_str()) {
        Some(ativo) => if conhecido(regras, l.regra.as_str()) {
            Some(
                Alerta {
                    ativo,
                    regra: l.regra.clone(),
                    valor: l.valor,
                    ligado: l.ligado != 0,
                    armado: l.armado != 0,
                    ultimo_disparo: ler_da_linha(l.ultimo_disparo),
                },
            )
        } else {
            None
        },
        None => None,
    }
}

fn ler_alvo(l: &LinhaAlvo<String>) -> (r: Option<AlvoCarteira<AssetId>>)
    ensures
        (match r {
            Some(p) => alvo_lido(l@) == Some(p@),
            None => alvo_lido(l@) is None,
        }),
{
    match AssetId::parse(l.ativo.as_str()) {
        Some(ativo) => Some(
            AlvoCarteira {
                ordem: l.ordem as u32,
                ativo,
                percentual: l.percentual,
                teto: l.teto,
            },
        ),
        None => None,
    }
}

fn ler_posicoes(ls: &Vec<LinhaPosicao<String>>, codigos: &Vec<String>) -> (r: Vec<Position<String, AssetId>>)
    ensures
        Seq::new(r@.len(), |i: int| r@[i]@) == picked(
            sorted_by(
                Seq::new(ls@.len(), |i: int| ls@[i]@),
                Seq::new(ls@.len(), |i: int| ls@[i].id as i128),
            ),
            |l: LinhaPosicao<Seq<char>>| posicao_lida(l, views(codigos@)),
        ),
{
    let ghost vs = Seq::new(ls@.len(), |i: int| ls@[i]@);
    let ghost f = |l: LinhaPosicao<Seq<char>>| posicao_lida(l, views(codigos@));
    let mut chaves: Vec<i128> = Vec::new();
    for i in 0..ls.len()
        invariant
            chaves@ =~= Seq::new(i as nat, |k: int| ls@[k].id as i128),
    {
        chaves.push(ls[i].id as i128);
    }
    let o = stable_order(chaves.as_slice());
    let ghost ord = sorted_by(vs, chaves@);
    proof {
        assert(chaves@ =~= Seq::new(ls@.len(), |i: int| ls@[i].id as i128));
        lemma_sorted(vs, chaves@, o@);
        lemma_pick_ends(ord, f);
    }
    let mut r: Vec<Position<String, AssetId>> = Vec::new();
    assert(Seq::new(r@.len(), |k: int| r@[k]@) =~= Seq::empty());
    for i in 0..o.len()
        invariant
            is_order(chaves@, o@),
            chaves@.len() == ls@.len(),
            vs == Seq::new(ls@.len(), |i: int| ls@[i]@),
            f == (|l: LinhaPosicao<Seq<char>>| posicao_lida(l, views(codigos@))),
            ord == Seq::new(vs.len(), |i: int| vs[o@[i] as int]),
            Seq::new(r@.len(), |k: int| r@[k]@) == picked(ord.take(i as int), f),
    {
        proof {
            lemma_pick(ord, f, i as int);
        }
        assert(ord[i as int] == ls@[o@[i as int] as int]@);
        match ler_posicao(&ls[o[i]], codigos) {
            Some(p) => {
                let ghost antes = Seq::new(r@.len(), |k: int| r@[k]@);
                let ghost x = p@;
                r.push(p);
                assert(Seq::new(r@.len(), |k: int| r@[k]@) =~= antes.push(x));
            },
            None => {},
        }
    }
    r
}

fn ler_proventos(ls: &Vec<LinhaProvento<String>>, codigos: &Vec<String>) -> (r: Vec<Provento<String, AssetId>>)
    ensures
        Seq::new(r@.len(), |i: int| r@[i]@) == picked(
            sorted_by(
                Seq::new(ls@.len(), |i: int| ls@[i]@),
                Seq::new(ls@.len(), |i: int| ls@[i].id as i128),
            ),
            |l: LinhaProvento<Seq<char>>| provento_lido(l, views(codigos@)),
        ),
{
    let ghost vs = Seq::new(ls@.len(), |i: int| ls@[i]@);
    let ghost f = |l: LinhaProvento<Seq<char>>| provento_lido(l, views(codigos@));
    let mut chaves: Vec<i128> = Vec::new();
    for i in 0..ls.len()
        invariant
            chaves@ =~= Seq::new(i as nat, |k: int| ls@[k].id as i128),
    {
        chaves.push(ls[i].id as i128);
    }
    let o = stable_order(chaves.as_slice());
    let ghost ord = sorted_by(vs, chaves@);
    proof {
        assert(chaves@ =~= Seq::new(ls@.len(), |i: int| ls@[i].id as i128));
        lemma_sorted(vs, chaves@, o@);
        lemma_pick_ends(ord, f);
    }
    let mut r: Vec<Provento<String, AssetId>> = Vec::new();
    assert(Seq::new(r@.len(), |k: int| r@[k]@) =~= Seq::empty());
    for i in 0..o.len()
        invariant
            is_order(chaves@, o@),
            chaves@.len() == ls@.len(),
            vs == Seq::new(ls@.len(), |i: int| ls@[i]@),
            f == (|l: LinhaProvento<Seq<char>>| provento_lido(l, views(codigos@))),
            ord == Seq::new(vs.len(), |i: int| vs[o@[i] as int]),
            Seq::new(r@.len(), |k: int| r@[k]@) == picked(ord.take(i as int), f),
    {
        proof {
            lemma_pick(ord, f, i as int);
        }
        assert(ord[i as int] == ls@[o@[i as int] as int]@);
        match ler_provento(&ls[o[i]], codigos) {
            Some(p) => {
                let ghost antes = Seq::new(r@.len(), |k: int| r@[k]@);
                let ghost x = p@;
                r.push(p);
                assert(Seq::new(r@.len(), |k: int| r@[k]@) =~= antes.push(x));
            },
            None => {},
        }
    }
    r
}

fn ler_lancamentos(ls: &Vec<LinhaLancamento<String>>, codigos: &Vec<String>) -> (r: Vec<Lancamento<String, AssetId>>)
    ensures
        Seq::new(r@.len(), |i: int| r@[i]@) == picked(
            sorted_by(
                Seq::new(ls@.len(), |i: int| ls@[i]@),
                Seq::new(ls@.len(), |i: int| ls@[i].id as i128),
            ),
            |l: LinhaLancamento<Seq<char>>| lancamento_lido(l, views(codigos@)),
        ),
{
    let ghost vs = Seq::new(ls@.len(), |i: int| ls@[i]@);
    let ghost f = |l: LinhaLancamento<Seq<char>>| lancamento_lido(l, views(codigos@));
    let mut chaves: Vec<i128> = Vec::new();
    for i in 0..ls.len()
        invariant
            chaves@ =~= Seq::new(i as nat, |k: int| ls@[k].id as i128),
    {
        chaves.push(ls[i].id as i128);
    }
    let o = stable_order(chaves.as_slice());
    let ghost ord = sorted_by(vs, chaves@);
    proof {
        assert(chaves@ =~= Seq::new(ls@.len(), |i: int| ls@[i].id as i128));
        lemma_sorted(vs, chaves@, o@);
        lemma_pick_ends(ord, f);
    }
    let mut r: Vec<Lancamento<String, AssetId>> = Vec::new();
    assert(Seq::new(r@.len(), |k: int| r@[k]@) =~= Seq::empty());
    for i in 0..o.len()
        invariant
            is_order(chaves@, o@),
            chaves@.len() == ls@.len(),
            vs == Seq::new(ls@.len(), |i: int| ls@[i]@),
            f == (|l: LinhaLancamento<Seq<char>>| lancamento_lido(l, views(codigos@))),
            ord == Seq::new(vs.len(), |i: int| vs[o@[i] as int]),
            Seq::new(r@.len(), |k: int| r@[k]@) == picked(ord.take(i as int), f),
    {
        proof {
            lemma_pick(ord, f, i as int);
        }
        assert(ord[i as int] == ls@[o@[i as int] as int]@);
        match ler_lancamento(&ls[o[i]], codigos) {
            Some(p) => {
                let ghost antes = Seq::new(r@.len(), |k: int| r@[k]@);
                let ghost x = p@;
                r.push(p);
                assert(Seq::new(r@.len(), |k: int| r@[k]@) =~= antes.push(x));
            },
            None => {},
        }
    }
    r
}

fn ler_alertas(ls: &Vec<LinhaAlerta<String>>, codigos: &Vec<String>) -> (r: Vec<Alerta<String, AssetId>>)
    ensures
        Seq::new(r@.len(), |i: int| r@[i]@) == picked(
            sorted_by(
                Seq::new(ls@.len(), |i: int| ls@[i]@),
                Seq::new(ls@.len(), |i: int| ls@[i].id as i128),
            ),
            |l: LinhaAlerta<Seq<char>>| alerta_lido(l, views(codigos@)),
        ),
{
    let ghost vs = Seq::new(ls@.len(), |i: int| ls@[i]@);
    let ghost f = |l: LinhaAlerta<Seq<char>>| alerta_lido(l, views(codigos@));
    let mut chaves: Vec<i128> = Vec::new();
    for i in 0..ls.len()
        invariant
            chaves@ =~= Seq::new(i as nat, |k: int| ls@[k].id as i128),
    {
        chaves.push(ls[i].id as i128);
    }
    let o = stable_order(chaves.as_slice());
    let ghost ord = sorted_by(vs, chaves@);
    proof {
        assert(chaves@ =~= Seq::new(ls@.len(), |i: int| ls@[i].id as i128));
        lemma_sorted(vs, chaves@, o@);
        lemma_pick_ends(ord, f);
    }
    let mut r: Vec<Alerta<String, AssetId>> = Vec::new();
    assert(Seq::new(r@.len(), |k: int| r@[k]@) =~= Seq::empty());
    for i in 0..o.len()
        invariant
            is_order(chaves@, o@),
            chaves@.len() == ls@.len(),
            vs == Seq::new(ls@.len(), |i: int| ls@[i]@),
            f == (|l: LinhaAlerta<Seq<char>>| alerta_lido(l, views(codigos@))),
            ord == Seq::new(vs.len(), |i: int| vs[o@[i] as int]),
            Seq::new(r@.len(), |k: int| r@[k]@) == picked(ord.take(i as int), f),
    {
        proof {
            lemma_pick(ord, f, i as int);
        }
        assert(ord[i as int] == ls@[o@[i as int] as int]@);
        match ler_alerta(&ls[o[i]], codigos) {
            Some(p) => {
                let ghost antes = Seq::new(r@.len(), |k: int| r@[k]@);
                let ghost x = p@;
                r.push(p);
                assert(Seq::new(r@.len(), |k: int| r@[k]@) =~= antes.push(x));
            },
            None => {},
        }
    }
    r
}

/// Reads the texts of a table that keeps them in order.
fn ler_textos(ls: &Vec<LinhaOrdem<String>>) -> (r: Vec<String>)
    ensures
        views(r@) == textos(em_linhas(ls@)),
{
    let ghost vs = em_linhas(ls@);
    let mut chaves: Vec<i128> = Vec::new();
    for i in 0..ls.len()
        invariant
            chaves@ =~= Seq::new(i as nat, |k: int| ls@[k].ordem as i128),
    {
        chaves.push(ls[i].ordem as i128);
    }
    let o = stable_order(chaves.as_slice());
    proof {
        assert(chaves@ =~= Seq::new(vs.len(), |i: int| vs[i].ordem as i128));
        lemma_sorted(vs, chaves@, o@);
    }
    let mut r: Vec<String> = Vec::new();
    for i in 0..o.len()
        invariant
            is_order(chaves@, o@),
            chaves@.len() == ls@.len(),
            views(r@) =~= Seq::new(i as nat, |k: int| ls@[o@[k] as int].texto@),
    {
        let ghost antes = r@;
        r.push(ls[o[i]].texto.clone());
        assert(views(r@) =~= views(antes).push(ls@[o@[i as int] as int].texto@));
    }
    assert(views(r@) =~= textos(vs));
    r
}

/// Reads the assets of texts, those that cannot be read left out.
fn ler_ativos(v: &Vec<String>) -> (r: Vec<AssetId>)
    ensures
        vistos(r@) == picked(views(v@), |s: Seq<char>| ativo_de(s)),
{
    let ghost f = |s: Seq<char>| ativo_de(s);
    let ghost vs = views(v@);
    let mut r: Vec<AssetId> = Vec::new();
    proof {
        lemma_pick_ends(vs, f);
        assert(vistos(r@) =~= Seq::empty());
    }
    for i in 0..v.len()
        invariant
            f == (|s: Seq<char>| ativo_de(s)),
            vs == views(v@),
            vistos(r@) == picked(vs.take(i as int), f),
    {
        proof {
            lemma_pick(vs, f, i as int);
        }
        match AssetId::parse(v[i].as_str()) {
            Some(a) => {
                let ghost antes = r@;
                let ghost x = a@;
                r.push(a);
                assert(vistos(r@) =~= vistos(antes).push(x));
            },
            None => {},
        }
    }
    r
}

/// Reads values by name, the last of a name staying.
fn ler_numeros(ls: &Vec<(String, u64)>) -> (r: Vec<(String, u64)>)
    ensures
        pairs(r@) == put_all(Seq::empty(), pairs(ls@)),
{
    let ghost vs = pairs(ls@);
    let mut r: Vec<(String, u64)> = Vec::new();
    assert(pairs(r@) =~= put_all(Seq::empty(), vs.take(0)));
    for i in 0..ls.len()
        invariant
            vs == pairs(ls@),
            pairs(r@) == put_all(Seq::empty(), vs.take(i as int)),
    {
        assert(vs.take(i + 1).drop_last() =~= vs.take(i as int));
        put_pair(&mut r, ls[i].0.as_str(), ls[i].1);
    }
    assert(vs.take(vs.len() as int) =~= vs);
    r
}

/// Reads texts by name, the last of a name staying.
fn ler_palavras(ls: &Vec<(String, String)>) -> (r: Vec<(String, String)>)
    ensures
        words_of(r@) == put_all(Seq::empty(), words_of(ls@)),
{
    let ghost vs = words_of(ls@);
    let mut r: Vec<(String, String)> = Vec::new();
    assert(words_of(r@) =~= put_all(Seq::empty(), vs.take(0)));
    for i in 0..ls.len()
        invariant
            vs == words_of(ls@),
            words_of(r@) == put_all(Seq::empty(), vs.take(i as int)),
    {
        assert(vs.take(i + 1).drop_last() =~= vs.take(i as int));
        put_word(&mut r, ls[i].0.as_str(), ls[i].1.as_str());
    }
    assert(vs.take(vs.len() as int) =~= vs);
    r
}

/// The place of a source among those with columns.
fn achar_fonte(m: &Vec<(String, Vec<(String, String)>)>, f: &str) -> (r: Option<usize>)
    ensures
        (match r {
            Some(i) => place(mapeamentos_de(m@), f@) == Some(i as int) && i < m@.len(),
            None => place(mapeamentos_de(m@), f@) is None,
        }),
{
    let ghost p = mapeamentos_de(m@);
    for i in 0..m.len()
        invariant
            p == mapeamentos_de(m@),
            forall|j: int| 0 <= j < i ==> #[trigger] p[j].0 != f@,
    {
        assert(p[i as int].0 == m@[i as int].0@);
        if same(m[i].0.as_str(), f) {
            proof {
                lemma_is_place(p, f@, i as int);
            }
            return Some(i);
        }
    }
    proof {
        lemma_place(p, f@);
    }
    None
}

/// Reads the columns by field, for each source.
fn ler_mapeamentos(ls: &Vec<(String, String, String)>) -> (r: Vec<
    (String, Vec<(String, String)>),
>)
    ensures
        mapeamentos_de(r@) == mapeados(linhas_de_colunas(ls@)),
{
    let ghost vs = linhas_de_colunas(ls@);
    let mut r: Vec<(String, Vec<(String, String)>)> = Vec::new();
    assert(vs.take(0) =~= Seq::empty());
    assert(mapeamentos_de(r@) =~= Seq::empty());
    for i in 0..ls.len()
        invariant
            vs == linhas_de_colunas(ls@),
            mapeamentos_de(r@) == mapeados(vs.take(i as int)),
    {
        assert(vs.take(i + 1).drop_last() =~= vs.take(i as int));
        let ghost m = mapeamentos_de(r@);
        let ghost l = vs[i as int];
        match achar_fonte(&r, ls[i].0.as_str()) {
            Some(k) => {
                let (_, mut campos) = r.remove(k);
                let ghost c = words_of(campos@);
                put_word(&mut campos, ls[i].1.as_str(), ls[i].2.as_str());
                r.insert(k, (ls[i].0.clone(), campos));
                assert(mapeamentos_de(r@) =~= m.update(k as int, (l.0, put(c, l.1, l.2))));
            },
            None => {
                let mut campos: Vec<(String, String)> = Vec::new();
                assert(words_of(campos@) =~= Seq::empty());
                put_word(&mut campos, ls[i].1.as_str(), ls[i].2.as_str());
                r.push((ls[i].0.clone(), campos));
                assert(mapeamentos_de(r@) =~= m.push(
                    (l.0, put(Seq::empty(), l.1, l.2)),
                ));
            },
        }
    }
    assert(vs.take(vs.len() as int) =~= vs);
    r
}

/// The places of one target portfolio, by `ordem` and then by `id`: `por_id` lists the rows
/// of all of them by `id`.
fn ler_alvos(ls: &Vec<LinhaAlvo<String>>, por_id: &Vec<usize>, nome: &str) -> (r: Vec<
    AlvoCarteira<AssetId>,
>)
    requires
        is_order(Seq::new(ls@.len(), |i: int| ls@[i].id as i128), por_id@),
    ensures
        Seq::new(r@.len(), |i: int| r@[i]@) == alvos_lidos(
            Seq::new(ls@.len(), |i: int| ls@[i]@),
            nome@,
        ),
{
    let ghost vs = Seq::new(ls@.len(), |i: int| ls@[i]@);
    let ghost ids = Seq::new(vs.len(), |i: int| vs[i].id as i128);
    let ghost ord = sorted_by(vs, ids);
    let ghost g = |l: LinhaAlvo<Seq<char>>| so_desta(l, nome@);
    proof {
        assert(ids =~= Seq::new(ls@.len(), |i: int| ls@[i].id as i128));
        lemma_sorted(vs, ids, por_id@);
        lemma_pick_ends(ord, g);
    }
    let mut minhas: Vec<&LinhaAlvo<String>> = Vec::new();
    assert(Seq::new(minhas@.len(), |k: int| minhas@[k]@) =~= Seq::empty());
    for i in 0..por_id.len()
        invariant
            is_order(ids, por_id@),
            ids.len() == ls@.len(),
            vs == Seq::new(ls@.len(), |i: int| ls@[i]@),
            ord == Seq::new(vs.len(), |i: int| vs[por_id@[i] as int]),
            g == (|l: LinhaAlvo<Seq<char>>| so_desta(l, nome@)),
            Seq::new(minhas@.len(), |k: int| minhas@[k]@) == picked(ord.take(i as int), g),
    {
        proof {
            lemma_pick(ord, g, i as int);
        }
        let l = &ls[por_id[i]];
        assert(ord[i as int] == l@);
        if same(l.carteira.as_str(), nome) {
            let ghost antes = Seq::new(minhas@.len(), |k: int| minhas@[k]@);
            minhas.push(l);
            assert(Seq::new(minhas@.len(), |k: int| minhas@[k]@) =~= antes.push(l@));
        }
    }
    let ghost ms = Seq::new(minhas@.len(), |k: int| minhas@[k]@);
    assert(ms == da_carteira(ord, nome@));
    let mut chaves: Vec<i128> = Vec::new();
    for i in 0..minhas.len()
        invariant
            chaves@ =~= Seq::new(i as nat, |k: int| minhas@[k].ordem as i128),
    {
        chaves.push(minhas[i].ordem as i128);
    }
    let o = stable_order(chaves.as_slice());
    let ghost f = |l: LinhaAlvo<Seq<char>>| alvo_lido(l);
    let ghost fim = sorted_by(ms, chaves@);
    proof {
        assert(chaves@ =~= Seq::new(ms.len(), |i: int| ms[i].ordem as i128));
        lemma_sorted(ms, chaves@, o@);
        lemma_pick_ends(fim, f);
    }
    let mut r: Vec<AlvoCarteira<AssetId>> = Vec::new();
    assert(Seq::new(r@.len(), |k: int| r@[k]@) =~= Seq::empty());
    for i in 0..o.len()
        invariant
            is_order(chaves@, o@),
            chaves@.len() == minhas@.len(),
            ms == Seq::new(minhas@.len(), |k: int| minhas@[k]@),
            fim == Seq::new(ms.len(), |i: int| ms[o@[i] as int]),
            f == (|l: LinhaAlvo<Seq<char>>| alvo_lido(l)),
            Seq::new(r@.len(), |k: int| r@[k]@) == picked(fim.take(i as int), f),
    {
        proof {
            lemma_pick(fim, f, i as int);
        }
        assert(fim[i as int] == minhas@[o@[i as int] as int]@);
        match ler_alvo(minhas[o[i]]) {
            Some(p) => {
                let ghost antes = Seq::new(r@.len(), |k: int| r@[k]@);
                let ghost x = p@;
                r.push(p);
                assert(Seq::new(r@.len(), |k: int| r@[k]@) =~= antes.push(x));
            },
            None => {},
        }
    }
    r
}

/// Reads the target portfolios.
fn ler_carteiras(nomes: &Vec<LinhaOrdem<String>>, ls: &Vec<LinhaAlvo<String>>) -> (r: Vec<Carteira>)
    ensures
        Seq::new(r@.len(), |i: int| r@[i]@) == ({
            let ns = textos(em_linhas(nomes@));
            Seq::new(
                ns.len(),
                |i: int|
                    CarteiraV {
                        nome: ns[i],
                        alvos: alvos_lidos(Seq::new(ls@.len(), |k: int| ls@[k]@), ns[i]),
                    },
            )
        }),
{
    let ghost vs = Seq::new(ls@.len(), |k: int| ls@[k]@);
    let ns = ler_textos(nomes);
    let mut chaves: Vec<i128> = Vec::new();
    for i in 0..ls.len()
        invariant
            chaves@ =~= Seq::new(i as nat, |k: int| ls@[k].id as i128),
    {
        chaves.push(ls[i].id as i128);
    }
    let por_id = stable_order(chaves.as_slice());
    assert(chaves@ =~= Seq::new(ls@.len(), |i: int| ls@[i].id as i128));
    let mut r: Vec<Carteira> = Vec::new();
    let ghost nv = views(ns@);
    for i in 0..ns.len()
        invariant
            is_order(Seq::new(ls@.len(), |i: int| ls@[i].id as i128), por_id@),
            nv == views(ns@),
            vs == Seq::new(ls@.len(), |k: int| ls@[k]@),
            Seq::new(r@.len(), |k: int| r@[k]@) =~= Seq::new(
                i as nat,
                |k: int| CarteiraV { nome: nv[k], alvos: alvos_lidos(vs, nv[k]) },
            ),
    {
        let alvos = ler_alvos(ls, &por_id, ns[i].as_str());
        let ghost antes = Seq::new(r@.len(), |k: int| r@[k]@);
        let c = Carteira { nome: ns[i].clone(), alvos };
        assert(c@ == (CarteiraV { nome: nv[i as int], alvos: alvos_lidos(vs, nv[i as int]) }));
        let ghost x = c@;
        r.push(c);
        assert(Seq::new(r@.len(), |k: int| r@[k]@) =~= antes.push(x));
    }
    r
}

/// Reads the portfolio out of its tables.
pub fn ler_portfolio(t: &Tabelas, v: &Vocabulario) -> (r: Portfolio)
    ensures
        r@ == portfolio_lido(t@, v@),
{
    let moeda_base = match &t.moeda_base {
        Some(s) => match Moeda::parse(s.as_str()) {
            Some(m) => m,
            None => Moeda::Brl,
        },
        None => Moeda::Brl,
    };
    let favoritos = ler_textos(&t.watchlist);
    let r = Portfolio {
        moeda_base,
        posicoes: ler_posicoes(&t.posicao, &v.classes),
        watchlist: ler_ativos(&favoritos),
        alvos: ler_numeros(&t.alvo),
        setores: ler_palavras(&t.setor),
        feeds: ler_textos(&t.feed),
        mapeamentos: ler_mapeamentos(&t.mapeamento),
        proventos: ler_proventos(&t.provento, &v.proventos),
        lancamentos: ler_lancamentos(&t.lancamento, &v.lancamentos),
        alertas: ler_alertas(&t.alerta, &v.regras),
        carteiras: ler_carteiras(&t.carteira, &t.carteira_alvo),
    };
    proof {
        let tv = t@;
        assert(Seq::new(tv.posicao.len(), |i: int| tv.posicao[i].id as i128) =~= Seq::new(
            t.posicao@.len(),
            |i: int| t.posicao@[i].id as i128,
        ));
        assert(Seq::new(tv.provento.len(), |i: int| tv.provento[i].id as i128) =~= Seq::new(
            t.provento@.len(),
            |i: int| t.provento@[i].id as i128,
        ));
        assert(Seq::new(tv.lancamento.len(), |i: int| tv.lancamento[i].id as i128) =~= Seq::new(
            t.lancamento@.len(),
            |i: int| t.lancamento@[i].id as i128,
        ));
        assert(Seq::new(tv.alerta.len(), |i: int| tv.alerta[i].id as i128) =~= Seq::new(
            t.alerta@.len(),
            |i: int| t.alerta@[i].id as i128,
        ));
    }
    r
}

// --- writing -----------------------------------------------------------------------------------

/// The row of a position.
pub open spec fn linha_da_posicao(id: int, p: Position<Seq<char>, Ativo>) -> LinhaPosicao<
    Seq<char>,
> {
    LinhaPosicao {
        id: id as i64,
        fonte: p.fonte,
        conta: p.conta,
        ativo: chave_de(p.ativo),
        classe: p.classe,
        quantidade: p.quantidade,
        preco_medio: p.preco_medio,
        moeda: p.moeda.codigo(),
        preco_manual: p.preco_manual,
        preco_manual_em: em_linha(p.preco_manual_em),
        atualizado_em: p.atualizado_em as i64,
        carteira: p.carteira,
    }
}

/// The row of a payment.
pub open spec fn linha_do_provento(id: int, p: Provento<Seq<char>, Ativo>) -> LinhaProvento<
    Seq<char>,
> {
    LinhaProvento {
        id: id as i64,
        ativo: chave_de(p.ativo),
        tipo: p.tipo,
        pago_em: p.pago_em as i64,
        bruto: p.bruto,
        retido: p.retido,
        moeda: p.moeda.codigo(),
        quantidade: p.quantidade,
    }
}

/// The row of an entry.
pub open spec fn linha_do_lancamento(id: int, l: Lancamento<Seq<char>, Ativo>) -> LinhaLancamento<
    Seq<char>,
> {
    LinhaLancamento {
        id: id as i64,
        em: l.em as i64,
        tipo: l.tipo,
        ativo: match l.ativo {
            Some(a) => Some(chave_de(a)),
            None => None,
        },
        quantidade: l.quantidade,
        preco: l.preco,
        taxas: l.taxas,
        valor: l.valor,
        moeda: match l.moeda {
            Some(m) => Some(m.codigo()),
            None => None,
        },
        nota: l.nota,
    }
}

/// The row of an alert.
pub open spec fn linha_do_alerta(id: int, a: Alerta<Seq<char>, Ativo>) -> LinhaAlerta<Seq<char>> {
    LinhaAlerta {
        id: id as i64,
        ativo: chave_de(a.ativo),
        regra: a.regra,
        valor: a.valor,
        ligado: if a.ligado {
            1
        } else {
            0
        },
        armado: if a.armado {
            1
        } else {
            0
        },
        ultimo_disparo: em_linha(a.ultimo_disparo),
    }
}

/// The row of a place in a target portfolio.
pub open spec fn linha_do_alvo(
    id: int,
    carteira: Seq<char>,
    a: AlvoCarteira<Ativo>,
) -> LinhaAlvo<Seq<char>> {
    LinhaAlvo {
        id: id as i64,
        carteira,
        ativo: chave_de(a.ativo),
        ordem: a.ordem as i64,
        percentual: a.percentual,
        teto: a.teto,
    }
}

/// The rows of the first `n` texts of a list, each with its place in the list. A text that
/// comes again later has only the later row: writing it again replaces the one before.
pub open spec fn linhas_em_ordem(v: Seq<Seq<char>>, n: int) -> Seq<LinhaOrdem<Seq<char>>>
    decreases n,
{
    if n <= 0 {
        Seq::empty()
    } else {
        let p = linhas_em_ordem(v, n - 1);
        if v.skip(n).contains(v[n - 1]) {
            p
        } else {
            p.push(LinhaOrdem { texto: v[n - 1], ordem: (n - 1) as i64 })
        }
    }
}

/// The rows of the columns of one source.
pub open spec fn linhas_da_fonte(g: (Seq<char>, Seq<(Seq<char>, Seq<char>)>)) -> Seq<
    (Seq<char>, Seq<char>, Seq<char>),
> {
    Seq::new(g.1.len(), |i: int| (g.0, g.1[i].0, g.1[i].1))
}

/// The rows of the columns of all sources.
pub open spec fn linhas_do_mapa(m: Seq<(Seq<char>, Seq<(Seq<char>, Seq<char>)>)>) -> Seq<
    (Seq<char>, Seq<char>, Seq<char>),
>
    decreases m.len(),
{
    if m.len() == 0 {
        Seq::empty()
    } else {
        linhas_do_mapa(m.drop_last()) + linhas_da_fonte(m.last())
    }
}

/// The rows of the places of one target portfolio, numbered from `de` on.
pub open spec fn linhas_da_carteira(c: CarteiraV, de: nat) -> Seq<LinhaAlvo<Seq<char>>> {
    Seq::new(c.alvos.len(), |i: int| linha_do_alvo(de + i, c.nome, c.alvos[i]))
}

/// The rows of the places of all target portfolios, numbered from 1 on.
pub open spec fn linhas_dos_alvos(cs: Seq<CarteiraV>) -> Seq<LinhaAlvo<Seq<char>>>
    decreases cs.len(),
{
    if cs.len() == 0 {
        Seq::empty()
    } else {
        let p = linhas_dos_alvos(cs.drop_last());
        p + linhas_da_carteira(cs.last(), p.len() + 1)
    }
}

/// The names of target portfolios.
pub open spec fn nomes_de(cs: Seq<CarteiraV>) -> Seq<Seq<char>> {
    Seq::new(cs.len(), |i: int| cs[i].nome)
}

/// The keys of assets.
pub open spec fn chaves_de(v: Seq<Ativo>) -> Seq<Seq<char>> {
    Seq::new(v.len(), |i: int| chave_de(v[i]))
}

/// The tables of a portfolio.
pub open spec fn tabelas_de(p: PortfolioV) -> TabelasV {
    TabelasV {
        moeda_base: Some(p.moeda_base.codigo()),
        posicao: Seq::new(p.posicoes.len(), |i: int| linha_da_posicao(i + 1, p.posicoes[i])),
        watchlist: linhas_em_ordem(chaves_de(p.watchlist), p.watchlist.len() as int),
        alvo: p.alvos,
        setor: p.setores,
        feed: linhas_em_ordem(p.feeds, p.feeds.len() as int),
        mapeamento: linhas_do_mapa(p.mapeamentos),
        provento: Seq::new(p.proventos.len(), |i: int| linha_do_provento(i + 1, p.proventos[i])),
        lancamento: Seq::new(
            p.lancamentos.len(),
            |i: int| linha_do_lancamento(i + 1, p.lancamentos[i]),
        ),
        alerta: Seq::new(p.alertas.len(), |i: int| linha_do_alerta(i + 1, p.alertas[i])),
        carteira: linhas_em_ordem(nomes_de(p.carteiras), p.carteiras.len() as int),
        carteira_alvo: linhas_dos_alvos(p.carteiras),
    }
}

/// The number that the row at a place gets.
fn numero(i: usize) -> (r: i64)
    ensures
        r == (i + 1) as i64,
{
    ((i as i128) + 1) as i64
}

fn por_posicoes(v: &Vec<Position<String, AssetId>>) -> (r: Vec<LinhaPosicao<String>>)
    ensures
        r@.len() == v@.len(),
        forall|i: int|
            0 <= i < v@.len() ==> (#[trigger] r@[i])@ == linha_da_posicao(i + 1, v@[i]@),
{
    let mut r: Vec<LinhaPosicao<String>> = Vec::new();
    for i in 0..v.len()
        invariant
            r@.len() == i,
            forall|k: int| 0 <= k < i ==> (#[trigger] r@[k])@ == linha_da_posicao(k + 1, v@[k]@),
    {
        let p = &v[i];
        r.push(
            LinhaPosicao {
                id: numero(i),
                fonte: p.fonte.clone(),
                conta: p.conta.clone(),
                ativo: p.ativo.chave(),
                classe: p.classe.clone(),
                quantidade: p.quantidade,
                preco_medio: p.preco_medio,
                moeda: p.moeda.code().to_owned(),
                preco_manual: p.preco_manual,
                preco_manual_em: por_em_linha(p.preco_manual_em),
                atualizado_em: p.atualizado_em as i64,
                carteira: copia(&p.carteira),
            },
        );
    }
    r
}

fn por_proventos(v: &Vec<Provento<String, AssetId>>) -> (r: Vec<LinhaProvento<String>>)
    ensures
        r@.len() == v@.len(),
        forall|i: int|
            0 <= i < v@.len() ==> (#[trigger] r@[i])@ == linha_do_provento(i + 1, v@[i]@),
{
    let mut r: Vec<LinhaProvento<String>> = Vec::new();
    for i in 0..v.len()
        invariant
            r@.len() == i,
            forall|k: int| 0 <= k < i ==> (#[trigger] r@[k])@ == linha_do_provento(k + 1, v@[k]@),
    {
        let p = &v[i];
        r.push(
            LinhaProvento {
                id: numero(i),
                ativo: p.ativo.chave(),
                tipo: p.tipo.clone(),
                pago_em: p.pago_em as i64,
                bruto: p.bruto,
                retido: p.retido,
                moeda: p.moeda.code().to_owned(),
                quantidade: p.quantidade,
            },
        );
    }
    r
}

fn por_lancamentos(v: &Vec<Lancamento<String, AssetId>>) -> (r: Vec<LinhaLancamento<String>>)
    ensures
        r@.len() == v@.len(),
        forall|i: int|
            0 <= i < v@.len() ==> (#[trigger] r@[i])@ == linha_do_lancamento(i + 1, v@[i]@),
{
    let mut r: Vec<LinhaLancamento<String>> = Vec::new();
    for i in 0..v.len()
        invariant
            r@.len() == i,
            forall|k: int| 0 <= k < i ==> (#[trigger] r@[k])@ == linha_do_lancamento(k + 1, v@[k]@),
    {
        let p = &v[i];
        let ativo = match &p.ativo {
            Some(a) => Some(a.chave()),
            None => None,
        };
        let moeda = match p.moeda {
            Some(m) => Some(m.code().to_owned()),
            None => None,
        };
        r.push(
            LinhaLancamento {
                id: numero(i),
                em: p.em as i64,
                tipo: p.tipo.clone(),
                ativo,
                quantidade: p.quantidade,
                preco: p.preco,
                taxas: p.taxas,
                valor: p.valor,
                moeda,
                nota: p.nota.clone(),
            },
        );
    }
    r
}

fn por_alertas(v: &Vec<Alerta<String, AssetId>>) -> (r: Vec<LinhaAlerta<String>>)
    ensures
        r@.len() == v@.len(),
        forall|i: int| 0 <= i < v@.len() ==> (#[trigger] r@[i])@ == linha_do_alerta(i + 1, v@[i]@),
{
    let mut r: Vec<LinhaAlerta<String>> = Vec::new();
    for i in 0..v.len()
        invariant
            r@.len() == i,
            forall|k: int| 0 <= k < i ==> (#[trigger] r@[k])@ == linha_do_alerta(k + 1, v@[k]@),
    {
        let p = &v[i];
        r.push(
            LinhaAlerta {
                id: numero(i),
                ativo: p.ativo.chave(),
                regra: p.regra.clone(),
                valor: p.valor,
                ligado: if p.ligado {
                    1
                } else {
                    0
                },
                armado: if p.armado {
                    1
                } else {
                    0
                },
                ultimo_disparo: por_em_linha(p.ultimo_disparo),
            },
        );
    }
    r
}

/// Whether a text comes again after a place.
fn vem_depois(v: &Vec<String>, i: usize) -> (r: bool)
    requires
        i < v@.len(),
    ensures
        r == views(v@).skip(i + 1).contains(views(v@)[i as int]),
{
    let ghost vs = views(v@);
    for j in i + 1..v.len()
        invariant
            i < v@.len(),
            vs == views(v@),
            forall|k: int| i < k < j ==> #[trigger] vs[k] != vs[i as int],
    {
        assert(vs[j as int] == v@[j as int]@ && vs[i as int] == v@[i as int]@);
        if same(v[j].as_str(), v[i].as_str()) {
            assert(vs.skip(i + 1)[j - i - 1] == vs[i as int]);
            return true;
        }
    }
    proof {
        let resto = vs.skip(i + 1);
        if resto.contains(vs[i as int]) {
            let k = choose|k: int| 0 <= k < resto.len() && resto[k] == vs[i as int];
            assert(vs[i + 1 + k] == vs[i as int]);
        }
    }
    false
}

/// The rows of texts that are kept in order.
fn por_em_ordem(v: &Vec<String>) -> (r: Vec<LinhaOrdem<String>>)
    ensures
        em_linhas(r@) == linhas_em_ordem(views(v@), v@.len() as int),
{
    let ghost vs = views(v@);
    let mut r: Vec<LinhaOrdem<String>> = Vec::new();
    assert(em_linhas(r@) =~= Seq::empty());
    for i in 0..v.len()
        invariant
            vs == views(v@),
            em_linhas(r@) == linhas_em_ordem(vs, i as int),
    {
        if !vem_depois(v, i) {
            let ghost antes = em_linhas(r@);
            let l = LinhaOrdem { texto: v[i].clone(), ordem: i as i64 };
            let ghost x = l@;
            r.push(l);
            assert(em_linhas(r@) =~= antes.push(x));
        }
    }
    r
}

/// The rows of the columns of all sources.
fn por_mapeamentos(m: &Vec<(String, Vec<(String, String)>)>) -> (r: Vec<(String, String, String)>)
    ensures
        linhas_de_colunas(r@) == linhas_do_mapa(mapeamentos_de(m@)),
{
    let ghost ms = mapeamentos_de(m@);
    let mut r: Vec<(String, String, String)> = Vec::new();
    assert(linhas_de_colunas(r@) =~= Seq::empty());
    assert(ms.take(0) =~= Seq::empty());
    for i in 0..m.len()
        invariant
            ms == mapeamentos_de(m@),
            linhas_de_colunas(r@) == linhas_do_mapa(ms.take(i as int)),
    {
        assert(ms.take(i + 1).drop_last() =~= ms.take(i as int));
        let ghost antes = linhas_de_colunas(r@);
        let ghost g = ms[i as int];
        let campos = &m[i].1;
        for j in 0..campos.len()
            invariant
                i < m@.len(),
                g == (m@[i as int].0@, words_of(campos@)),
                linhas_de_colunas(r@) =~= antes + linhas_da_fonte(g).take(j as int),
        {
            let ghost ate = linhas_de_colunas(r@);
            r.push((m[i].0.clone(), campos[j].0.clone(), campos[j].1.clone()));
            assert(linhas_de_colunas(r@) =~= ate.push(linhas_da_fonte(g)[j as int]));
        }
        assert(linhas_da_fonte(g).take(campos@.len() as int) =~= linhas_da_fonte(g));
    }
    assert(ms.take(ms.len() as int) =~= ms);
    r
}

/// The rows of the places of all target portfolios.
fn por_alvos(cs: &Vec<Carteira>) -> (r: Vec<LinhaAlvo<String>>)
    ensures
        Seq::new(r@.len(), |k: int| r@[k]@) == linhas_dos_alvos(
            Seq::new(cs@.len(), |i: int| cs@[i]@),
        ),
{
    let ghost vs = Seq::new(cs@.len(), |i: int| cs@[i]@);
    let mut r: Vec<LinhaAlvo<String>> = Vec::new();
    assert(Seq::new(r@.len(), |k: int| r@[k]@) =~= Seq::empty());
    assert(vs.take(0) =~= Seq::empty());
    for i in 0..cs.len()
        invariant
            vs == Seq::new(cs@.len(), |i: int| cs@[i]@),
            Seq::new(r@.len(), |k: int| r@[k]@) == linhas_dos_alvos(vs.take(i as int)),
    {
        assert(vs.take(i + 1).drop_last() =~= vs.take(i as int));
        let ghost antes = Seq::new(r@.len(), |k: int| r@[k]@);
        let ghost c = vs[i as int];
        let ghost minhas = linhas_da_carteira(c, antes.len() + 1);
        let alvos = &cs[i].alvos;
        for j in 0..alvos.len()
            invariant
                i < cs@.len(),
                c == cs@[i as int]@,
                *alvos == cs@[i as int].alvos,
                minhas == linhas_da_carteira(c, antes.len() + 1),
                r@.len() == antes.len() + j,
                Seq::new(r@.len(), |k: int| r@[k]@) =~= antes + minhas.take(j as int),
        {
            let ghost ate = Seq::new(r@.len(), |k: int| r@[k]@);
            let a = &alvos[j];
            let l = LinhaAlvo {
                id: numero(r.len()),
                carteira: cs[i].nome.clone(),
                ativo: a.ativo.chave(),
                ordem: a.ordem as i64,
                percentual: a.percentual,
                teto: a.teto,
            };
            assert(c.alvos[j as int] == a@);
            assert(l@ == minhas[j as int]);
            let ghost x = l@;
            r.push(l);
            assert(Seq::new(r@.len(), |k: int| r@[k]@) =~= ate.push(x));
        }
        assert(minhas.take(alvos@.len() as int) =~= minhas);
    }
    assert(vs.take(vs.len() as int) =~= vs);
    r
}

fn copia_numeros(v: &Vec<(String, u64)>) -> (r: Vec<(String, u64)>)
    ensures
        pairs(r@) == pairs(v@),
{
    let mut r: Vec<(String, u64)> = Vec::new();
    for i in 0..v.len()
        invariant
            pairs(r@) =~= pairs(v@).take(i as int),
    {
        let ghost antes = pairs(r@);
        r.push((v[i].0.clone(), v[i].1));
        assert(pairs(r@) =~= antes.push(pairs(v@)[i as int]));
    }
    assert(pairs(r@) =~= pairs(v@));
    r
}

fn copia_palavras(v: &Vec<(String, String)>) -> (r: Vec<(String, String)>)
    ensures
        words_of(r@) == words_of(v@),
{
    let mut r: Vec<(String, String)> = Vec::new();
    for i in 0..v.len()
        invariant
            words_of(r@) =~= words_of(v@).take(i as int),
    {
        let ghost antes = words_of(r@);
        r.push((v[i].0.clone(), v[i].1.clone()));
        assert(words_of(r@) =~= antes.push(words_of(v@)[i as int]));
    }
    assert(words_of(r@) =~= words_of(v@));
    r
}

fn chaves_dos_ativos(v: &Vec<AssetId>) -> (r: Vec<String>)
    ensures
        views(r@) == chaves_de(vistos(v@)),
{
    let mut r: Vec<String> = Vec::new();
    for i in 0..v.len()
        invariant
            views(r@) =~= chaves_de(vistos(v@)).take(i as int),
    {
        let ghost antes = r@;
        r.push(v[i].chave());
        assert(views(r@) =~= views(antes).push(chave_de(v@[i as int]@)));
    }
    assert(views(r@) =~= chaves_de(vistos(v@)));
    r
}

fn nomes_das_carteiras(cs: &Vec<Carteira>) -> (r: Vec<String>)
    ensures
        views(r@) == nomes_de(Seq::new(cs@.len(), |i: int| cs@[i]@)),
{
    let ghost ns = nomes_de(Seq::new(cs@.len(), |i: int| cs@[i]@));
    let mut r: Vec<String> = Vec::new();
    for i in 0..cs.len()
        invariant
            ns == nomes_de(Seq::new(cs@.len(), |i: int| cs@[i]@)),
            views(r@) =~= ns.take(i as int),
    {
        let ghost antes = r@;
        r.push(cs[i].nome.clone());
        assert(views(r@) =~= views(antes).push(ns[i as int]));
    }
    assert(views(r@) =~= ns);
    r
}

/// The tables of a portfolio, whole: they take the place of whatever the tables held.
pub fn gravar_em(p: &Portfolio) -> (r: Tabelas)
    ensures
        r@ == tabelas_de(p@),
{
    let favoritos = chaves_dos_ativos(&p.watchlist);
    let nomes = nomes_das_carteiras(&p.carteiras);
    let r = Tabelas {
        moeda_base: Some(p.moeda_base.code().to_owned()),
        posicao: por_posicoes(&p.posicoes),
        watchlist: por_em_ordem(&favoritos),
        alvo: copia_numeros(&p.alvos),
        setor: copia_palavras(&p.setores),
        feed: por_em_ordem(&p.feeds),
        mapeamento: por_mapeamentos(&p.mapeamentos),
        provento: por_proventos(&p.proventos),
        lancamento: por_lancamentos(&p.lancamentos),
        alerta: por_alertas(&p.alertas),
        carteira: por_em_ordem(&nomes),
        carteira_alvo: por_alvos(&p.carteiras),
    };
    proof {
        let a = r@;
        let b = tabelas_de(p@);
        assert(views(favoritos@).len() == favoritos@.len());
        assert(views(nomes@).len() == nomes@.len());
        assert(a.posicao =~= b.posicao);
        assert(a.provento =~= b.provento);
        assert(a.lancamento =~= b.lancamento);
        assert(a.alerta =~= b.alerta);
    }
    r
}

// --- what is written is what is read -------------------------------------------------------------

/// As many rows as memory can hold.
pub open spec fn cabem(n: nat) -> bool {
    n <= isize::MAX
}

/// No text of a list comes twice.
pub open spec fn sem_repetir(v: Seq<Seq<char>>) -> bool {
    forall|i: int, j: int| 0 <= i < j < v.len() ==> #[trigger] v[i] != #[trigger] v[j]
}

/// The columns of a source: at least one, and no field twice.
pub open spec fn grupo_inteiro(g: (Seq<char>, Seq<(Seq<char>, Seq<char>)>)) -> bool {
    g.1.len() > 0 && once(g.1)
}

/// The places of a target portfolio stand in their order.
pub open spec fn em_fila(c: CarteiraV) -> bool {
    forall|i: int, j: int|
        0 <= i < j < c.alvos.len() ==> #[trigger] c.alvos[i].ordem <= #[trigger] c.alvos[j].ordem
}

/// A portfolio that the tables can hold as it is: its codes are known, what is kept by name
/// has each name once, and the places of each target portfolio stand in their order.
pub open spec fn guardavel(p: PortfolioV, v: VocabularioV) -> bool {
    &&& cabem(p.posicoes.len()) && cabem(p.watchlist.len()) && cabem(p.feeds.len())
    &&& cabem(p.proventos.len()) && cabem(p.lancamentos.len()) && cabem(p.alertas.len())
    &&& cabem(p.carteiras.len()) && cabem(linhas_dos_alvos(p.carteiras).len())
    &&& forall|i: int|
        0 <= i < p.posicoes.len() ==> v.classes.contains((#[trigger] p.posicoes[i]).classe)
    &&& forall|i: int|
        0 <= i < p.proventos.len() ==> v.proventos.contains((#[trigger] p.proventos[i]).tipo)
    &&& forall|i: int|
        0 <= i < p.lancamentos.len() ==> v.lancamentos.contains((#[trigger] p.lancamentos[i]).tipo)
    &&& forall|i: int|
        0 <= i < p.alertas.len() ==> v.regras.contains((#[trigger] p.alertas[i]).regra)
    &&& forall|i: int, j: int|
        0 <= i < j < p.watchlist.len() ==> #[trigger] p.watchlist[i] != #[trigger] p.watchlist[j]
    &&& once(p.alvos)
    &&& once(p.setores)
    &&& sem_repetir(p.feeds)
    &&& once(p.mapeamentos)
    &&& forall|i: int| 0 <= i < p.mapeamentos.len() ==> grupo_inteiro(#[trigger] p.mapeamentos[i])
    &&& sem_repetir(nomes_de(p.carteiras))
    &&& forall|i: int| 0 <= i < p.carteiras.len() ==> em_fila(#[trigger] p.carteiras[i])
}

proof fn lemma_posicao_volta(id: int, p: Position<Seq<char>, Ativo>, classes: Seq<Seq<char>>)
    requires
        classes.contains(p.classe),
    ensures
        posicao_lida(linha_da_posicao(id, p), classes) == Some(p),
{
    lemma_chave_volta(p.ativo);
    lemma_moeda(p.moeda);
    lemma_instante_volta(p.atualizado_em);
    if p.preco_manual_em is Some {
        lemma_instante_volta(p.preco_manual_em->0);
    }
}

proof fn lemma_provento_volta(id: int, p: Provento<Seq<char>, Ativo>, tipos: Seq<Seq<char>>)
    requires
        tipos.contains(p.tipo),
    ensures
        provento_lido(linha_do_provento(id, p), tipos) == Some(p),
{
    lemma_chave_volta(p.ativo);
    lemma_moeda(p.moeda);
    lemma_instante_volta(p.pago_em);
}

proof fn lemma_lancamento_volta(id: int, p: Lancamento<Seq<char>, Ativo>, tipos: Seq<Seq<char>>)
    requires
        tipos.contains(p.tipo),
    ensures
        lancamento_lido(linha_do_lancamento(id, p), tipos) == Some(p),
{
    lemma_instante_volta(p.em);
    if p.ativo is Some {
        lemma_chave_volta(p.ativo->0);
    }
    if p.moeda is Some {
        lemma_moeda(p.moeda->0);
    }
}

proof fn lemma_alerta_volta(id: int, p: Alerta<Seq<char>, Ativo>, regras: Seq<Seq<char>>)
    requires
        regras.contains(p.regra),
    ensures
        alerta_lido(linha_do_alerta(id, p), regras) == Some(p),
{
    lemma_chave_volta(p.ativo);
    if p.ultimo_disparo is Some {
        lemma_instante_volta(p.ultimo_disparo->0);
    }
}

proof fn lemma_alvo_volta(id: int, nome: Seq<char>, a: AlvoCarteira<Ativo>)
    ensures
        alvo_lido(linha_do_alvo(id, nome, a)) == Some(a),
{
    lemma_chave_volta(a.ativo);
    lemma_ordem_volta(a.ordem);
}

/// A list without repetition has a row for each of its texts.
proof fn lemma_linhas_em_ordem(v: Seq<Seq<char>>, n: int)
    requires
        sem_repetir(v),
        0 <= n <= v.len(),
    ensures
        linhas_em_ordem(v, n) == Seq::new(
            n as nat,
            |i: int| LinhaOrdem { texto: v[i], ordem: i as i64 },
        ),
    decreases n,
{
    if n > 0 {
        lemma_linhas_em_ordem(v, n - 1);
        let resto = v.skip(n);
        if resto.contains(v[n - 1]) {
            let k = choose|k: int| 0 <= k < resto.len() && resto[k] == v[n - 1];
            assert(v[n + k] == v[n - 1]);
        }
    }
    assert(linhas_em_ordem(v, n) =~= Seq::new(
        n as nat,
        |i: int| LinhaOrdem { texto: v[i], ordem: i as i64 },
    ));
}

/// A list without repetition is read back in its order.
pub proof fn lemma_lista_volta(v: Seq<Seq<char>>)
    requires
        sem_repetir(v),
        cabem(v.len()),
    ensures
        textos(linhas_em_ordem(v, v.len() as int)) == v,
{
    lemma_linhas_em_ordem(v, v.len() as int);
    let ls = linhas_em_ordem(v, v.len() as int);
    let chaves = Seq::new(ls.len(), |i: int| ls[i].ordem as i128);
    lemma_already_sorted(ls, chaves);
    assert(textos(ls) =~= v);
}

proof fn lemma_once_sem_o_ultimo<V>(l: Seq<(Seq<char>, V)>)
    requires
        l.len() > 0,
        once(l),
    ensures
        once(l.drop_last()),
{
    let a = l.drop_last();
    assert forall|i: int, j: int| 0 <= i < j < a.len() implies #[trigger] a[i].0
        != #[trigger] a[j].0 by {
        assert(l[i].0 != l[j].0);
    }
}

/// The rows of one source, read after those of others, add that source.
proof fn lemma_fonte_volta(
    antes: Seq<(Seq<char>, Seq<char>, Seq<char>)>,
    g: (Seq<char>, Seq<(Seq<char>, Seq<char>)>),
    n: int,
)
    requires
        0 < n <= g.1.len(),
        once(g.1),
        place(mapeados(antes), g.0) is None,
    ensures
        mapeados(antes + linhas_da_fonte(g).take(n)) == mapeados(antes).push((g.0, g.1.take(n))),
    decreases n,
{
    let m = mapeados(antes);
    let ls = antes + linhas_da_fonte(g).take(n);
    assert(ls.drop_last() =~= antes + linhas_da_fonte(g).take(n - 1));
    assert(ls.last() == (g.0, g.1[n - 1].0, g.1[n - 1].1));
    if n == 1 {
        assert(ls.drop_last() =~= antes);
        let c = Seq::<(Seq<char>, Seq<char>)>::empty();
        assert(put(c, g.1[0].0, g.1[0].1) =~= g.1.take(1));
        assert(mapeados(ls) =~= m.push((g.0, g.1.take(1))));
    } else {
        lemma_fonte_volta(antes, g, n - 1);
        let p = m.push((g.0, g.1.take(n - 1)));
        let k = m.len() as int;
        lemma_place(m, g.0);
        assert forall|j: int| 0 <= j < k implies #[trigger] p[j].0 != g.0 by {
            assert(p[j] == m[j]);
        }
        lemma_is_place(p, g.0, k);
        let c = g.1.take(n - 1);
        lemma_place(c, g.1[n - 1].0);
        if place(c, g.1[n - 1].0) is Some {
            let j = place(c, g.1[n - 1].0)->0;
            assert(g.1[j].0 != g.1[n - 1].0);
        }
        assert(put(c, g.1[n - 1].0, g.1[n - 1].1) =~= g.1.take(n));
        assert(p.update(k, (g.0, g.1.take(n))) =~= m.push((g.0, g.1.take(n))));
    }
}

/// The columns of the sources are read back.
pub proof fn lemma_mapa_volta(m: Seq<(Seq<char>, Seq<(Seq<char>, Seq<char>)>)>)
    requires
        once(m),
        forall|i: int| 0 <= i < m.len() ==> grupo_inteiro(#[trigger] m[i]),
    ensures
        mapeados(linhas_do_mapa(m)) == m,
    decreases m.len(),
{
    if m.len() > 0 {
        let a = m.drop_last();
        let g = m.last();
        lemma_once_sem_o_ultimo(m);
        assert forall|i: int| 0 <= i < a.len() implies grupo_inteiro(#[trigger] a[i]) by {
            assert(a[i] == m[i]);
        }
        lemma_mapa_volta(a);
        lemma_place(a, g.0);
        if place(a, g.0) is Some {
            let j = place(a, g.0)->0;
            assert(m[j].0 != m[m.len() - 1].0);
        }
        assert(grupo_inteiro(m[m.len() - 1]));
        lemma_fonte_volta(linhas_do_mapa(a), g, g.1.len() as int);
        assert(linhas_da_fonte(g).take(g.1.len() as int) =~= linhas_da_fonte(g));
        assert(g.1.take(g.1.len() as int) =~= g.1);
        assert(a.push((g.0, g.1)) =~= m);
    } else {
        assert(linhas_do_mapa(m) =~= Seq::empty());
        assert(mapeados(linhas_do_mapa(m)) =~= m);
    }
}

/// The rows of the places are numbered from 1 on.
proof fn lemma_numeros(cs: Seq<CarteiraV>, i: int)
    requires
        0 <= i < linhas_dos_alvos(cs).len(),
    ensures
        linhas_dos_alvos(cs)[i].id == (i + 1) as i64,
    decreases cs.len(),
{
    if cs.len() > 0 {
        let p = linhas_dos_alvos(cs.drop_last());
        if i < p.len() {
            lemma_numeros(cs.drop_last(), i);
        }
    }
}

/// The number of the first row of a target portfolio.
pub open spec fn inicio_da_carteira(cs: Seq<CarteiraV>, i: int) -> nat {
    linhas_dos_alvos(cs.take(i)).len() + 1
}

/// The rows of one target portfolio among those of all.
proof fn lemma_da_carteira(cs: Seq<CarteiraV>, i: int)
    requires
        0 <= i < cs.len(),
        sem_repetir(nomes_de(cs)),
    ensures
        da_carteira(linhas_dos_alvos(cs), cs[i].nome) == linhas_da_carteira(
            cs[i],
            inicio_da_carteira(cs, i),
        ),
    decreases cs.len(),
{
    let nome = cs[i].nome;
    let g = |l: LinhaAlvo<Seq<char>>| so_desta(l, nome);
    let a = cs.drop_last();
    let p = linhas_dos_alvos(a);
    let c = cs.last();
    let minhas = linhas_da_carteira(c, (p.len() + 1) as nat);
    lemma_pick_sum(p, minhas, g);
    assert forall|x: int, y: int| 0 <= x < y < a.len() implies #[trigger] nomes_de(a)[x]
        != #[trigger] nomes_de(a)[y] by {
        assert(nomes_de(cs)[x] != nomes_de(cs)[y]);
    }
    if i < a.len() {
        lemma_da_carteira(a, i);
        assert(a[i] == cs[i]);
        assert(a.take(i) =~= cs.take(i));
        assert(nomes_de(cs)[i] != nomes_de(cs)[cs.len() - 1]);
        lemma_pick_none(minhas, g);
        assert(da_carteira(p, nome) + Seq::<LinhaAlvo<Seq<char>>>::empty() =~= da_carteira(p, nome));
    } else {
        assert(cs.take(i) =~= a);
        assert forall|k: int| 0 <= k < a.len() implies #[trigger] nomes_de(a)[k] != nome by {
            assert(nomes_de(cs)[k] != nomes_de(cs)[i]);
        }
        lemma_outras(a, nome);
        lemma_pick_each(minhas, g, minhas);
        assert(Seq::<LinhaAlvo<Seq<char>>>::empty() + minhas =~= minhas);
    }
}

/// Rows of target portfolios with other names.
proof fn lemma_outras(cs: Seq<CarteiraV>, nome: Seq<char>)
    requires
        forall|i: int| 0 <= i < cs.len() ==> #[trigger] nomes_de(cs)[i] != nome,
    ensures
        da_carteira(linhas_dos_alvos(cs), nome) == Seq::<LinhaAlvo<Seq<char>>>::empty(),
    decreases cs.len(),
{
    if cs.len() > 0 {
        let g = |l: LinhaAlvo<Seq<char>>| so_desta(l, nome);
        let a = cs.drop_last();
        let p = linhas_dos_alvos(a);
        let minhas = linhas_da_carteira(cs.last(), (p.len() + 1) as nat);
        assert forall|i: int| 0 <= i < a.len() implies #[trigger] nomes_de(a)[i] != nome by {
            assert(nomes_de(cs)[i] != nome);
        }
        lemma_outras(a, nome);
        lemma_pick_sum(p, minhas, g);
        assert(nomes_de(cs)[cs.len() - 1] != nome);
        lemma_pick_none(minhas, g);
    }
}

/// The places of a target portfolio are read back in their order.
pub proof fn lemma_carteira_volta(cs: Seq<CarteiraV>, i: int)
    requires
        0 <= i < cs.len(),
        sem_repetir(nomes_de(cs)),
        cabem(linhas_dos_alvos(cs).len()),
        em_fila(cs[i]),
    ensures
        alvos_lidos(linhas_dos_alvos(cs), cs[i].nome) == cs[i].alvos,
{
    let ls = linhas_dos_alvos(cs);
    let ids = Seq::new(ls.len(), |k: int| ls[k].id as i128);
    assert forall|x: int, y: int| 0 <= x < y < ids.len() implies #[trigger] ids[x]
        <= #[trigger] ids[y] by {
        lemma_numeros(cs, x);
        lemma_numeros(cs, y);
    }
    lemma_already_sorted(ls, ids);
    lemma_da_carteira(cs, i);
    let minhas = da_carteira(ls, cs[i].nome);
    lemma_contagem(cs, i);
    let ordens = Seq::new(minhas.len(), |k: int| minhas[k].ordem as i128);
    assert forall|x: int, y: int| 0 <= x < y < ordens.len() implies #[trigger] ordens[x]
        <= #[trigger] ordens[y] by {
        assert(cs[i].alvos[x].ordem <= cs[i].alvos[y].ordem);
    }
    lemma_already_sorted(minhas, ordens);
    let f = |l: LinhaAlvo<Seq<char>>| alvo_lido(l);
    assert forall|k: int| 0 <= k < minhas.len() implies f(#[trigger] minhas[k]) == Some(
        cs[i].alvos[k],
    ) by {
        lemma_alvo_volta(inicio_da_carteira(cs, i) + k, cs[i].nome, cs[i].alvos[k]);
    }
    lemma_pick_each(minhas, f, cs[i].alvos);
}

/// One target portfolio has no more places than all of them.
proof fn lemma_contagem(cs: Seq<CarteiraV>, i: int)
    requires
        0 <= i < cs.len(),
    ensures
        cs[i].alvos.len() <= linhas_dos_alvos(cs).len(),
    decreases cs.len(),
{
    if i < cs.len() - 1 {
        lemma_contagem(cs.drop_last(), i);
        assert(cs.drop_last()[i] == cs[i]);
    }
}

/// What is written is what is read: the whole portfolio goes through the tables and comes
/// back without losing anything, a missing average price as missing and not as zero.
pub proof fn lemma_carteira_inteira(p: PortfolioV, v: VocabularioV)
    requires
        guardavel(p, v),
    ensures
        portfolio_lido(tabelas_de(p), v) == p,
{
    let t = tabelas_de(p);
    let r = portfolio_lido(t, v);
    lemma_moeda(p.moeda_base);

    let k1 = Seq::new(t.posicao.len(), |i: int| t.posicao[i].id as i128);
    lemma_already_sorted(t.posicao, k1);
    let f1 = |l: LinhaPosicao<Seq<char>>| posicao_lida(l, v.classes);
    assert forall|i: int| 0 <= i < t.posicao.len() implies f1(#[trigger] t.posicao[i]) == Some(
        p.posicoes[i],
    ) by {
        lemma_posicao_volta(i + 1, p.posicoes[i], v.classes);
    }
    lemma_pick_each(t.posicao, f1, p.posicoes);

    let cs = chaves_de(p.watchlist);
    assert forall|i: int, j: int| 0 <= i < j < cs.len() implies #[trigger] cs[i]
        != #[trigger] cs[j] by {
        lemma_chave_volta(p.watchlist[i]);
        lemma_chave_volta(p.watchlist[j]);
        assert(p.watchlist[i] != p.watchlist[j]);
    }
    lemma_lista_volta(cs);
    let f2 = |s: Seq<char>| ativo_de(s);
    assert forall|i: int| 0 <= i < cs.len() implies f2(#[trigger] cs[i]) == Some(
        p.watchlist[i],
    ) by {
        lemma_chave_volta(p.watchlist[i]);
    }
    lemma_pick_each(cs, f2, p.watchlist);

    lemma_put_all(p.alvos);
    lemma_put_all(p.setores);
    lemma_lista_volta(p.feeds);
    lemma_mapa_volta(p.mapeamentos);

    let k3 = Seq::new(t.provento.len(), |i: int| t.provento[i].id as i128);
    lemma_already_sorted(t.provento, k3);
    let f3 = |l: LinhaProvento<Seq<char>>| provento_lido(l, v.proventos);
    assert forall|i: int| 0 <= i < t.provento.len() implies f3(#[trigger] t.provento[i]) == Some(
        p.proventos[i],
    ) by {
        lemma_provento_volta(i + 1, p.proventos[i], v.proventos);
    }
    lemma_pick_each(t.provento, f3, p.proventos);

    let k4 = Seq::new(t.lancamento.len(), |i: int| t.lancamento[i].id as i128);
    lemma_already_sorted(t.lancamento, k4);
    let f4 = |l: LinhaLancamento<Seq<char>>| lancamento_lido(l, v.lancamentos);
    assert forall|i: int| 0 <= i < t.lancamento.len() implies f4(#[trigger] t.lancamento[i])
        == Some(p.lancamentos[i]) by {
        lemma_lancamento_volta(i + 1, p.lancamentos[i], v.lancamentos);
    }
    lemma_pick_each(t.lancamento, f4, p.lancamentos);

    let k5 = Seq::new(t.alerta.len(), |i: int| t.alerta[i].id as i128);
    lemma_already_sorted(t.alerta, k5);
    let f5 = |l: LinhaAlerta<Seq<char>>| alerta_lido(l, v.regras);
    assert forall|i: int| 0 <= i < t.alerta.len() implies f5(#[trigger] t.alerta[i]) == Some(
        p.alertas[i],
    ) by {
        lemma_alerta_volta(i + 1, p.alertas[i], v.regras);
    }
    lemma_pick_each(t.alerta, f5, p.alertas);

    lemma_lista_volta(nomes_de(p.carteiras));
    assert forall|i: int| 0 <= i < p.carteiras.len() implies #[trigger] r.carteiras[i]
        == p.carteiras[i] by {
        assert(em_fila(p.carteiras[i]));
        lemma_carteira_volta(p.carteiras, i);
    }
    assert(r.carteiras =~= p.carteiras);
}

} // verus!
