//! What the user keeps: positions, payments, entries, alerts and target portfolios.
//!
//! A record is generic in the type of its texts and of its assets: `String` and `AssetId` in
//! running code, sequences of characters in contracts. Amounts are bit patterns of doubles.
//! The kinds that only carry a code — the class of an asset, the type of an entry — are kept
//! as that code.

use vstd::prelude::*;
use crate::dict::{pairs, words_of};
use crate::text::{maybe, views};
use crate::invest::model::{visto, vistos, AssetId, Market, Moeda};

verus! {

/// An asset in contracts: its market and its symbol.
pub type Ativo = (Market, Seq<char>);

/// A position. The average price is the one that was informed, never one that was derived.
#[derive(Debug)]
pub struct Position<T, A> {
    pub fonte: T,
    pub conta: T,
    pub ativo: A,
    pub classe: T,
    pub quantidade: u64,
    pub preco_medio: Option<u64>,
    pub moeda: Moeda,
    pub preco_manual: Option<u64>,
    pub preco_manual_em: Option<u64>,
    pub atualizado_em: u64,
    pub carteira: Option<T>,
}

/// A payment received.
#[derive(Debug)]
pub struct Provento<T, A> {
    pub ativo: A,
    pub tipo: T,
    pub pago_em: u64,
    pub bruto: u64,
    pub retido: u64,
    pub moeda: Moeda,
    pub quantidade: Option<u64>,
}

/// An entry: a purchase, a sale, money put in or taken out.
#[derive(Debug)]
pub struct Lancamento<T, A> {
    pub em: u64,
    pub tipo: T,
    pub ativo: Option<A>,
    pub quantidade: u64,
    pub preco: u64,
    pub taxas: u64,
    pub valor: u64,
    pub moeda: Option<Moeda>,
    pub nota: T,
}

/// An alert on the price of an asset.
#[derive(Debug)]
pub struct Alerta<T, A> {
    pub ativo: A,
    pub regra: T,
    pub valor: u64,
    pub ligado: bool,
    pub armado: bool,
    pub ultimo_disparo: Option<u64>,
}

/// The place of an asset in a target portfolio.
#[derive(Debug)]
pub struct AlvoCarteira<A> {
    pub ordem: u32,
    pub ativo: A,
    pub percentual: u64,
    pub teto: Option<u64>,
}

/// A target portfolio.
#[derive(Debug)]
pub struct Carteira {
    pub nome: String,
    pub alvos: Vec<AlvoCarteira<AssetId>>,
}

/// A target portfolio in contracts.
pub struct CarteiraV {
    pub nome: Seq<char>,
    pub alvos: Seq<AlvoCarteira<Ativo>>,
}

/// All that the user keeps.
#[derive(Debug)]
pub struct Portfolio {
    pub moeda_base: Moeda,
    pub posicoes: Vec<Position<String, AssetId>>,
    pub watchlist: Vec<AssetId>,
    /// The target share of each class.
    pub alvos: Vec<(String, u64)>,
    /// The sector of each asset, by the asset's key.
    pub setores: Vec<(String, String)>,
    pub feeds: Vec<String>,
    /// For each source of imports, the column that gives each field.
    pub mapeamentos: Vec<(String, Vec<(String, String)>)>,
    pub proventos: Vec<Provento<String, AssetId>>,
    pub lancamentos: Vec<Lancamento<String, AssetId>>,
    pub alertas: Vec<Alerta<String, AssetId>>,
    pub carteiras: Vec<Carteira>,
}

/// All that the user keeps, in contracts.
pub struct PortfolioV {
    pub moeda_base: Moeda,
    pub posicoes: Seq<Position<Seq<char>, Ativo>>,
    pub watchlist: Seq<Ativo>,
    pub alvos: Seq<(Seq<char>, u64)>,
    pub setores: Seq<(Seq<char>, Seq<char>)>,
    pub feeds: Seq<Seq<char>>,
    pub mapeamentos: Seq<(Seq<char>, Seq<(Seq<char>, Seq<char>)>)>,
    pub proventos: Seq<Provento<Seq<char>, Ativo>>,
    pub lancamentos: Seq<Lancamento<Seq<char>, Ativo>>,
    pub alertas: Seq<Alerta<Seq<char>, Ativo>>,
    pub carteiras: Seq<CarteiraV>,
}

impl View for Position<String, AssetId> {
    type V = Position<Seq<char>, Ativo>;

    open spec fn view(&self) -> Position<Seq<char>, Ativo> {
        Position {
            fonte: self.fonte@,
            conta: self.conta@,
            ativo: self.ativo@,
            classe: self.classe@,
            quantidade: self.quantidade,
            preco_medio: self.preco_medio,
            moeda: self.moeda,
            preco_manual: self.preco_manual,
            preco_manual_em: self.preco_manual_em,
            atualizado_em: self.atualizado_em,
            carteira: maybe(self.carteira),
        }
    }
}

impl View for Provento<String, AssetId> {
    type V = Provento<Seq<char>, Ativo>;

    open spec fn view(&self) -> Provento<Seq<char>, Ativo> {
        Provento {
            ativo: self.ativo@,
            tipo: self.tipo@,
            pago_em: self.pago_em,
            bruto: self.bruto,
            retido: self.retido,
            moeda: self.moeda,
            quantidade: self.quantidade,
        }
    }
}

impl View for Lancamento<String, AssetId> {
    type V = Lancamento<Seq<char>, Ativo>;

    open spec fn view(&self) -> Lancamento<Seq<char>, Ativo> {
        Lancamento {
            em: self.em,
            tipo: self.tipo@,
            ativo: visto(self.ativo),
            quantidade: self.quantidade,
            preco: self.preco,
            taxas: self.taxas,
            valor: self.valor,
            moeda: self.moeda,
            nota: self.nota@,
        }
    }
}

impl View for Alerta<String, AssetId> {
    type V = Alerta<Seq<char>, Ativo>;

    open spec fn view(&self) -> Alerta<Seq<char>, Ativo> {
        Alerta {
            ativo: self.ativo@,
            regra: self.regra@,
            valor: self.valor,
            ligado: self.ligado,
            armado: self.armado,
            ultimo_disparo: self.ultimo_disparo,
        }
    }
}

impl View for AlvoCarteira<AssetId> {
    type V = AlvoCarteira<Ativo>;

    open spec fn view(&self) -> AlvoCarteira<Ativo> {
        AlvoCarteira {
            ordem: self.ordem,
            ativo: self.ativo@,
            percentual: self.percentual,
            teto: self.teto,
        }
    }
}

impl View for Carteira {
    type V = CarteiraV;

    open spec fn view(&self) -> CarteiraV {
        CarteiraV {
            nome: self.nome@,
            alvos: Seq::new(self.alvos@.len(), |i: int| self.alvos@[i]@),
        }
    }
}

/// The columns by field, for each source.
pub open spec fn mapeamentos_de(v: Seq<(String, Vec<(String, String)>)>) -> Seq<
    (Seq<char>, Seq<(Seq<char>, Seq<char>)>),
> {
    Seq::new(v.len(), |i: int| (v[i].0@, words_of(v[i].1@)))
}

impl View for Portfolio {
    type V = PortfolioV;

    open spec fn view(&self) -> PortfolioV {
        PortfolioV {
            moeda_base: self.moeda_base,
            posicoes: Seq::new(self.posicoes@.len(), |i: int| self.posicoes@[i]@),
            watchlist: vistos(self.watchlist@),
            alvos: pairs(self.alvos@),
            setores: words_of(self.setores@),
            feeds: views(self.feeds@),
            mapeamentos: mapeamentos_de(self.mapeamentos@),
            proventos: Seq::new(self.proventos@.len(), |i: int| self.proventos@[i]@),
            lancamentos: Seq::new(self.lancamentos@.len(), |i: int| self.lancamentos@[i]@),
            alertas: Seq::new(self.alertas@.len(), |i: int| self.alertas@[i]@),
            carteiras: Seq::new(self.carteiras@.len(), |i: int| self.carteiras@[i]@),
        }
    }
}

/// Nothing kept yet.
pub open spec fn vazio() -> PortfolioV {
    PortfolioV {
        moeda_base: Moeda::Brl,
        posicoes: Seq::empty(),
        watchlist: Seq::empty(),
        alvos: Seq::empty(),
        setores: Seq::empty(),
        feeds: Seq::empty(),
        mapeamentos: Seq::empty(),
        proventos: Seq::empty(),
        lancamentos: Seq::empty(),
        alertas: Seq::empty(),
        carteiras: Seq::empty(),
    }
}

impl Portfolio {
    /// Nothing kept yet.
    pub fn novo() -> (r: Portfolio)
        ensures
            r@ == vazio(),
    {
        let r = Portfolio {
            moeda_base: Moeda::Brl,
            posicoes: Vec::new(),
            watchlist: Vec::new(),
            alvos: Vec::new(),
            setores: Vec::new(),
            feeds: Vec::new(),
            mapeamentos: Vec::new(),
            proventos: Vec::new(),
            lancamentos: Vec::new(),
            alertas: Vec::new(),
            carteiras: Vec::new(),
        };
        proof {
            let v = r@;
            let w = vazio();
            assert(v.posicoes =~= w.posicoes);
            assert(v.watchlist =~= w.watchlist);
            assert(v.alvos =~= w.alvos);
            assert(v.setores =~= w.setores);
            assert(v.feeds =~= w.feeds);
            assert(v.mapeamentos =~= w.mapeamentos);
            assert(v.proventos =~= w.proventos);
            assert(v.lancamentos =~= w.lancamentos);
            assert(v.alertas =~= w.alertas);
            assert(v.carteiras =~= w.carteiras);
        }
        r
    }
}

} // verus!
