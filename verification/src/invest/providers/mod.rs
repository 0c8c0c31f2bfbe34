//! The sources, in the order in which they are asked.

use vstd::prelude::*;
use crate::invest::model::{AssetId, Market};
use crate::invest::provider::{b3_aberta, dia_util_br, pregao, util, Span};
use crate::invest::providers::bcb::Bcb;
use crate::invest::providers::binance::Binance;
use crate::invest::providers::brapi::Brapi;
use crate::invest::providers::cambio::Cambio;
use crate::invest::providers::fred::Fred;
use crate::invest::providers::kinvo::Kinvo;
use crate::invest::providers::manual::Manual;
use crate::invest::providers::tesouro::Tesouro;
use crate::invest::providers::yahoo::Yahoo;
use crate::invest::tempo::{cabe, hora, local, BRT_OFFSET, Data};

pub mod bcb;
pub mod binance;
pub mod brapi;
pub mod cambio;
pub mod comum;
pub mod fred;
pub mod kinvo;
pub mod manual;
pub mod tesouro;
pub mod yahoo;

verus! {

/// A source of quotes.
#[derive(Clone, Copy, PartialEq, Eq, Debug, Structural)]
pub enum Provedor {
    Kinvo,
    /// Whether it has a token, and how many assets one request may hold.
    Brapi { com_token: bool, por_requisicao: usize },
    Yahoo,
    Binance,
    Cambio,
    Bcb,
    Fred,
    Tesouro,
    Manual,
}

/// The American exchange is taken to be in session: a working day, from eleven to nineteen in
/// Brasília. The whole hours are deliberate: half an hour of error costs one turn.
pub open spec fn pregao_americano(agora: u64, feriados: Seq<Data>) -> bool {
    util(agora, feriados) && 11 <= local(agora, BRT_OFFSET) % 86400 / 3600 < 19
}

impl Provedor {
    /// The key of a source, which never changes.
    pub open spec fn chave(self) -> Seq<char> {
        match self {
            Provedor::Kinvo => "kinvo"@,
            Provedor::Brapi { com_token, por_requisicao } => "brapi"@,
            Provedor::Yahoo => "yahoo"@,
            Provedor::Binance => "binance"@,
            Provedor::Cambio => "cambio"@,
            Provedor::Bcb => "bcb"@,
            Provedor::Fred => "fred"@,
            Provedor::Tesouro => "tesouro"@,
            Provedor::Manual => "manual"@,
        }
    }

    /// The key of a source.
    pub fn id(&self) -> (r: &'static str)
        ensures
            r@ == self.chave(),
    {
        match self {
            Provedor::Kinvo => "kinvo",
            Provedor::Brapi { com_token, por_requisicao } => "brapi",
            Provedor::Yahoo => "yahoo",
            Provedor::Binance => "binance",
            Provedor::Cambio => "cambio",
            Provedor::Bcb => "bcb",
            Provedor::Fred => "fred",
            Provedor::Tesouro => "tesouro",
            Provedor::Manual => "manual",
        }
    }

    /// The name of a source on the screen.
    pub fn name(&self) -> (r: &'static str)
        ensures
            r@ == (match *self {
                Provedor::Kinvo => "Kinvo (aberta, sem contrato)"@,
                Provedor::Brapi { com_token, por_requisicao } => if com_token {
                    "brapi.dev (com token)"@
                } else {
                    "brapi.dev (anônimo)"@
                },
                Provedor::Yahoo => "Yahoo (não-oficial)"@,
                Provedor::Binance => "Binance"@,
                Provedor::Cambio => "AwesomeAPI + PTAX"@,
                Provedor::Bcb => "Banco Central"@,
                Provedor::Fred => "FRED (Fed de St. Louis)"@,
                Provedor::Tesouro => "Tesouro Transparente"@,
                Provedor::Manual => "informado"@,
            }),
    {
        match self {
            Provedor::Kinvo => "Kinvo (aberta, sem contrato)",
            Provedor::Brapi { com_token, por_requisicao } => if *com_token {
                "brapi.dev (com token)"
            } else {
                "brapi.dev (anônimo)"
            },
            Provedor::Yahoo => "Yahoo (não-oficial)",
            Provedor::Binance => "Binance",
            Provedor::Cambio => "AwesomeAPI + PTAX",
            Provedor::Bcb => "Banco Central",
            Provedor::Fred => "FRED (Fed de St. Louis)",
            Provedor::Tesouro => "Tesouro Transparente",
            Provedor::Manual => "informado",
        }
    }

    /// The assets that a source answers for.
    pub open spec fn cobre(self, a: (Market, Seq<char>)) -> bool {
        match self {
            Provedor::Kinvo => Kinvo::cobre(a),
            Provedor::Brapi { com_token, por_requisicao } => Brapi::cobre(a),
            Provedor::Yahoo => Yahoo::cobre(a),
            Provedor::Binance => Binance::cobre(a),
            Provedor::Cambio => Cambio::cobre(a),
            Provedor::Bcb => Bcb::cobre(a),
            Provedor::Fred => Fred::cobre(a),
            Provedor::Tesouro => Tesouro::cobre(a),
            Provedor::Manual => true,
        }
    }

    /// Whether a source answers for an asset.
    pub fn covers(&self, ativo: &AssetId) -> (r: bool)
        ensures
            r == self.cobre(ativo@),
    {
        match self {
            Provedor::Kinvo => Kinvo.covers(ativo),
            Provedor::Brapi { com_token, por_requisicao } => ativo.market == Market::B3,
            Provedor::Yahoo => ativo.market == Market::B3 || ativo.market == Market::Us,
            Provedor::Binance => ativo.market == Market::Binance,
            Provedor::Cambio => Cambio.covers(ativo),
            Provedor::Bcb => Bcb.covers(ativo),
            Provedor::Fred => Fred.covers(ativo),
            Provedor::Tesouro => Tesouro.covers(ativo),
            Provedor::Manual => true,
        }
    }

    /// The market of an asset is open, as a source sees it.
    pub open spec fn aberto(self, a: (Market, Seq<char>), agora: u64, feriados: Seq<Data>) -> bool {
        match self {
            Provedor::Kinvo => pregao(agora, feriados),
            Provedor::Brapi { com_token, por_requisicao } => pregao(agora, feriados),
            Provedor::Yahoo => if a.0 == Market::B3 {
                pregao(agora, feriados)
            } else {
                pregao_americano(agora, feriados)
            },
            Provedor::Binance => true,
            Provedor::Cambio => util(agora, feriados),
            Provedor::Bcb => util(agora, feriados),
            Provedor::Fred => util(agora, feriados),
            Provedor::Tesouro => util(agora, feriados),
            Provedor::Manual => true,
        }
    }

    /// Whether the market of an asset is open. It is for the source to say and not for the
    /// local clock: one market never closes, another closes at eighteen in Brasília.
    pub fn is_open(&self, ativo: &AssetId, agora: u64, feriados: &[Data]) -> (r: bool)
        requires
            cabe(agora, BRT_OFFSET),
        ensures
            r == self.aberto(ativo@, agora, feriados@),
    {
        match self {
            Provedor::Kinvo => b3_aberta(agora, feriados),
            Provedor::Brapi { com_token, por_requisicao } => b3_aberta(agora, feriados),
            Provedor::Yahoo => if ativo.market == Market::B3 {
                b3_aberta(agora, feriados)
            } else {
                let h = hora(agora, BRT_OFFSET);
                dia_util_br(agora, feriados) && 11 <= h && h < 19
            },
            Provedor::Binance => true,
            Provedor::Cambio => dia_util_br(agora, feriados),
            Provedor::Bcb => dia_util_br(agora, feriados),
            Provedor::Fred => dia_util_br(agora, feriados),
            Provedor::Tesouro => dia_util_br(agora, feriados),
            Provedor::Manual => true,
        }
    }

    /// The least pause between two turns of a source, in milliseconds.
    pub open spec fn ritmo(self) -> u64 {
        match self {
            Provedor::Kinvo => 30_000,
            Provedor::Brapi { com_token, por_requisicao } => if por_requisicao > 1 {
                5_000
            } else {
                30_000
            },
            Provedor::Yahoo => 60_000,
            Provedor::Binance => 2_000,
            Provedor::Cambio => 10_000,
            Provedor::Bcb => 21_600_000,
            Provedor::Fred => 3_600_000,
            Provedor::Tesouro => 3_600_000,
            Provedor::Manual => 2_000,
        }
    }

    /// The least pause between two turns of a source, in milliseconds. It is never below two
    /// seconds, whatever the quota allows.
    pub fn intervalo(&self) -> (r: u64)
        ensures
            r == self.ritmo(),
            r >= 2_000,
    {
        match self {
            Provedor::Kinvo => 30_000,
            Provedor::Brapi { com_token, por_requisicao } => if *por_requisicao > 1 {
                5_000
            } else {
                30_000
            },
            Provedor::Yahoo => 60_000,
            Provedor::Binance => 2_000,
            Provedor::Cambio => 10_000,
            Provedor::Bcb => 21_600_000,
            Provedor::Fred => 3_600_000,
            Provedor::Tesouro => 3_600_000,
            Provedor::Manual => 2_000,
        }
    }

    /// Whether a source goes to the network. The one that does not never counts as one that
    /// is down.
    pub fn remoto(&self) -> (r: bool)
        ensures
            r == (*self != Provedor::Manual),
    {
        match self {
            Provedor::Manual => false,
            _ => true,
        }
    }

    /// Whether a source serves the figures of the company behind a share.
    pub fn tem_fundamento(&self) -> (r: bool)
        ensures
            r == (*self is Brapi),
    {
        match self {
            Provedor::Brapi { com_token, por_requisicao } => true,
            _ => false,
        }
    }

    /// The source can give a history of an asset. The exchange rates have one of the dollar
    /// alone, and a typed price has none.
    pub open spec fn com_historico(self, a: (Market, Seq<char>)) -> bool {
        self.cobre(a) && (match self {
            Provedor::Manual => false,
            Provedor::Cambio => Cambio::com_historico(a),
            _ => true,
        })
    }

    /// Whether a source can give a history of an asset, for those who want to know without
    /// fetching it.
    pub fn tem_historico(&self, ativo: &AssetId) -> (r: bool)
        ensures
            r == self.com_historico(ativo@),
    {
        self.covers(ativo) && (match self {
            Provedor::Manual => false,
            Provedor::Cambio => Cambio.pontos_do_historico(ativo, Span::Dia).is_some(),
            _ => true,
        })
    }
}

/// The sources in their order of preference, which is a chain of reserves: the first that
/// covers an asset is asked, and the next one if it does not deliver. The typed prices come
/// last, as they cover everything and must not take the turn of one that knows more.
pub open spec fn cadeia(com_token: bool) -> Seq<Provedor> {
    seq![
        Provedor::Kinvo,
        Provedor::Brapi { com_token, por_requisicao: 0 },
        Provedor::Yahoo,
        Provedor::Binance,
        Provedor::Cambio,
        Provedor::Bcb,
        Provedor::Fred,
        Provedor::Tesouro,
        Provedor::Manual,
    ]
}

/// The sources in their order of preference.
pub fn todos(com_token: bool) -> (r: Vec<Provedor>)
    ensures
        r@ == cadeia(com_token),
{
    let r = vec![
        Provedor::Kinvo,
        Provedor::Brapi { com_token, por_requisicao: 0 },
        Provedor::Yahoo,
        Provedor::Binance,
        Provedor::Cambio,
        Provedor::Bcb,
        Provedor::Fred,
        Provedor::Tesouro,
        Provedor::Manual,
    ];
    assert(r@ =~= cadeia(com_token));
    r
}

/// Whatever the asset, some source of the chain covers it; and where another than the typed
/// prices does, it comes before them.
pub proof fn lemma_a_reserva_final(com_token: bool, a: (Market, Seq<char>), i: int)
    requires
        0 <= i < cadeia(com_token).len(),
    ensures
        cadeia(com_token)[8].cobre(a),
        cadeia(com_token)[i] == Provedor::Manual <==> i == 8,
{
}

/// The pace of each source, in the units that people speak of.
pub proof fn lemma_ritmo(com_token: bool, por_requisicao: usize)
    ensures
        Provedor::Binance.ritmo() == 2 * 1000,
        Provedor::Cambio.ritmo() == 10 * 1000,
        Provedor::Kinvo.ritmo() == 30 * 1000,
        Provedor::Yahoo.ritmo() == 60 * 1000,
        Provedor::Fred.ritmo() == 60 * 60 * 1000,
        Provedor::Tesouro.ritmo() == 60 * 60 * 1000,
        Provedor::Bcb.ritmo() == 6 * 60 * 60 * 1000,
        por_requisicao > 1 ==> (Provedor::Brapi { com_token, por_requisicao }).ritmo() == 5 * 1000,
        por_requisicao <= 1 ==> (Provedor::Brapi { com_token, por_requisicao }).ritmo() == 30 * 1000,
{
}

/// A source has no history of what it does not cover, and typed prices have none.
pub proof fn lemma_historico(p: Provedor, a: (Market, Seq<char>))
    ensures
        p.com_historico(a) ==> p.cobre(a) && p != Provedor::Manual,
        p.cobre(a) && p != Provedor::Manual && p != Provedor::Cambio ==> p.com_historico(a),
        Provedor::Cambio.com_historico(a) <==> a == (Market::Fx, "USDBRL"@),
{
}

/// Which market a source answers for.
pub proof fn lemma_cobertura(p: Provedor, a: (Market, Seq<char>))
    requires
        p.cobre(a),
    ensures
        p is Kinvo ==> a.0 == Market::B3 || a == (Market::Outro, "IBOV"@),
        p is Brapi ==> a.0 == Market::B3,
        p is Yahoo ==> a.0 == Market::B3 || a.0 == Market::Us,
        p is Binance ==> a.0 == Market::Binance,
        p is Cambio ==> a.0 == Market::Fx,
        p is Bcb ==> a.0 == Market::Bcb,
        p is Fred ==> a.0 == Market::Outro,
        p is Tesouro ==> a.0 == Market::Outro,
{
}

/// The American session, on the clock of this country: from eleven to seven of a weekday.
pub proof fn lemma_pregao_americano(agora: u64, feriados: Seq<Data>)
    ensures
        pregao_americano(agora, feriados) <==> util(agora, feriados) && 39600 <= local(
            agora,
            BRT_OFFSET,
        ) % 86400 < 68400,
{
}

/// Crypto never closes; each exchange is open in its own session.
pub proof fn lemma_aberto(p: Provedor, a: (Market, Seq<char>), agora: u64, feriados: Seq<Data>)
    requires
        p.cobre(a),
    ensures
        a.0 == Market::Binance ==> p.aberto(a, agora, feriados),
        a.0 == Market::B3 && !(p is Manual) ==> (p.aberto(a, agora, feriados) <==> pregao(
            agora,
            feriados,
        )),
        a.0 == Market::Us && !(p is Manual) ==> (p.aberto(a, agora, feriados) <==> pregao_americano(
            agora,
            feriados,
        )),
        a.0 == Market::Fx || a.0 == Market::Bcb ==> !(p is Manual) ==> (p.aberto(a, agora, feriados)
            <==> util(agora, feriados)),
{
}

} // verus!
