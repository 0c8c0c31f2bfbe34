//! What an asset is, what it is priced in, and how a source fails.
//!
//! Amounts are carried as the bit pattern of a double: the logic of this crate hands them
//! on, and where it compares them it does so on the bits.

use vstd::prelude::*;
use crate::text::{cut_once, maybe, same, split_once, Cut};

verus! {

/// The market an asset is traded on, or published by.
#[derive(Clone, Copy, PartialEq, Eq, Debug, Structural)]
pub enum Market {
    B3,
    Us,
    Binance,
    Fx,
    Bcb,
    Outro,
}

impl Market {
    /// The word that stands for a market in an asset's key.
    pub open spec fn codigo(self) -> Seq<char> {
        match self {
            Market::B3 => "B3"@,
            Market::Us => "US"@,
            Market::Binance => "BINANCE"@,
            Market::Fx => "FX"@,
            Market::Bcb => "BCB"@,
            Market::Outro => "OUTRO"@,
        }
    }

    /// The word that stands for a market in an asset's key.
    pub fn code(&self) -> (r: &'static str)
        ensures
            r@ == self.codigo(),
    {
        match self {
            Market::B3 => "B3",
            Market::Us => "US",
            Market::Binance => "BINANCE",
            Market::Fx => "FX",
            Market::Bcb => "BCB",
            Market::Outro => "OUTRO",
        }
    }

    /// The market that a word stands for.
    pub open spec fn de_codigo(s: Seq<char>) -> Option<Market> {
        if s == "B3"@ {
            Some(Market::B3)
        } else if s == "US"@ {
            Some(Market::Us)
        } else if s == "BINANCE"@ {
            Some(Market::Binance)
        } else if s == "FX"@ {
            Some(Market::Fx)
        } else if s == "BCB"@ {
            Some(Market::Bcb)
        } else if s == "OUTRO"@ {
            Some(Market::Outro)
        } else {
            None
        }
    }

    /// Reads the word that stands for a market.
    pub fn parse(s: &str) -> (r: Option<Market>)
        ensures
            r == Market::de_codigo(s@),
    {
        if same(s, "B3") {
            Some(Market::B3)
        } else if same(s, "US") {
            Some(Market::Us)
        } else if same(s, "BINANCE") {
            Some(Market::Binance)
        } else if same(s, "FX") {
            Some(Market::Fx)
        } else if same(s, "BCB") {
            Some(Market::Bcb)
        } else if same(s, "OUTRO") {
            Some(Market::Outro)
        } else {
            None
        }
    }

    /// The currency of everything traded on this market, where it has only one.
    pub open spec fn unica(self) -> Option<Moeda> {
        match self {
            Market::B3 => Some(Moeda::Brl),
            Market::Us => Some(Moeda::Usd),
            _ => None,
        }
    }

    /// The currency of everything traded on this market, where it has only one.
    pub fn moeda(&self) -> (r: Option<Moeda>)
        ensures
            r == self.unica(),
    {
        match self {
            Market::B3 => Some(Moeda::Brl),
            Market::Us => Some(Moeda::Usd),
            _ => None,
        }
    }
}

/// The word of a market reads back as that market, and holds no slash.
pub proof fn lemma_mercado(m: Market)
    ensures
        Market::de_codigo(m.codigo()) == Some(m),
        forall|i: int| 0 <= i < m.codigo().len() ==> #[trigger] m.codigo()[i] != '/',
        m.codigo().len() > 0,
{
    reveal_strlit("B3");
    reveal_strlit("US");
    reveal_strlit("BINANCE");
    reveal_strlit("FX");
    reveal_strlit("BCB");
    reveal_strlit("OUTRO");
    assert("B3"@[0] != "US"@[0] && "B3"@[0] != "FX"@[0]);
    assert("US"@[0] != "FX"@[0]);
    assert("BCB"@.len() == 3 && "OUTRO"@.len() == 5 && "BINANCE"@.len() == 7);
}

/// A currency.
#[derive(Clone, Copy, PartialEq, Eq, Debug, Structural)]
pub enum Moeda {
    Brl,
    Usd,
    Usdt,
    Eur,
}

impl Moeda {
    /// The code of a currency.
    pub open spec fn codigo(self) -> Seq<char> {
        match self {
            Moeda::Brl => "BRL"@,
            Moeda::Usd => "USD"@,
            Moeda::Usdt => "USDT"@,
            Moeda::Eur => "EUR"@,
        }
    }

    /// The code of a currency.
    pub fn code(&self) -> (r: &'static str)
        ensures
            r@ == self.codigo(),
    {
        match self {
            Moeda::Brl => "BRL",
            Moeda::Usd => "USD",
            Moeda::Usdt => "USDT",
            Moeda::Eur => "EUR",
        }
    }

    /// The currency that a code stands for.
    pub open spec fn de_codigo(s: Seq<char>) -> Option<Moeda> {
        if s == "BRL"@ {
            Some(Moeda::Brl)
        } else if s == "USD"@ {
            Some(Moeda::Usd)
        } else if s == "USDT"@ {
            Some(Moeda::Usdt)
        } else if s == "EUR"@ {
            Some(Moeda::Eur)
        } else {
            None
        }
    }

    /// Reads the code of a currency.
    pub fn parse(s: &str) -> (r: Option<Moeda>)
        ensures
            r == Moeda::de_codigo(s@),
    {
        if same(s, "BRL") {
            Some(Moeda::Brl)
        } else if same(s, "USD") {
            Some(Moeda::Usd)
        } else if same(s, "USDT") {
            Some(Moeda::Usdt)
        } else if same(s, "EUR") {
            Some(Moeda::Eur)
        } else {
            None
        }
    }
}

/// The code of a currency reads back as that currency.
pub proof fn lemma_moeda(m: Moeda)
    ensures
        Moeda::de_codigo(m.codigo()) == Some(m),
{
    reveal_strlit("BRL");
    reveal_strlit("USD");
    reveal_strlit("USDT");
    reveal_strlit("EUR");
    assert("BRL"@[0] != "USD"@[0] && "BRL"@[0] != "EUR"@[0] && "USD"@[0] != "EUR"@[0]);
    assert("USDT"@.len() == 4);
}

/// An asset: a symbol on a market.
#[derive(Debug, PartialEq, Eq)]
pub struct AssetId {
    pub market: Market,
    pub symbol: String,
}

impl View for AssetId {
    type V = (Market, Seq<char>);

    open spec fn view(&self) -> (Market, Seq<char>) {
        (self.market, self.symbol@)
    }
}

impl Clone for AssetId {
    fn clone(&self) -> (r: AssetId)
        ensures
            r@ == self@,
    {
        AssetId { market: self.market, symbol: self.symbol.clone() }
    }
}

/// The key of an asset: `B3/PETR4`.
pub open spec fn chave_de(a: (Market, Seq<char>)) -> Seq<char> {
    a.0.codigo() + "/"@ + a.1
}

/// The asset that a key stands for, when its market is known.
pub open spec fn ativo_de(s: Seq<char>) -> Option<(Market, Seq<char>)> {
    match cut_once(s, Cut::At('/')) {
        Some((m, x)) => match Market::de_codigo(m) {
            Some(market) => Some((market, x)),
            None => None,
        },
        None => None,
    }
}

/// The asset behind an optional value.
pub open spec fn visto(a: Option<AssetId>) -> Option<(Market, Seq<char>)> {
    match a {
        Some(x) => Some(x@),
        None => None,
    }
}

impl AssetId {
    /// The asset of a symbol on a market.
    pub fn new(market: Market, symbol: &str) -> (r: AssetId)
        ensures
            r@ == (market, symbol@),
    {
        AssetId { market, symbol: symbol.to_owned() }
    }

    /// The key of the asset.
    pub fn chave(&self) -> (r: String)
        ensures
            r@ == chave_de(self@),
    {
        let mut r = self.market.code().to_owned();
        r.append("/");
        r.append(self.symbol.as_str());
        r
    }

    /// Reads the key of an asset.
    pub fn parse(s: &str) -> (r: Option<AssetId>)
        ensures
            visto(r) == ativo_de(s@),
    {
        match split_once(s, '/') {
            Some((m, x)) => match Market::parse(m.as_str()) {
                Some(market) => Some(AssetId { market, symbol: x }),
                None => None,
            },
            None => None,
        }
    }

    /// Whether two assets are the same.
    pub fn igual(&self, outro: &AssetId) -> (r: bool)
        ensures
            r == (self@ == outro@),
    {
        self.market == outro.market && same(self.symbol.as_str(), outro.symbol.as_str())
    }
}

/// The key of an asset reads back as that asset.
pub proof fn lemma_chave_volta(a: (Market, Seq<char>))
    ensures
        ativo_de(chave_de(a)) == Some(a),
{
    lemma_mercado(a.0);
    reveal_strlit("/");
    let s = chave_de(a);
    let n = a.0.codigo().len() as int;
    assert(s[n] == '/');
    assert forall|j: int| 0 <= j < n implies !Cut::At('/').cuts(#[trigger] s[j]) by {
        assert(s[j] == a.0.codigo()[j]);
    }
    crate::text::lemma_reach(s, Cut::At('/'), n);
    assert(s.take(n) =~= a.0.codigo());
    assert(s.skip(n + 1) =~= a.1);
}

/// The assets of a list, by market and symbol.
pub open spec fn vistos(v: Seq<AssetId>) -> Seq<(Market, Seq<char>)> {
    Seq::new(v.len(), |i: int| v[i]@)
}

/// How a source failed to answer.
#[derive(Debug)]
pub enum FeedError {
    /// The quota is spent; the server may have said for how many seconds.
    Cota { retry_after: Option<u64> },
    /// The server answered with an error status, and perhaps with a reason.
    Status { code: u16, detalhe: Option<String> },
    /// The body was not what was expected.
    Formato(String),
    /// No answer in time.
    Tempo,
}

/// How a source failed to answer, in contracts.
pub enum ErroV {
    Cota(Option<u64>),
    Status(u16, Option<Seq<char>>),
    Formato(Seq<char>),
    Tempo,
}

impl View for FeedError {
    type V = ErroV;

    open spec fn view(&self) -> ErroV {
        match *self {
            FeedError::Cota { retry_after } => ErroV::Cota(retry_after),
            FeedError::Status { code, detalhe } => ErroV::Status(code, maybe(detalhe)),
            FeedError::Formato(m) => ErroV::Formato(m@),
            FeedError::Tempo => ErroV::Tempo,
        }
    }
}

impl FeedError {
    /// Asking again soon would give the same answer: the quota is spent, or the body is
    /// not what was expected.
    pub open spec fn sem_volta(self) -> bool {
        self is Cota || self is Formato
    }

    /// Whether asking again soon would give the same answer.
    pub fn desiste(&self) -> (r: bool)
        ensures
            r == self.sem_volta(),
    {
        match self {
            FeedError::Cota { retry_after } => true,
            FeedError::Formato(m) => true,
            _ => false,
        }
    }

    /// The error says that the quota is spent.
    pub fn e_cota(&self) -> (r: bool)
        ensures
            r == (self is Cota),
    {
        match self {
            FeedError::Cota { retry_after } => true,
            _ => false,
        }
    }
}

} // verus!
