//! The sources together: what is asked of them, what they have said, and who answers for what.

use vstd::prelude::*;
use crate::pick::{lemma_pick, lemma_pick_ends, picked};
use crate::invest::model::{ativo_de, chave_de, vistos, AssetId, Market, Moeda};
use crate::invest::provider::{
    com_fontes, recebidas, valores, Grade, MarketSnapshot, Quote, QuoteV, StatusFonte,
};
use crate::invest::providers::{cadeia, Provedor};
use crate::invest::providers::brapi::Brapi;
use crate::invest::providers::manual::Informado;
use crate::invest::store::cache::{cache_de, Cache, CachedQuote};
use crate::invest::tempo::{cabe, BRT_OFFSET, Data};

verus! {

/// The sources, and the state that the loop and the screen share.
pub struct ProviderSet {
    pub provedores: Vec<Provedor>,
    pub snapshot: MarketSnapshot,
    /// What is to be fetched.
    pub pedido: Vec<AssetId>,
    /// The typed prices.
    pub manuais: Vec<Informado>,
    /// Some screen is looking.
    pub ativo: bool,
    pub parar: bool,
    /// The loop is to be woken.
    pub acordar: bool,
    pub revisao: u64,
    /// The loop was started.
    pub iniciada: bool,
    /// The least pause between two turns of any source, in milliseconds.
    pub piso: u64,
}

/// The quote that an entry of the cache gives, where its asset is known. The cache does not
/// keep the source, and a currency that cannot be read is the real.
pub open spec fn quote_do_cache(p: (Seq<char>, CachedQuote<Seq<char>>)) -> Option<QuoteV> {
    match ativo_de(p.0) {
        Some(ativo) => Some(
            QuoteV {
                ativo,
                fonte: "cache"@,
                preco: p.1.preco,
                anterior: p.1.anterior,
                moeda: match Moeda::de_codigo(p.1.moeda) {
                    Some(m) => m,
                    None => Moeda::Brl,
                },
                grade: Grade::de_codigo(p.1.grade),
                em: p.1.em,
                volume: None,
                max24: None,
                min24: None,
            },
        ),
        None => None,
    }
}

/// The picture that a cache gives.
pub open spec fn retrato_do_cache(c: Seq<(Seq<char>, CachedQuote<Seq<char>>)>) -> Map<
    (Market, Seq<char>),
    QuoteV,
>
    decreases c.len(),
{
    if c.len() == 0 {
        Map::empty()
    } else {
        let m = retrato_do_cache(c.drop_last());
        match quote_do_cache(c.last()) {
            Some(q) => m.insert(q.ativo, q),
            None => m,
        }
    }
}

/// The local clock of every entry of a cache fits.
pub open spec fn cache_cabe(c: Seq<(Seq<char>, CachedQuote<Seq<char>>)>) -> bool {
    forall|i: int| 0 <= i < c.len() ==> cabe((#[trigger] c[i]).1.em, BRT_OFFSET)
}

/// Reads an entry of the cache as a quote.
fn ler_do_cache(chave: &str, c: &CachedQuote<String>) -> (r: Option<Quote>)
    ensures
        (match r {
            Some(q) => quote_do_cache((chave@, c@)) == Some(q@),
            None => quote_do_cache((chave@, c@)) is None,
        }),
{
    match AssetId::parse(chave) {
        Some(ativo) => {
            let moeda = match Moeda::parse(c.moeda.as_str()) {
                Some(m) => m,
                None => Moeda::Brl,
            };
            Some(
                Quote {
                    fonte: "cache",
                    ativo,
                    preco: c.preco,
                    anterior: c.anterior,
                    moeda,
                    grade: Grade::de_code(c.grade.as_str()),
                    em: c.em,
                    volume: None,
                    max24: None,
                    min24: None,
                },
            )
        },
        None => None,
    }
}

/// The first source that covers an asset and, where `so_remotos`, goes to the network.
pub open spec fn quem(ps: Seq<Provedor>, a: (Market, Seq<char>), so_remotos: bool) -> Option<
    Provedor,
>
    decreases ps.len(),
{
    if ps.len() == 0 {
        None
    } else if ps[0].cobre(a) && (!so_remotos || ps[0] != Provedor::Manual) {
        Some(ps[0])
    } else {
        quem(ps.skip(1), a, so_remotos)
    }
}

/// The market of an asset is moving: somebody fetches it, and says that it is open.
pub open spec fn mercado_andando(
    ps: Seq<Provedor>,
    a: (Market, Seq<char>),
    agora: u64,
    feriados: Seq<Data>,
) -> bool {
    match quem(ps, a, true) {
        Some(p) => p.aberto(a, agora, feriados),
        None => false,
    }
}

/// For each quote of a turn, whether its market is moving.
pub open spec fn andando(
    ps: Seq<Provedor>,
    qs: Seq<QuoteV>,
    agora: u64,
    feriados: Seq<Data>,
) -> Seq<bool> {
    Seq::new(qs.len(), |i: int| mercado_andando(ps, qs[i].ativo, agora, feriados))
}

/// The sources that cover an asset, in their order.
pub open spec fn que_cobrem(ps: Seq<Provedor>, a: (Market, Seq<char>)) -> Seq<Provedor> {
    picked(
        ps,
        |p: Provedor|
            if p.cobre(a) {
                Some(p)
            } else {
                None
            },
    )
}

/// Some source serves the figures of the company behind an asset.
pub open spec fn alguem_tem_fundamento(ps: Seq<Provedor>, a: (Market, Seq<char>)) -> bool {
    exists|i: int| 0 <= i < ps.len() && (#[trigger] ps[i]).cobre(a) && ps[i] is Brapi
}

/// Some source can give a history of an asset.
pub open spec fn alguem_tem_historico(ps: Seq<Provedor>, a: (Market, Seq<char>)) -> bool {
    exists|i: int| 0 <= i < ps.len() && (#[trigger] ps[i]).com_historico(a)
}

impl ProviderSet {
    /// One quote for each asset.
    pub open spec fn wf(self) -> bool {
        self.snapshot.wf()
    }

    /// The sources before anybody is asked. The cache goes into the picture first, so that
    /// the screen opens with numbers.
    pub fn new(provedores: Vec<Provedor>, manuais: Vec<Informado>, cache: &Cache) -> (r:
        ProviderSet)
        requires
            cache_cabe(cache_de(cache@)),
        ensures
            r.wf(),
            r.provedores == provedores,
            r.manuais == manuais,
            r.snapshot.por_ativo() == retrato_do_cache(cache_de(cache@)),
            r.snapshot.fontes@.len() == 0,
            r.pedido@.len() == 0,
            !r.ativo && !r.parar && !r.acordar && !r.iniciada,
            r.revisao == 0,
            r.piso == 0,
    {
        let ghost c = cache_de(cache@);
        let mut snapshot = MarketSnapshot::new();
        assert(c.take(0) =~= Seq::empty());
        for i in 0..cache.len()
            invariant
                c == cache_de(cache@),
                cache_cabe(c),
                snapshot.wf(),
                snapshot.fontes@.len() == 0,
                snapshot.por_ativo() == retrato_do_cache(c.take(i as int)),
        {
            assert(c.take(i + 1).drop_last() =~= c.take(i as int));
            assert(c[i as int].1.em == cache@[i as int].1.em);
            assert(cabe(c[i as int].1.em, BRT_OFFSET));
            match ler_do_cache(cache[i].0.as_str(), &cache[i].1) {
                Some(q) => {
                    snapshot.por(q);
                },
                None => {},
            }
        }
        assert(c.take(c.len() as int) =~= c);
        ProviderSet {
            provedores,
            snapshot,
            pedido: Vec::new(),
            manuais,
            ativo: false,
            parar: false,
            acordar: false,
            revisao: 0,
            iniciada: false,
            piso: 0,
        }
    }

    /// Whether the loop is to be started now: some source goes to the network, and it was
    /// not started before.
    pub fn start(&mut self) -> (r: bool)
        ensures
            r == (!old(self).iniciada && exists|i: int|
                0 <= i < old(self).provedores@.len() && #[trigger] old(self).provedores@[i]
                    != Provedor::Manual),
            final(self).iniciada == (old(self).iniciada || r),
            (*final(self)) == (ProviderSet { iniciada: final(self).iniciada, ..*old(self) }),
    {
        let mut algum = false;
        for i in 0..self.provedores.len()
            invariant
                *self == *old(self),
                algum == exists|k: int|
                    0 <= k < i && #[trigger] self.provedores@[k] != Provedor::Manual,
        {
            if self.provedores[i].remoto() {
                assert(self.provedores@[i as int] != Provedor::Manual);
                algum = true;
            }
        }
        if !algum || self.iniciada {
            return false;
        }
        self.iniciada = true;
        true
    }

    /// Sets the least pause between two turns of any source, in milliseconds, and wakes the loop.
    pub fn set_piso(&mut self, piso: u64)
        ensures
            (*final(self)) == (ProviderSet { piso, acordar: true, ..*old(self) }),
    {
        self.piso = piso;
        self.acordar = true;
    }

    /// Whether somebody is fetching now. A screen that says so while nobody is makes a false
    /// promise.
    pub fn buscando(&self) -> (r: bool)
        ensures
            r == self.ativo,
    {
        self.ativo
    }

    /// Turns fetching on and off. Turning it on wakes the loop at once.
    pub fn set_ativo(&mut self, ativo: bool)
        ensures
            (*final(self)) == (ProviderSet {
                ativo,
                acordar: old(self).acordar || (ativo && !old(self).ativo),
                ..*old(self)
            }),
    {
        if self.ativo == ativo {
            return;
        }
        self.ativo = ativo;
        if ativo {
            self.acordar = true;
        }
    }

    /// Tells the loop to leave.
    pub fn parar(&mut self)
        ensures
            (*final(self)) == (ProviderSet { parar: true, acordar: true, ..*old(self) }),
    {
        self.parar = true;
        self.acordar = true;
    }

    /// How many times the picture has changed.
    pub fn revisao(&self) -> (r: u64)
        ensures
            r == self.revisao,
    {
        self.revisao
    }

    /// Sets what is to be fetched. Asking for the same again wakes nobody.
    pub fn pedir(&mut self, ativos: Vec<AssetId>)
        ensures
            vistos(final(self).pedido@) == vistos(ativos@),
            final(self).acordar == (old(self).acordar || vistos(old(self).pedido@) != vistos(
                ativos@,
            )),
            (*final(self)) == (ProviderSet {
                pedido: final(self).pedido,
                acordar: final(self).acordar,
                ..*old(self)
            }),
    {
        if mesma_lista(&self.pedido, &ativos) {
            return;
        }
        self.pedido = ativos;
        self.acordar = true;
    }

    /// Sets the typed prices. They are the ones that the source of typed prices reads.
    pub fn set_manuais(&mut self, manuais: Vec<Informado>)
        ensures
            (*final(self)) == (ProviderSet { manuais, ..*old(self) }),
    {
        self.manuais = manuais;
    }

    /// The loop has slept and is awake: it takes the wake-up call with it.
    pub fn acordou(&mut self)
        ensures
            (*final(self)) == (ProviderSet { acordar: false, ..*old(self) }),
    {
        self.acordar = false;
    }

    /// The first source that covers an asset and goes to the network: whether a number has a
    /// source, or was typed by somebody.
    pub fn quem_busca(&self, ativo: &AssetId) -> (r: Option<Provedor>)
        ensures
            r == quem(self.provedores@, ativo@, true),
    {
        self.procurar(ativo, true)
    }

    /// The first source that covers an asset.
    pub fn quem_cobre(&self, ativo: &AssetId) -> (r: Option<Provedor>)
        ensures
            r == quem(self.provedores@, ativo@, false),
    {
        self.procurar(ativo, false)
    }

    fn procurar(&self, ativo: &AssetId, so_remotos: bool) -> (r: Option<Provedor>)
        ensures
            r == quem(self.provedores@, ativo@, so_remotos),
    {
        let ghost ps = self.provedores@;
        assert(ps.skip(0) =~= ps);
        for i in 0..self.provedores.len()
            invariant
                ps == self.provedores@,
                quem(ps.skip(i as int), ativo@, so_remotos) == quem(ps, ativo@, so_remotos),
        {
            assert(ps.skip(i as int)[0] == ps[i as int]);
            assert(ps.skip(i as int).skip(1) =~= ps.skip(i + 1));
            let p = self.provedores[i];
            if p.covers(ativo) && (!so_remotos || p.remoto()) {
                return Some(p);
            }
        }
        None
    }

    /// The chain of an asset: the sources that cover it, in the order in which they are asked
    /// until one delivers.
    pub fn cobrem(&self, ativo: &AssetId) -> (r: Vec<Provedor>)
        ensures
            r@ == que_cobrem(self.provedores@, ativo@),
    {
        let ghost ps = self.provedores@;
        let ghost f = |p: Provedor|
            if p.cobre(ativo@) {
                Some(p)
            } else {
                None
            };
        let mut r: Vec<Provedor> = Vec::new();
        proof {
            lemma_pick_ends(ps, f);
        }
        for i in 0..self.provedores.len()
            invariant
                ps == self.provedores@,
                f == (|p: Provedor|
                    if p.cobre(ativo@) {
                        Some(p)
                    } else {
                        None
                    }),
                r@ == picked(ps.take(i as int), f),
        {
            proof {
                lemma_pick(ps, f, i as int);
            }
            if self.provedores[i].covers(ativo) {
                r.push(self.provedores[i]);
            }
        }
        r
    }

    /// Whether some source serves the figures of the company behind an asset: what tells a
    /// company from a pair of currencies.
    pub fn tem_fundamento(&self, ativo: &AssetId) -> (r: bool)
        ensures
            r == alguem_tem_fundamento(self.provedores@, ativo@),
    {
        for i in 0..self.provedores.len()
            invariant
                forall|k: int|
                    0 <= k < i ==> !((#[trigger] self.provedores@[k]).cobre(ativo@)
                        && self.provedores@[k] is Brapi),
        {
            if self.provedores[i].covers(ativo) && self.provedores[i].tem_fundamento() {
                assert(self.provedores@[i as int].cobre(ativo@));
                return true;
            }
        }
        false
    }

    /// Whether some source can give a history of an asset: what the screens that draw over time
    /// ask, in place of a list of markets of their own.
    pub fn tem_historico(&self, ativo: &AssetId) -> (r: bool)
        ensures
            r == alguem_tem_historico(self.provedores@, ativo@),
    {
        for i in 0..self.provedores.len()
            invariant
                forall|k: int|
                    0 <= k < i ==> !(#[trigger] self.provedores@[k]).com_historico(ativo@),
        {
            if self.provedores[i].tem_historico(ativo) {
                assert(self.provedores@[i as int].com_historico(ativo@));
                return true;
            }
        }
        false
    }

    /// Puts the outcome of a turn into the picture.
    pub fn publicar(
        &mut self,
        novos: Vec<Quote>,
        fontes: Vec<StatusFonte>,
        agora: u64,
        feriados: &[Data],
    )
        requires
            old(self).wf(),
            cabe(agora, BRT_OFFSET),
            forall|i: int| 0 <= i < novos@.len() ==> cabe(#[trigger] novos@[i].em, BRT_OFFSET),
        ensures
            final(self).wf(),
            final(self).snapshot.por_ativo() == recebidas(
                old(self).snapshot.por_ativo(),
                valores(novos@),
                andando(old(self).provedores@, valores(novos@), agora, feriados@),
            ),
            final(self).snapshot.fontes@ == com_fontes(old(self).snapshot.fontes@, fontes@),
            final(self).revisao == (old(self).revisao + 1) % 0x1_0000_0000_0000_0000,
            (*final(self)) == (ProviderSet {
                snapshot: final(self).snapshot,
                revisao: final(self).revisao,
                ..*old(self)
            }),
    {
        let mut movem: Vec<bool> = Vec::new();
        let ghost qs = valores(novos@);
        for i in 0..novos.len()
            invariant
                *self == *old(self),
                cabe(agora, BRT_OFFSET),
                qs == valores(novos@),
                movem@ =~= andando(self.provedores@, qs, agora, feriados@).take(i as int),
        {
            let m = match self.quem_busca(&novos[i].ativo) {
                Some(p) => p.is_open(&novos[i].ativo, agora, feriados),
                None => false,
            };
            assert(qs[i as int].ativo == novos@[i as int].ativo@);
            movem.push(m);
        }
        assert(movem@ =~= andando(self.provedores@, qs, agora, feriados@));
        self.snapshot.publicar(novos, movem.as_slice(), fontes);
        self.revisao = self.revisao.wrapping_add(1);
    }

    /// What the cache keeps of the picture, for the next time to open with numbers.
    pub fn para_cache(&self, agora: u64) -> (r: Cache)
        ensures
            r@.len() == self.snapshot.quotes@.len(),
            forall|i: int|
                0 <= i < r@.len() ==> (#[trigger] cache_de(r@)[i]) == entrada_do_cache(
                    self.snapshot.quotes@[i]@,
                    agora,
                ),
    {
        let mut r: Cache = Vec::new();
        let qs = &self.snapshot.quotes;
        for i in 0..qs.len()
            invariant
                *qs == self.snapshot.quotes,
                r@.len() == i,
                forall|k: int|
                    0 <= k < i ==> (#[trigger] cache_de(r@)[k]) == entrada_do_cache(
                        qs@[k]@,
                        agora,
                    ),
        {
            let q = &qs[i];
            let ghost antes = cache_de(r@);
            let c = CachedQuote {
                preco: q.preco,
                em: q.em,
                gravado_em: Some(agora),
                anterior: q.anterior,
                grade: q.grade.code().to_owned(),
                moeda: q.moeda.code().to_owned(),
            };
            let ghost x = entrada_do_cache(q@, agora);
            r.push((q.ativo.chave(), c));
            assert(cache_de(r@) =~= antes.push(x));
        }
        r
    }
}

/// What the cache keeps of a quote.
pub open spec fn entrada_do_cache(q: QuoteV, agora: u64) -> (Seq<char>, CachedQuote<Seq<char>>) {
    (
        chave_de(q.ativo),
        CachedQuote {
            preco: q.preco,
            em: q.em,
            gravado_em: Some(agora),
            anterior: q.anterior,
            grade: q.grade.codigo(),
            moeda: q.moeda.codigo(),
        },
    )
}

/// Whether two lists are of the same assets in the same order.
fn mesma_lista(a: &Vec<AssetId>, b: &Vec<AssetId>) -> (r: bool)
    ensures
        r == (vistos(a@) == vistos(b@)),
{
    let ghost x = vistos(a@);
    let ghost y = vistos(b@);
    if a.len() != b.len() {
        assert(x.len() != y.len());
        return false;
    }
    for i in 0..a.len()
        invariant
            a@.len() == b@.len(),
            x == vistos(a@),
            y == vistos(b@),
            forall|k: int| 0 <= k < i ==> x[k] == y[k],
    {
        assert(x[i as int] == a@[i as int]@ && y[i as int] == b@[i as int]@);
        if !a[i].igual(&b[i]) {
            return false;
        }
    }
    assert(x =~= y);
    true
}

/// A quote that goes to the cache opens the next run as the same price of the same asset, in
/// the same currency and from the same instant, with its source forgotten.
pub proof fn lemma_cache_volta(q: QuoteV, agora: u64)
    ensures
        quote_do_cache(entrada_do_cache(q, agora)) == Some(
            QuoteV {
                fonte: "cache"@,
                grade: Grade::de_codigo(q.grade.codigo()),
                volume: None,
                max24: None,
                min24: None,
                ..q
            },
        ),
{
    crate::invest::model::lemma_chave_volta(q.ativo);
    crate::invest::model::lemma_moeda(q.moeda);
}

/// Who answers for an asset: the first source of the chain that covers it, the typed prices left
/// out where only the remote ones count.
pub proof fn lemma_quem(ps: Seq<Provedor>, a: (Market, Seq<char>), so_remotos: bool)
    ensures
        (match quem(ps, a, so_remotos) {
            Some(p) => exists|k: int|
                0 <= k < ps.len() && #[trigger] ps[k] == p && p.cobre(a) && !(so_remotos && p
                    == Provedor::Manual) && forall|j: int|
                    0 <= j < k ==> !(#[trigger] ps[j]).cobre(a) || (so_remotos && ps[j]
                        == Provedor::Manual),
            None => forall|j: int|
                0 <= j < ps.len() ==> !(#[trigger] ps[j]).cobre(a) || (so_remotos && ps[j]
                    == Provedor::Manual),
        }),
    decreases ps.len(),
{
    if ps.len() > 0 && !(ps[0].cobre(a) && (!so_remotos || ps[0] != Provedor::Manual)) {
        let t = ps.skip(1);
        lemma_quem(t, a, so_remotos);
        match quem(t, a, so_remotos) {
            Some(p) => {
                let k = choose|k: int|
                    0 <= k < t.len() && #[trigger] t[k] == p && p.cobre(a) && !(so_remotos && p
                        == Provedor::Manual) && forall|j: int|
                        0 <= j < k ==> !(#[trigger] t[j]).cobre(a) || (so_remotos && t[j]
                            == Provedor::Manual);
                assert(ps[k + 1] == p);
                assert forall|j: int| 0 <= j < k + 1 implies !(#[trigger] ps[j]).cobre(a) || (
                so_remotos && ps[j] == Provedor::Manual) by {
                    if j > 0 {
                        assert(t[j - 1] == ps[j]);
                    }
                }
            },
            None => {
                assert forall|j: int| 0 <= j < ps.len() implies !(#[trigger] ps[j]).cobre(a) || (
                so_remotos && ps[j] == Provedor::Manual) by {
                    if j > 0 {
                        assert(t[j - 1] == ps[j]);
                    }
                }
            },
        }
    }
}

/// In the chain as it is built, each market has its first source.
pub proof fn lemma_quem_responde(com_token: bool, simbolo: Seq<char>)
    ensures
        quem(cadeia(com_token), (Market::B3, simbolo), true) == Some(Provedor::Kinvo),
        quem(cadeia(com_token), (Market::Us, simbolo), true) == Some(Provedor::Yahoo),
        quem(cadeia(com_token), (Market::Binance, simbolo), true) == Some(Provedor::Binance),
        quem(cadeia(com_token), (Market::Fx, "USDBRL"@), true) == Some(Provedor::Cambio),
{
    let c = cadeia(com_token);
    reveal_with_fuel(quem, 6);
    assert(c.skip(1)[0] == c[1]);
    assert(c.skip(1).skip(1)[0] == c[2]);
    assert(c.skip(1).skip(1).skip(1)[0] == c[3]);
    assert(c.skip(1).skip(1).skip(1).skip(1)[0] == c[4]);
}

/// What a run opens with: the last entry of the cache for each asset that it names.
pub proof fn lemma_retrato_do_cache(
    c: Seq<(Seq<char>, CachedQuote<Seq<char>>)>,
    a: (Market, Seq<char>),
)
    ensures
        (if retrato_do_cache(c).dom().contains(a) {
            exists|k: int|
                0 <= k < c.len() && quote_do_cache(#[trigger] c[k]) == Some(retrato_do_cache(c)[a])
                    && ativo_de(c[k].0) == Some(a) && forall|j: int|
                    k < j < c.len() ==> ativo_de((#[trigger] c[j]).0) != Some(a)
        } else {
            forall|j: int| 0 <= j < c.len() ==> ativo_de((#[trigger] c[j]).0) != Some(a)
        }),
    decreases c.len(),
{
    if c.len() > 0 {
        let w = c.drop_last();
        lemma_retrato_do_cache(w, a);
        assert(c[c.len() - 1] == c.last());
        if ativo_de(c.last().0) == Some(a) {
            assert(quote_do_cache(c[c.len() - 1]) == Some(retrato_do_cache(c)[a]));
        } else if retrato_do_cache(w).dom().contains(a) {
            let k = choose|k: int|
                0 <= k < w.len() && quote_do_cache(#[trigger] w[k]) == Some(retrato_do_cache(w)[a])
                    && ativo_de(w[k].0) == Some(a) && forall|j: int|
                    k < j < w.len() ==> ativo_de((#[trigger] w[j]).0) != Some(a);
            assert(c[k] == w[k]);
            assert forall|j: int| k < j < c.len() implies ativo_de((#[trigger] c[j]).0) != Some(
                a,
            ) by {
                if j < w.len() {
                    assert(w[j] == c[j]);
                }
            }
        } else {
            assert forall|j: int| 0 <= j < c.len() implies ativo_de((#[trigger] c[j]).0) != Some(
                a,
            ) by {
                if j < w.len() {
                    assert(w[j] == c[j]);
                }
            }
        }
    }
}

} // verus!
