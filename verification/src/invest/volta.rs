//! One turn of the loop that asks the sources.
//!
//! The loop itself waits, reads the clock and talks to the network. What it decides is here:
//! which source is asked about what, what each answer does to the rest of the turn, and how
//! long to sleep after it.

use vstd::prelude::*;
use crate::pick::picked;
use crate::invest::model::{vistos, AssetId, FeedError, Market};
use crate::invest::provider::{
    aplicar_recuo, conta_como_busca, recuado, valores, Quote, QuoteV, RECUO_MAX, StatusFonte,
};
use crate::invest::providers::Provedor;
use crate::invest::tempo::{cabe, BRT_OFFSET, Data};

verus! {

/// The pace of a source while its market is closed, in milliseconds: the price does not
/// change, and insisting is spending quota for nothing.
pub const FECHADO: u64 = 60_000;

/// The longest sleep between two turns while somebody is looking, in milliseconds.
pub const PASSO: u64 = 2_000;

/// The shortest sleep between two turns, in milliseconds.
pub const PISO_DO_SONO: u64 = 500;

/// The sleep while nobody is looking, in milliseconds.
pub const DESLIGADO: u64 = 3_600_000;

/// What the loop does next.
#[derive(Clone, Copy, PartialEq, Eq, Debug, Structural)]
pub enum Passo {
    Sair,
    Dormir(u64),
    Rodar,
}

/// What the loop does next: it leaves when told to stop, sleeps while nobody is looking,
/// and otherwise makes a turn.
pub fn proximo_passo(parar: bool, ativo: bool) -> (r: Passo)
    ensures
        r == (if parar {
            Passo::Sair
        } else if !ativo {
            Passo::Dormir(DESLIGADO)
        } else {
            Passo::Rodar
        }),
{
    if parar {
        Passo::Sair
    } else if !ativo {
        Passo::Dormir(DESLIGADO)
    } else {
        Passo::Rodar
    }
}

/// What the loop remembers of a source between turns.
#[derive(Clone, Copy, PartialEq, Eq, Debug, Structural)]
pub struct Relogio {
    /// The instant, in milliseconds, before which the source is not asked again.
    pub proxima: Option<u64>,
    /// How many times its wait has doubled.
    pub recuo: u32,
}

/// How a source is called, and whether it talks to the network.
#[derive(Clone, Copy)]
pub struct Origem {
    pub id: &'static str,
    pub nome: &'static str,
    pub remoto: bool,
}

/// The members of a list whose flag is set.
pub open spec fn marcados(v: Seq<(Market, Seq<char>)>, marca: Seq<bool>) -> Seq<(Market, Seq<char>)>
    decreases v.len(),
{
    if v.len() == 0 {
        v
    } else if marca[v.len() - 1] {
        marcados(v.drop_last(), marca).push(v.last())
    } else {
        marcados(v.drop_last(), marca)
    }
}

/// An asset has a quote in a list.
pub open spec fn entregue(a: (Market, Seq<char>), qs: Seq<QuoteV>) -> bool {
    exists|i: int| 0 <= i < qs.len() && #[trigger] qs[i].ativo == a
}

/// The assets of a list that have no quote in another.
pub open spec fn restantes(v: Seq<(Market, Seq<char>)>, qs: Seq<QuoteV>) -> Seq<
    (Market, Seq<char>),
>
    decreases v.len(),
{
    if v.len() == 0 {
        v
    } else if entregue(v.last(), qs) {
        restantes(v.drop_last(), qs)
    } else {
        restantes(v.drop_last(), qs).push(v.last())
    }
}

/// The chain of reserves: what a source delivered is asked of nobody else in this turn, and
/// what it did not deliver stays for the next one that covers it.
pub proof fn lemma_cadeia(v: Seq<(Market, Seq<char>)>, qs: Seq<QuoteV>, a: (Market, Seq<char>))
    ensures
        restantes(v, qs).contains(a) <==> v.contains(a) && !entregue(a, qs),
    decreases v.len(),
{
    if v.len() > 0 {
        let p = restantes(v.drop_last(), qs);
        lemma_cadeia(v.drop_last(), qs, a);
        assert(v =~= v.drop_last().push(v.last()));
        lemma_no_fim(v.drop_last(), v.last(), a);
        lemma_no_fim(p, v.last(), a);
    }
}

/// A source is asked exactly about the pending assets that it covers.
pub proof fn lemma_perguntados(
    v: Seq<(Market, Seq<char>)>,
    marca: Seq<bool>,
    a: (Market, Seq<char>),
)
    ensures
        marcados(v, marca).contains(a) <==> exists|i: int|
            0 <= i < v.len() && #[trigger] v[i] == a && marca[i],
    decreases v.len(),
{
    if v.len() > 0 {
        let w = v.drop_last();
        let p = marcados(w, marca);
        lemma_perguntados(w, marca, a);
        lemma_no_fim(p, v.last(), a);
        if marcados(w, marca).contains(a) {
            let i = choose|i: int| 0 <= i < w.len() && #[trigger] w[i] == a && marca[i];
            assert(v[i] == a);
        }
        if exists|i: int| 0 <= i < v.len() && #[trigger] v[i] == a && marca[i] {
            let i = choose|i: int| 0 <= i < v.len() && #[trigger] v[i] == a && marca[i];
            if i < w.len() {
                assert(w[i] == a);
            }
        }
        if v.last() == a && marca[v.len() - 1] {
            assert(v[v.len() - 1] == a);
        }
    }
}

proof fn lemma_no_fim(v: Seq<(Market, Seq<char>)>, x: (Market, Seq<char>), a: (Market, Seq<char>))
    ensures
        v.push(x).contains(a) <==> v.contains(a) || x == a,
{
    let w = v.push(x);
    if w.contains(a) {
        let i = choose|i: int| 0 <= i < w.len() && w[i] == a;
        if i < v.len() {
            assert(v[i] == a);
        }
    }
    if v.contains(a) {
        let i = choose|i: int| 0 <= i < v.len() && v[i] == a;
        assert(w[i] == a);
    }
    assert(w[v.len() as int] == x);
}

/// A sum that stops at the largest number.
pub open spec fn soma(a: int, b: int) -> int {
    if a + b > u64::MAX {
        u64::MAX as int
    } else {
        a + b
    }
}

/// The smaller of two.
pub open spec fn menor_de(a: int, b: int) -> int {
    if a < b {
        a
    } else {
        b
    }
}

/// The state of a source that answered.
pub open spec fn respondeu(o: Origem, agora: u64, peso: Option<u64>, s: StatusFonte) -> bool {
    s.id == o.id && s.nome == o.nome && s.ok && s.erro is None && s.ultima_volta == Some(agora)
        && s.espera is None && s.peso == peso
}

/// The state of a source that failed.
pub open spec fn falhou(o: Origem, frase: Seq<char>, espera: int, s: StatusFonte) -> bool {
    s.id == o.id && s.nome == o.nome && !s.ok && s.erro is Some && s.erro->0@ == frase
        && s.ultima_volta is None && s.espera == Some(espera as u64) && s.peso is None
}

/// How many steps the wait has after a failure: all of them at once when asking again would
/// give the same answer.
pub open spec fn passos_depois(passos: int, erro: FeedError) -> int {
    if erro.sem_volta() {
        RECUO_MAX as int
    } else {
        menor_de(passos + 1, RECUO_MAX as int)
    }
}

/// One turn, as it stands between two sources.
pub struct Volta {
    /// What nobody has delivered yet in this turn.
    pub pendentes: Vec<AssetId>,
    /// How long to sleep after it, in milliseconds.
    pub espera: u64,
    pub novos: Vec<Quote>,
    pub fontes: Vec<StatusFonte>,
}

/// Whether a source is asked now.
#[derive(Clone, Copy, PartialEq, Eq, Debug, Structural)]
pub enum Vez {
    /// Not yet.
    Esperar,
    /// Now, and then not again for this many milliseconds.
    Perguntar(u64),
}

impl Volta {
    /// A turn that has asked nobody yet.
    pub fn comecar(ativos: &[AssetId]) -> (r: Volta)
        ensures
            vistos(r.pendentes@) == vistos(ativos@),
            r.espera == PASSO,
            r.novos@.len() == 0,
            r.fontes@.len() == 0,
    {
        let mut pendentes: Vec<AssetId> = Vec::new();
        for i in 0..ativos.len()
            invariant
                vistos(pendentes@) =~= vistos(ativos@).take(i as int),
        {
            let ghost antes = pendentes@;
            let a = ativos[i].clone();
            pendentes.push(a);
            assert(vistos(pendentes@) =~= vistos(antes).push(ativos@[i as int]@));
        }
        assert(vistos(pendentes@) =~= vistos(ativos@));
        Volta { pendentes, espera: PASSO, novos: Vec::new(), fontes: Vec::new() }
    }

    /// The pending assets that a source covers.
    pub fn meus(&self, cobre: &[bool]) -> (r: Vec<AssetId>)
        requires
            cobre@.len() == self.pendentes@.len(),
        ensures
            vistos(r@) == marcados(vistos(self.pendentes@), cobre@),
    {
        let mut r: Vec<AssetId> = Vec::new();
        let ghost todos = vistos(self.pendentes@);
        assert(vistos(r@) =~= marcados(todos.take(0), cobre@));
        for i in 0..self.pendentes.len()
            invariant
                cobre@.len() == self.pendentes@.len(),
                todos == vistos(self.pendentes@),
                vistos(r@) == marcados(todos.take(i as int), cobre@),
        {
            assert(todos.take(i + 1).drop_last() =~= todos.take(i as int));
            if cobre[i] {
                let ghost antes = r@;
                let a = self.pendentes[i].clone();
                r.push(a);
                assert(vistos(r@) =~= vistos(antes).push(todos[i as int]));
            }
        }
        assert(todos.take(todos.len() as int) =~= todos);
        r
    }

    /// Whether a source is asked now. `aberto` says that some market of what it would be
    /// asked about is open; `piso` is the least pause between two turns of any source. All times
    /// are in milliseconds.
    pub fn consultar(
        &mut self,
        relogio: &Relogio,
        aberto: bool,
        intervalo: u64,
        piso: u64,
        agora: u64,
    ) -> (r: (Vez, u64))
        ensures
            r.1 == base_de(aberto, intervalo, piso),
            r.0 == (match relogio.proxima {
                Some(t) if agora < t => Vez::Esperar,
                _ => Vez::Perguntar(recuado(r.1 as nat, relogio.recuo as nat) as u64),
            }),
            final(self).espera == (match relogio.proxima {
                Some(t) if agora < t => menor_de(old(self).espera as int, t - agora),
                _ => old(self).espera as int,
            }),
            final(self).pendentes == old(self).pendentes,
            final(self).novos == old(self).novos,
            final(self).fontes == old(self).fontes,
    {
        let base: u64 = base(aberto, intervalo, piso);
        match relogio.proxima {
            Some(t) => {
                if agora < t {
                    let falta: u64 = t - agora;
                    if falta < self.espera {
                        self.espera = falta;
                    }
                    return (Vez::Esperar, base);
                }
            },
            None => {},
        }
        (Vez::Perguntar(aplicar_recuo(base, relogio.recuo)), base)
    }

    /// Takes what a source delivered off the list.
    fn riscar(&mut self, quotes: &Vec<Quote>)
        ensures
            vistos(final(self).pendentes@) == restantes(
                vistos(old(self).pendentes@),
                valores(quotes@),
            ),
            final(self).espera == old(self).espera,
            final(self).novos == old(self).novos,
            final(self).fontes == old(self).fontes,
    {
        let ghost todos = vistos(self.pendentes@);
        let ghost qs = valores(quotes@);
        let mut ficam: Vec<AssetId> = Vec::new();
        assert(vistos(ficam@) =~= restantes(todos.take(0), qs));
        for i in 0..self.pendentes.len()
            invariant
                *self == *old(self),
                todos == vistos(self.pendentes@),
                qs == valores(quotes@),
                vistos(ficam@) == restantes(todos.take(i as int), qs),
        {
            assert(todos.take(i + 1).drop_last() =~= todos.take(i as int));
            assert(todos.take(i + 1).last() == self.pendentes@[i as int]@);
            let mut tem = false;
            for j in 0..quotes.len()
                invariant
                    *self == *old(self),
                    i < self.pendentes@.len(),
                    qs == valores(quotes@),
                    tem == (exists|k: int|
                        0 <= k < j && #[trigger] qs[k].ativo == self.pendentes@[i as int]@),
            {
                if quotes[j].ativo.igual(&self.pendentes[i]) {
                    assert(qs[j as int].ativo == self.pendentes@[i as int]@);
                    tem = true;
                }
            }
            if !tem {
                let ghost antes = ficam@;
                let a = self.pendentes[i].clone();
                ficam.push(a);
                assert(vistos(ficam@) =~= vistos(antes).push(todos[i as int]));
            }
        }
        assert(todos.take(todos.len() as int) =~= todos);
        self.pendentes = ficam;
    }

    /// A source answered. Only what it did deliver leaves the list: one that gave half of
    /// the assets leaves the other half to the next. The result says whether the answer
    /// counts as having spoken with the source.
    pub fn ouvir(
        &mut self,
        relogio: &mut Relogio,
        origem: Origem,
        intervalo: u64,
        agora: u64,
        agora_epoch: u64,
        quotes: Vec<Quote>,
        peso: Option<u64>,
    ) -> (r: bool)
        ensures
            r == (origem.remoto && quotes@.len() > 0),
            final(relogio).proxima == Some(soma(agora as int, intervalo as int) as u64),
            final(relogio).recuo == 0,
            final(self).espera == menor_de(old(self).espera as int, intervalo as int),
            vistos(final(self).pendentes@) == restantes(
                vistos(old(self).pendentes@),
                valores(quotes@),
            ),
            final(self).novos@ == old(self).novos@ + quotes@,
            origem.remoto ==> final(self).fontes@.len() == old(self).fontes@.len() + 1
                && final(self).fontes@.drop_last() == old(self).fontes@ && respondeu(
                origem,
                agora_epoch,
                peso,
                final(self).fontes@.last(),
            ),
            !origem.remoto ==> final(self).fontes@ == old(self).fontes@,
    {
        relogio.proxima = Some(agora.saturating_add(intervalo));
        relogio.recuo = 0;
        if intervalo < self.espera {
            self.espera = intervalo;
        }
        self.riscar(&quotes);
        let conta = conta_como_busca(origem.remoto, quotes.len());
        let mut quotes = quotes;
        self.novos.append(&mut quotes);
        if origem.remoto {
            self.fontes.push(
                StatusFonte {
                    id: origem.id,
                    nome: origem.nome,
                    ok: true,
                    erro: None,
                    ultima_volta: Some(agora_epoch),
                    espera: None,
                    peso,
                },
            );
            assert(self.fontes@.drop_last() =~= old(self).fontes@);
        }
        conta
    }

    /// A source failed, and everything it was asked stays for the next one that covers it.
    /// When the server said how long to wait, that is the wait.
    pub fn sofrer(
        &mut self,
        relogio: &mut Relogio,
        origem: Origem,
        base: u64,
        intervalo: u64,
        agora: u64,
        erro: &FeedError,
        frase: String,
    )
        ensures
            final(relogio).recuo == passos_depois(old(relogio).recuo as int, *erro),
            final(relogio).proxima == Some(
                (match *erro {
                    FeedError::Cota { retry_after: Some(s) } => soma(agora as int, s * 1000),
                    _ => soma(agora as int, intervalo as int),
                }) as u64,
            ),
            final(self).espera == menor_de(old(self).espera as int, intervalo as int),
            final(self).pendentes == old(self).pendentes,
            final(self).novos == old(self).novos,
            origem.remoto ==> final(self).fontes@.len() == old(self).fontes@.len() + 1
                && final(self).fontes@.drop_last() == old(self).fontes@ && falhou(
                origem,
                frase@,
                recuado(
                    base as nat,
                    passos_depois(old(relogio).recuo as int, *erro) as nat,
                ) as int,
                final(self).fontes@.last(),
            ),
            !origem.remoto ==> final(self).fontes@ == old(self).fontes@,
    {
        relogio.proxima = Some(agora.saturating_add(intervalo));
        if intervalo < self.espera {
            self.espera = intervalo;
        }
        match erro {
            FeedError::Cota { retry_after } => {
                match retry_after {
                    Some(s) => {
                        let fim: u128 = (agora as u128) + (*s as u128) * 1000;
                        relogio.proxima = Some(
                            if fim > 0xffff_ffff_ffff_ffff {
                                u64::MAX
                            } else {
                                fim as u64
                            },
                        );
                    },
                    None => {},
                }
            },
            _ => {},
        }
        let passos: u32 = if erro.desiste() {
            RECUO_MAX
        } else if relogio.recuo >= RECUO_MAX {
            RECUO_MAX
        } else {
            relogio.recuo + 1
        };
        relogio.recuo = passos;
        if origem.remoto {
            self.fontes.push(
                StatusFonte {
                    id: origem.id,
                    nome: origem.nome,
                    ok: false,
                    erro: Some(frase),
                    ultima_volta: None,
                    espera: Some(aplicar_recuo(base, passos)),
                    peso: None,
                },
            );
            assert(self.fontes@.drop_last() =~= old(self).fontes@);
        }
    }

    /// Whether the turn has anything to publish.
    pub fn publica(&self) -> (r: bool)
        ensures
            r == (self.novos@.len() > 0 || self.fontes@.len() > 0),
    {
        self.novos.len() > 0 || self.fontes.len() > 0
    }

    /// How long to sleep after the turn, in milliseconds.
    pub fn sono(&self) -> (r: u64)
        ensures
            r == (if self.espera < PISO_DO_SONO {
                PISO_DO_SONO
            } else {
                self.espera
            }),
    {
        if self.espera < PISO_DO_SONO {
            PISO_DO_SONO
        } else {
            self.espera
        }
    }
}

/// The pace of a source before any stretching: its own while a market is open, one minute
/// while none is, and never below the floor.
pub open spec fn base_de(aberto: bool, intervalo: u64, piso: u64) -> u64 {
    let ritmo = if aberto {
        intervalo
    } else {
        FECHADO
    };
    if ritmo < piso {
        piso
    } else {
        ritmo
    }
}

/// The pace of a source before any stretching.
fn base(aberto: bool, intervalo: u64, piso: u64) -> (r: u64)
    ensures
        r == base_de(aberto, intervalo, piso),
{
    let ritmo: u64 = if aberto {
        intervalo
    } else {
        FECHADO
    };
    if ritmo < piso {
        piso
    } else {
        ritmo
    }
}

/// The assets of a list that a source covers, in their order.
pub open spec fn cobertos(p: Provedor, v: Seq<(Market, Seq<char>)>) -> Seq<(Market, Seq<char>)> {
    marcados(v, Seq::new(v.len(), |i: int| p.cobre(v[i])))
}

/// The market of some asset of a list is open, as a source sees it.
pub open spec fn algum_aberto(
    p: Provedor,
    v: Seq<(Market, Seq<char>)>,
    epoch: u64,
    feriados: Seq<Data>,
) -> bool {
    exists|i: int| 0 <= i < v.len() && p.aberto(#[trigger] v[i], epoch, feriados)
}

/// Whether the market of some asset of a list is open.
fn ha_aberto(p: Provedor, v: &Vec<AssetId>, epoch: u64, feriados: &[Data]) -> (r: bool)
    requires
        cabe(epoch, BRT_OFFSET),
    ensures
        r == algum_aberto(p, vistos(v@), epoch, feriados@),
{
    let ghost vs = vistos(v@);
    for i in 0..v.len()
        invariant
            cabe(epoch, BRT_OFFSET),
            vs == vistos(v@),
            forall|j: int| 0 <= j < i ==> !p.aberto(#[trigger] vs[j], epoch, feriados@),
    {
        if p.is_open(&v[i], epoch, feriados) {
            assert(p.aberto(vs[i as int], epoch, feriados@));
            return true;
        }
    }
    false
}

/// A source is asked exactly about the pending assets that it covers: none that it does not, and
/// none is left out.
pub proof fn lemma_cobertos(p: Provedor, v: Seq<(Market, Seq<char>)>, a: (Market, Seq<char>))
    ensures
        cobertos(p, v).contains(a) <==> v.contains(a) && p.cobre(a),
{
    let marca = Seq::new(v.len(), |i: int| p.cobre(v[i]));
    lemma_perguntados(v, marca, a);
    if v.contains(a) {
        let i = choose|i: int| 0 <= i < v.len() && v[i] == a;
        assert(marca[i] == p.cobre(v[i]));
    }
}

impl Volta {
    /// The turn of a source: the pending assets that it covers, whether it is asked about them
    /// now, and its pace before any stretching. A source that covers nothing of what is pending
    /// is not asked, and does not shorten the sleep. `epoch` is the time of day, in seconds; the
    /// other times are in milliseconds.
    pub fn vez_de(
        &mut self,
        p: Provedor,
        relogio: &Relogio,
        piso: u64,
        agora: u64,
        epoch: u64,
        feriados: &[Data],
    ) -> (r: (Vec<AssetId>, Vez, u64))
        requires
            cabe(epoch, BRT_OFFSET),
        ensures
            vistos(r.0@) == cobertos(p, vistos(old(self).pendentes@)),
            r.2 == base_de(
                algum_aberto(p, vistos(r.0@), epoch, feriados@),
                p.ritmo(),
                piso,
            ),
            r.1 == (match relogio.proxima {
                _ if r.0@.len() == 0 => Vez::Esperar,
                Some(t) if agora < t => Vez::Esperar,
                _ => Vez::Perguntar(recuado(r.2 as nat, relogio.recuo as nat) as u64),
            }),
            final(self).espera == (match relogio.proxima {
                Some(t) if r.0@.len() > 0 && agora < t => menor_de(
                    old(self).espera as int,
                    t - agora,
                ),
                _ => old(self).espera as int,
            }),
            final(self).pendentes == old(self).pendentes,
            final(self).novos == old(self).novos,
            final(self).fontes == old(self).fontes,
    {
        let ghost todos = vistos(self.pendentes@);
        let mut cobre: Vec<bool> = Vec::new();
        for i in 0..self.pendentes.len()
            invariant
                *self == *old(self),
                todos == vistos(self.pendentes@),
                cobre@ =~= Seq::new(i as nat, |j: int| p.cobre(todos[j])),
        {
            cobre.push(p.covers(&self.pendentes[i]));
        }
        assert(cobre@ =~= Seq::new(todos.len(), |j: int| p.cobre(todos[j])));
        let meus = self.meus(cobre.as_slice());
        assert(vistos(meus@).len() == meus@.len());
        if meus.len() == 0 {
            let base = base(false, p.intervalo(), piso);
            return (meus, Vez::Esperar, base);
        }
        let aberto = ha_aberto(p, &meus, epoch, feriados);
        let (vez, base) = self.consultar(relogio, aberto, p.intervalo(), piso, agora);
        (meus, vez, base)
    }
}

// --- the chain of reserves for one question ----------------------------------------------------

/// What the chain has heard so far, when nobody has delivered yet: the last error.
pub struct Cadeia {
    pub ultimo_erro: Option<FeedError>,
}

/// What a source says when asked a question it may not serve.
pub enum Resposta<T> {
    /// It does not serve this.
    NaoServe,
    Entregou(T),
    Falhou(FeedError),
}

impl Cadeia {
    /// A chain that has heard nobody.
    pub fn nova() -> (r: Cadeia)
        ensures
            r.ultimo_erro is None,
    {
        Cadeia { ultimo_erro: None }
    }

    /// Hears the next source. The first that delivers ends the chain; one that fails leaves
    /// its error; one that does not serve this passes the turn.
    pub fn ouvir<T>(&mut self, r: Resposta<T>) -> (s: Option<T>)
        ensures
            (match r {
                Resposta::Entregou(v) => s == Some(v) && final(self).ultimo_erro == old(
                    self,
                ).ultimo_erro,
                Resposta::Falhou(e) => s is None && final(self).ultimo_erro == Some(e),
                Resposta::NaoServe => s is None && final(self).ultimo_erro == old(
                    self,
                ).ultimo_erro,
            }),
    {
        match r {
            Resposta::Entregou(v) => Some(v),
            Resposta::Falhou(e) => {
                self.ultimo_erro = Some(e);
                None
            },
            Resposta::NaoServe => None,
        }
    }

    /// What is answered when nobody delivered: the last error, or nothing when no source
    /// that covers the asset serves this.
    pub fn fim<T>(self) -> (r: Option<Result<T, FeedError>>)
        ensures
            (match self.ultimo_erro {
                Some(e) => r == Some(Err::<T, FeedError>(e)),
                None => r is None,
            }),
    {
        match self.ultimo_erro {
            Some(e) => Some(Err(e)),
            None => None,
        }
    }
}

/// The answer of a whole chain of sources: the first delivery, else the last error, else
/// nothing.
pub open spec fn resposta_da_cadeia<T>(rs: Seq<Resposta<T>>) -> Option<Result<T, FeedError>>
    decreases rs.len(),
{
    if rs.len() == 0 {
        None
    } else {
        match rs[0] {
            Resposta::Entregou(v) => Some(Ok(v)),
            Resposta::NaoServe => resposta_da_cadeia(rs.skip(1)),
            Resposta::Falhou(e) => match resposta_da_cadeia(rs.skip(1)) {
                Some(r) => Some(r),
                None => Some(Err(e)),
            },
        }
    }
}

/// Runs a chain over answers already given.
pub fn percorrer<T>(respostas: Vec<Resposta<T>>) -> (r: Option<Result<T, FeedError>>)
    ensures
        r == resposta_da_cadeia(respostas@),
{
    let ghost todas = respostas@;
    let mut rs = respostas;
    let mut c = Cadeia::nova();
    let ghost mut feitas: int = 0;
    assert(todas.skip(0) =~= todas);
    while rs.len() > 0
        invariant
            todas == respostas@,
            0 <= feitas <= todas.len(),
            rs@ == todas.skip(feitas),
            resposta_da_cadeia(todas) == (match resposta_da_cadeia(rs@) {
                Some(x) => Some(x),
                None => match c.ultimo_erro {
                    Some(e) => Some(Err::<T, FeedError>(e)),
                    None => None,
                },
            }),
        decreases rs@.len(),
    {
        let ghost antes = rs@;
        let x = rs.remove(0);
        proof {
            assert(antes[0] == x);
            assert(rs@ =~= antes.skip(1));
            assert(antes.skip(1) =~= todas.skip(feitas + 1));
            feitas = feitas + 1;
        }
        match c.ouvir(x) {
            Some(v) => {
                return Some(Ok(v));
            },
            None => {},
        }
    }
    c.fim()
}

/// A source that does not serve a question changes nothing of the answer, wherever it stands
/// in the chain; and as soon as one delivers, those behind it do not matter.
pub proof fn lemma_quem_nao_serve<T>(antes: Seq<Resposta<T>>, depois: Seq<Resposta<T>>)
    ensures
        resposta_da_cadeia(antes + seq![Resposta::<T>::NaoServe] + depois) == resposta_da_cadeia(
            antes + depois,
        ),
    decreases antes.len(),
{
    let com = antes + seq![Resposta::<T>::NaoServe] + depois;
    let sem = antes + depois;
    if antes.len() == 0 {
        assert(com.skip(1) =~= depois);
        assert(sem =~= depois);
    } else {
        let a = antes.skip(1);
        lemma_quem_nao_serve(a, depois);
        assert(com.skip(1) =~= a + seq![Resposta::<T>::NaoServe] + depois);
        assert(sem.skip(1) =~= a + depois);
    }
}

/// The answer of a chain: what the first source that delivered gave; where none did, the last
/// error; and nothing where none served.
pub proof fn lemma_resposta_da_cadeia<T>(rs: Seq<Resposta<T>>, k: int)
    requires
        0 <= k < rs.len(),
    ensures
        rs[k] is Entregou && (forall|j: int| 0 <= j < k ==> !((#[trigger] rs[j]) is Entregou))
            ==> resposta_da_cadeia(rs) == Some(Ok::<T, FeedError>(rs[k]->Entregou_0)),
        rs[k] is Falhou && (forall|j: int|
            0 <= j < rs.len() ==> !((#[trigger] rs[j]) is Entregou)) && (forall|j: int|
            k < j < rs.len() ==> !((#[trigger] rs[j]) is Falhou)) ==> resposta_da_cadeia(rs) == Some(
            Err::<T, FeedError>(rs[k]->Falhou_0),
        ),
        (forall|j: int| 0 <= j < rs.len() ==> (#[trigger] rs[j]) is NaoServe)
            ==> resposta_da_cadeia(rs) is None,
    decreases rs.len(),
{
    let t = rs.skip(1);
    assert forall|j: int| 0 <= j < t.len() implies #[trigger] t[j] == rs[j + 1] by {}
    if k > 0 {
        lemma_resposta_da_cadeia(t, k - 1);
        assert(t[k - 1] == rs[k]);
        if forall|j: int| 0 <= j < k ==> !((#[trigger] rs[j]) is Entregou) {
            assert(!(rs[0] is Entregou));
            assert forall|j: int| 0 <= j < k - 1 implies !((#[trigger] t[j]) is Entregou) by {
                assert(!(rs[j + 1] is Entregou));
            }
        }
        if forall|j: int| 0 <= j < rs.len() ==> !((#[trigger] rs[j]) is Entregou) {
            assert(!(rs[0] is Entregou));
            assert forall|j: int| 0 <= j < t.len() implies !((#[trigger] t[j]) is Entregou) by {
                assert(!(rs[j + 1] is Entregou));
            }
        }
        if forall|j: int| k < j < rs.len() ==> !((#[trigger] rs[j]) is Falhou) {
            assert forall|j: int| k - 1 < j < t.len() implies !((#[trigger] t[j]) is Falhou) by {
                assert(!(rs[j + 1] is Falhou));
            }
        }
    }
    if rs[0] is Falhou && (forall|j: int| 0 <= j < rs.len() ==> !((#[trigger] rs[j]) is Entregou))
        && (forall|j: int| 0 < j < rs.len() ==> !((#[trigger] rs[j]) is Falhou)) {
        assert forall|j: int| 0 <= j < t.len() implies (#[trigger] t[j]) is NaoServe by {
            assert(!(rs[j + 1] is Entregou) && !(rs[j + 1] is Falhou));
        }
        lemma_ninguem_serve(t);
    }
    if forall|j: int| 0 <= j < rs.len() ==> (#[trigger] rs[j]) is NaoServe {
        lemma_ninguem_serve(rs);
    }
}

proof fn lemma_ninguem_serve<T>(rs: Seq<Resposta<T>>)
    requires
        forall|j: int| 0 <= j < rs.len() ==> (#[trigger] rs[j]) is NaoServe,
    ensures
        resposta_da_cadeia(rs) is None,
    decreases rs.len(),
{
    if rs.len() > 0 {
        assert(rs[0] is NaoServe);
        assert forall|j: int| 0 <= j < rs.skip(1).len() implies (#[trigger] rs.skip(
            1,
        )[j]) is NaoServe by {
            assert(rs[j + 1] is NaoServe);
        }
        lemma_ninguem_serve(rs.skip(1));
    }
}

/// What is asked of a source, and what stays for the next, are as they stood.
pub proof fn lemma_como_estavam(v: Seq<(Market, Seq<char>)>, qs: Seq<QuoteV>)
    ensures
        restantes(v, qs) == picked(
            v,
            |a: (Market, Seq<char>)|
                if exists|i: int| 0 <= i < qs.len() && #[trigger] qs[i].ativo == a {
                    None
                } else {
                    Some(a)
                },
        ),
    decreases v.len(),
{
    if v.len() > 0 {
        lemma_como_estavam(v.drop_last(), qs);
    } else {
        assert(restantes(v, qs) =~= Seq::empty());
    }
}

/// The pace of a source is its own while its market is open and a minute while it is closed, and
/// never under the floor.
pub proof fn lemma_base_de(aberto: bool, intervalo: u64, piso: u64)
    ensures
        base_de(aberto, intervalo, piso) >= piso,
        aberto && intervalo >= piso ==> base_de(aberto, intervalo, piso) == intervalo,
        !aberto && piso <= 60 * 1000 ==> base_de(aberto, intervalo, piso) == 60 * 1000,
        base_de(aberto, intervalo, piso) == piso || base_de(aberto, intervalo, piso) == intervalo
            || base_de(aberto, intervalo, piso) == 60 * 1000,
{
}

/// One more failure is one more step, up to the most there are; an error that asking again would
/// give again goes there at once.
pub proof fn lemma_passos_depois(passos: int, erro: FeedError)
    requires
        0 <= passos <= RECUO_MAX,
    ensures
        passos <= passos_depois(passos, erro) <= RECUO_MAX,
        erro is Cota || erro is Formato ==> passos_depois(passos, erro) == RECUO_MAX,
        (erro is Tempo || erro is Status) && passos < RECUO_MAX ==> passos_depois(passos, erro)
            == passos + 1,
{
}

} // verus!
