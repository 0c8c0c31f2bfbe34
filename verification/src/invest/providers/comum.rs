//! What the sources have in common: turning a series into a quote, and several answers into
//! one.

use vstd::prelude::*;
use crate::invest::json::Json;
use crate::invest::model::{AssetId, ErroV, FeedError, Market, Moeda};
use crate::invest::provider::{Candle, Grade, Quote, QuoteV};

verus! {

/// A quote whose previous close is still to be computed from what the source gave.
#[derive(Debug)]
pub struct Cotada {
    pub quote: Quote,
    pub conta: Conta,
}

/// How the previous close follows from the price. Amounts are bit patterns of doubles.
#[derive(Clone, Copy, PartialEq, Eq, Debug, Structural)]
pub enum Conta {
    /// It is given, or there is none.
    Nenhuma,
    /// The price less this change.
    Diferenca(u64),
    /// The price before it changed by this many percent.
    Percentual(u64),
}

/// The quote that the last point of a published series gives, with the point before it as
/// its previous close.
pub open spec fn cotacao_da_serie(
    ativo: (Market, Seq<char>),
    pontos: Seq<Candle>,
    fonte: Seq<char>,
    moeda: Moeda,
) -> Option<QuoteV> {
    if pontos.len() == 0 {
        None
    } else {
        Some(
            QuoteV {
                ativo,
                fonte,
                preco: pontos.last().fechamento,
                anterior: if pontos.len() > 1 {
                    Some(pontos[pontos.len() - 2].fechamento)
                } else {
                    None
                },
                moeda,
                grade: Grade::Fechamento,
                em: pontos.last().em,
                volume: None,
                max24: None,
                min24: None,
            },
        )
    }
}

/// The values of an optional quote.
pub open spec fn valor_de(q: Option<Quote>) -> Option<QuoteV> {
    match q {
        Some(x) => Some(x@),
        None => None,
    }
}

/// The quote that the last point of a published series gives.
pub fn cotar_serie(
    ativo: &AssetId,
    pontos: &[Candle],
    fonte: &'static str,
    moeda: Moeda,
) -> (r: Option<Quote>)
    ensures
        valor_de(r) == cotacao_da_serie(ativo@, pontos@, fonte@, moeda),
{
    let n: usize = pontos.len();
    if n == 0 {
        return None;
    }
    Some(
        Quote {
            ativo: ativo.clone(),
            fonte,
            preco: pontos[n - 1].fechamento,
            anterior: if n > 1 {
                Some(pontos[n - 2].fechamento)
            } else {
                None
            },
            moeda,
            grade: Grade::Fechamento,
            em: pontos[n - 1].em,
            volume: None,
            max24: None,
            min24: None,
        },
    )
}

/// What a source answers after several requests: what it got, and the last error only when
/// it got nothing. A request that failed does not bring down the others, but a source that
/// said nothing must not pass for one that is well.
pub fn encerrar<T>(saida: Vec<T>, ultimo_erro: Option<FeedError>) -> (r: Result<Vec<T>, FeedError>)
    ensures
        (match ultimo_erro {
            Some(e) => if saida@.len() == 0 {
                r == Err::<Vec<T>, FeedError>(e)
            } else {
                r == Ok::<Vec<T>, FeedError>(saida)
            },
            None => r == Ok::<Vec<T>, FeedError>(saida),
        }),
{
    match ultimo_erro {
        Some(e) => if saida.len() == 0 {
            Err(e)
        } else {
            Ok(saida)
        },
        None => Ok(saida),
    }
}

/// What a reader answers: its points, or an error when there is none.
pub open spec fn pontos_ou_erro(
    r: Result<Vec<Candle>, FeedError>,
    pontos: Seq<Candle>,
    mensagem: Seq<char>,
) -> bool {
    match r {
        Ok(v) => pontos.len() > 0 && v@ == pontos,
        Err(FeedError::Formato(m)) => pontos.len() == 0 && m@ == mensagem,
        Err(_) => false,
    }
}

/// Answers the points, or an error when there is none.
pub fn pontos_ou(pontos: Vec<Candle>, mensagem: &str) -> (r: Result<Vec<Candle>, FeedError>)
    ensures
        pontos_ou_erro(r, pontos@, mensagem@),
{
    if pontos.len() == 0 {
        Err(FeedError::Formato(mensagem.to_owned()))
    } else {
        Ok(pontos)
    }
}

/// A reader found that the answer is not what was expected, and says so.
pub open spec fn recusou<T>(r: Result<T, FeedError>, mensagem: Seq<char>) -> bool {
    match r {
        Err(FeedError::Formato(m)) => m@ == mensagem,
        _ => false,
    }
}

// --- taking turns --------------------------------------------------------------------------

/// The place at which turn `i` of a round falls, for a list of `n` that begins at `inicio`.
pub open spec fn posicao(inicio: int, i: int, n: int) -> int {
    (inicio + i) % n
}

/// How many of a list of `n` are asked in one round.
pub open spec fn quantos_de(n: int, teto: int) -> int {
    if n < teto {
        n
    } else {
        teto
    }
}

/// Where the rounds begin: `r` rounds after one that began at `inicio`.
pub open spec fn inicio_da_volta(inicio: int, r: nat, n: int, teto: int) -> int
    decreases r,
{
    if r == 0 {
        inicio % n
    } else {
        (inicio_da_volta(inicio, (r - 1) as nat, n, teto) + quantos_de(n, teto)) % n
    }
}

/// A round that begins at `inicio` asks about place `j`.
pub open spec fn perguntado(inicio: int, j: int, n: int, teto: int) -> bool {
    exists|i: int| 0 <= i < quantos_de(n, teto) && #[trigger] posicao(inicio, i, n) == j
}

proof fn lemma_inicio(inicio: int, r: nat, n: int, teto: int)
    requires
        n > 0,
        teto > 0,
    ensures
        inicio_da_volta(inicio, r, n, teto) == (inicio + r * quantos_de(n, teto)) % n,
    decreases r,
{
    let k = quantos_de(n, teto);
    if r > 0 {
        lemma_inicio(inicio, (r - 1) as nat, n, teto);
        let a = inicio + (r - 1) * k;
        vstd::arithmetic::div_mod::lemma_add_mod_noop(a, k, n);
        assert((a % n + k) % n == (a + k) % n) by {
            vstd::arithmetic::div_mod::lemma_add_mod_noop_right(k, a, n);
        }
        assert(a + k == inicio + r * k) by (nonlinear_arith)
            requires
                a == inicio + (r - 1) * k,
        ;
    } else {
        assert(0 * k == 0);
    }
}

/// Nobody is left behind: whatever place the rounds begin at, each place of the list is asked
/// about within as many rounds as it takes to go once through it.
pub proof fn lemma_ninguem_para_tras(inicio: int, j: int, n: int, teto: int) -> (r: nat)
    requires
        0 <= inicio,
        0 <= j < n,
        teto > 0,
    ensures
        r * quantos_de(n, teto) < n,
        perguntado(inicio_da_volta(inicio, r, n, teto), j, n, teto),
{
    let k = quantos_de(n, teto);
    let d = (j - inicio) % n;
    let r = (d / k) as nat;
    let i = d % k;
    vstd::arithmetic::div_mod::lemma_fundamental_div_mod(d, k);
    assert(r * k == k * (d / k)) by (nonlinear_arith)
        requires
            r == d / k,
    ;
    assert(r * k + i == d);
    lemma_inicio(inicio, r, n, teto);
    let s = inicio_da_volta(inicio, r, n, teto);
    let a = inicio + r * k;
    assert(posicao(s, i, n) == j) by {
        vstd::arithmetic::div_mod::lemma_add_mod_noop_right(i, a, n);
        assert((a % n + i) % n == (a + i) % n);
        assert(a + i == inicio + d);
        vstd::arithmetic::div_mod::lemma_add_mod_noop_right(inicio, j - inicio, n);
        assert((inicio + d) % n == (inicio + (j - inicio)) % n);
        vstd::arithmetic::div_mod::lemma_small_mod(j as nat, n as nat);
    }
    r
}

// --- a round ---------------------------------------------------------------------------------

/// What one request of a round came to.
#[derive(Debug)]
pub enum Retorno<T> {
    /// What the answer gave, which may be nothing.
    Veio(Vec<T>),
    /// It failed, and the others go on.
    Recusou(FeedError),
    /// It failed, and a spent quota ends the round: insisting with the others would only make
    /// it worse.
    Falhou(FeedError),
}

/// What one request of a round came to, in contracts.
pub enum RetornoV<V> {
    Veio(Seq<V>),
    Recusou(ErroV),
    Falhou(ErroV),
}

/// What a round came to: what was gathered, the last error, and whether it was ended.
pub struct Feita<V> {
    pub saida: Seq<V>,
    pub erro: Option<ErroV>,
    pub parou: bool,
}

/// What a round came to after these requests.
pub open spec fn feita<V>(rs: Seq<RetornoV<V>>) -> Feita<V>
    decreases rs.len(),
{
    if rs.len() == 0 {
        Feita { saida: Seq::empty(), erro: None, parou: false }
    } else {
        let f = feita(rs.drop_last());
        if f.parou {
            f
        } else {
            match rs.last() {
                RetornoV::Veio(v) => Feita { saida: f.saida + v, ..f },
                RetornoV::Recusou(e) => Feita { erro: Some(e), ..f },
                RetornoV::Falhou(e) => Feita { erro: Some(e), parou: e is Cota, ..f },
            }
        }
    }
}

/// What a source answers after a round: what it gathered, and the last error only when it
/// gathered nothing.
pub open spec fn fechada<V>(f: Feita<V>) -> Result<Seq<V>, ErroV> {
    match f.erro {
        Some(e) => if f.saida.len() == 0 {
            Err(e)
        } else {
            Ok(f.saida)
        },
        None => Ok(f.saida),
    }
}

/// A request that fails, and spends no quota, does not bring down the others: the round gathers
/// what it would have gathered without it.
pub proof fn lemma_uma_falha<V>(rs: Seq<RetornoV<V>>, i: int)
    requires
        0 <= i < rs.len(),
        (match rs[i] {
            RetornoV::Veio(_) => false,
            RetornoV::Recusou(_) => true,
            RetornoV::Falhou(e) => !(e is Cota),
        }),
    ensures
        feita(rs).saida == feita(rs.remove(i)).saida,
        feita(rs).parou == feita(rs.remove(i)).parou,
    decreases rs.len(),
{
    let a = rs.drop_last();
    if i == rs.len() - 1 {
        assert(rs.remove(i) =~= a);
    } else {
        lemma_uma_falha(a, i);
        assert(rs.remove(i).drop_last() =~= a.remove(i));
        assert(rs.remove(i).last() == rs.last());
    }
}

/// A quota that runs out ends the round, and what came before it is kept, whatever comes after.
pub proof fn lemma_antes_da_cota<V>(antes: Seq<RetornoV<V>>, e: ErroV, resto: Seq<RetornoV<V>>)
    requires
        !feita(antes).parou,
        e is Cota,
    ensures
        feita(antes.push(RetornoV::Falhou(e)) + resto) == (Feita {
            saida: feita(antes).saida,
            erro: Some(e),
            parou: true,
        }),
    decreases resto.len(),
{
    let p = antes.push(RetornoV::Falhou(e));
    if resto.len() == 0 {
        assert(p + resto =~= p);
        assert(p.drop_last() =~= antes);
    } else {
        lemma_antes_da_cota(antes, e, resto.drop_last());
        assert((p + resto).drop_last() =~= p + resto.drop_last());
    }
}

/// A round goes on after this reply: it stops at a spent quota.
pub open spec fn segue_depois(r: Result<Json, FeedError>) -> bool {
    !(r is Err && r->Err_0 is Cota)
}

/// Whether a round goes on after a reply.
pub fn segue(r: &Result<Json, FeedError>) -> (s: bool)
    ensures
        s == segue_depois(*r),
{
    match r {
        Ok(_) => true,
        Err(e) => !e.e_cota(),
    }
}

/// Once a round was ended, nothing more counts: to make no further request loses nothing.
pub proof fn lemma_depois_do_fim<V>(antes: Seq<RetornoV<V>>, resto: Seq<RetornoV<V>>)
    requires
        feita(antes).parou,
    ensures
        feita(antes + resto) == feita(antes),
    decreases resto.len(),
{
    if resto.len() == 0 {
        assert(antes + resto =~= antes);
    } else {
        lemma_depois_do_fim(antes, resto.drop_last());
        assert((antes + resto).drop_last() =~= antes + resto.drop_last());
    }
}

/// The members of a list as `f` shows them.
pub open spec fn mostrados<T, V>(v: Seq<T>, f: spec_fn(T) -> V) -> Seq<V> {
    Seq::new(v.len(), |i: int| f(v[i]))
}

/// What a request came to, as `f` shows it.
pub open spec fn retorno_visto<T, V>(r: Retorno<T>, f: spec_fn(T) -> V) -> RetornoV<V> {
    match r {
        Retorno::Veio(v) => RetornoV::Veio(mostrados(v@, f)),
        Retorno::Recusou(e) => RetornoV::Recusou(e@),
        Retorno::Falhou(e) => RetornoV::Falhou(e@),
    }
}

/// What a source answered, as `f` shows it.
pub open spec fn resposta_vista<T, V>(r: Result<Vec<T>, FeedError>, f: spec_fn(T) -> V) -> Result<
    Seq<V>,
    ErroV,
> {
    match r {
        Ok(v) => Ok(mostrados(v@, f)),
        Err(e) => Err(e@),
    }
}

/// A quote, in contracts.
pub open spec fn da_quote() -> spec_fn(Quote) -> QuoteV {
    |q: Quote| q@
}

/// A quote with its account, in contracts.
pub open spec fn da_cotada() -> spec_fn(Cotada) -> (QuoteV, Conta) {
    |c: Cotada| (c.quote@, c.conta)
}

/// What one answer gives, as a list.
pub open spec fn no_maximo_um<V>(v: Option<V>) -> Seq<V> {
    match v {
        Some(x) => seq![x],
        None => Seq::empty(),
    }
}

/// What one answer gives, as a list.
pub(crate) fn em_lista<T>(x: Option<T>) -> (r: Vec<T>)
    ensures
        r@ == no_maximo_um(x),
{
    let mut r: Vec<T> = Vec::new();
    match x {
        Some(x) => {
            r.push(x);
        },
        None => {},
    }
    r
}

/// A request: the asset that it asked about, and the answer.
pub type Pergunta = (AssetId, Result<Json, FeedError>);

/// What the requests of a round came to.
pub open spec fn retornos<P, V>(ps: Seq<P>, g: spec_fn(P) -> RetornoV<V>) -> Seq<RetornoV<V>> {
    Seq::new(ps.len(), |i: int| g(ps[i]))
}

/// What a source gathers while it makes one request after another.
pub struct Colheita<T> {
    pub saida: Vec<T>,
    pub ultimo_erro: Option<FeedError>,
    pub parou: bool,
}

impl<T> Colheita<T> {
    /// What was gathered, as `f` shows it.
    pub open spec fn vista<V>(self, f: spec_fn(T) -> V) -> Feita<V> {
        Feita {
            saida: mostrados(self.saida@, f),
            erro: match self.ultimo_erro {
                Some(e) => Some(e@),
                None => None,
            },
            parou: self.parou,
        }
    }

    /// Nothing gathered yet.
    pub fn nova() -> (r: Colheita<T>)
        ensures
            r.saida@.len() == 0,
            r.ultimo_erro is None,
            !r.parou,
    {
        Colheita { saida: Vec::new(), ultimo_erro: None, parou: false }
    }

    /// One more request came to this. After the end of a round nothing counts.
    pub fn ouvir(&mut self, r: Retorno<T>)
        ensures
            old(self).parou ==> final(self).saida@ == old(self).saida@ && final(self).ultimo_erro
                == old(self).ultimo_erro && final(self).parou,
            !old(self).parou ==> (match r {
                Retorno::Veio(v) => final(self).saida@ == old(self).saida@ + v@
                    && final(self).ultimo_erro == old(self).ultimo_erro && !final(self).parou,
                Retorno::Recusou(e) => final(self).saida@ == old(self).saida@
                    && final(self).ultimo_erro == Some(e) && !final(self).parou,
                Retorno::Falhou(e) => final(self).saida@ == old(self).saida@
                    && final(self).ultimo_erro == Some(e) && final(self).parou == (e is Cota),
            }),
    {
        if self.parou {
            return;
        }
        match r {
            Retorno::Veio(v) => {
                let mut v = v;
                self.saida.append(&mut v);
            },
            Retorno::Recusou(e) => {
                self.ultimo_erro = Some(e);
            },
            Retorno::Falhou(e) => {
                self.parou = e.e_cota();
                self.ultimo_erro = Some(e);
            },
        }
    }

    /// What the source answers. What was gathered before a quota ran out is kept: throwing
    /// it away would drop the whole screen to typed prices for the sake of the last request.
    pub fn fim(self) -> (r: Result<Vec<T>, FeedError>)
        ensures
            self.saida@.len() > 0 ==> r == Ok::<Vec<T>, FeedError>(self.saida),
            self.saida@.len() == 0 && self.ultimo_erro is None ==> r == Ok::<Vec<T>, FeedError>(
                self.saida,
            ),
            self.saida@.len() == 0 && self.ultimo_erro is Some ==> r == Err::<
                Vec<T>,
                FeedError,
            >(self.ultimo_erro->0),
    {
        encerrar(self.saida, self.ultimo_erro)
    }
}

/// One more request, over what the ones before came to.
proof fn lemma_mais_um<T, V>(
    rs: Seq<RetornoV<V>>,
    r: Retorno<T>,
    antes: Colheita<T>,
    depois: Colheita<T>,
    f: spec_fn(T) -> V,
)
    requires
        antes.vista(f) == feita(rs),
        antes.parou ==> depois.saida@ == antes.saida@ && depois.ultimo_erro == antes.ultimo_erro
            && depois.parou,
        !antes.parou ==> (match r {
            Retorno::Veio(v) => depois.saida@ == antes.saida@ + v@ && depois.ultimo_erro
                == antes.ultimo_erro && !depois.parou,
            Retorno::Recusou(e) => depois.saida@ == antes.saida@ && depois.ultimo_erro == Some(e)
                && !depois.parou,
            Retorno::Falhou(e) => depois.saida@ == antes.saida@ && depois.ultimo_erro == Some(e)
                && depois.parou == (e is Cota),
        }),
    ensures
        depois.vista(f) == feita(rs.push(retorno_visto(r, f))),
{
    let todos = rs.push(retorno_visto(r, f));
    assert(todos.drop_last() =~= rs);
    if !antes.parou {
        if let Retorno::Veio(v) = r {
            assert(mostrados(depois.saida@, f) =~= mostrados(antes.saida@, f) + mostrados(v@, f));
        }
    }
}

/// What a source answers after a round of requests.
pub(crate) fn reunir<T, V>(rs: Vec<Retorno<T>>, Ghost(f): Ghost<spec_fn(T) -> V>) -> (r: Result<
    Vec<T>,
    FeedError,
>)
    ensures
        resposta_vista(r, f) == fechada(
            feita(retornos(rs@, |x: Retorno<T>| retorno_visto(x, f))),
        ),
{
    let ghost g = |x: Retorno<T>| retorno_visto(x, f);
    let ghost todos = rs@;
    let ghost mut feitos: int = 0;
    let mut rs = rs;
    let mut c: Colheita<T> = Colheita::nova();
    proof {
        assert(mostrados(c.saida@, f) =~= Seq::<V>::empty());
        assert(retornos(todos.take(0), g) =~= Seq::<RetornoV<V>>::empty());
        assert(todos.skip(0) =~= todos);
    }
    while rs.len() > 0
        invariant
            g == (|x: Retorno<T>| retorno_visto(x, f)),
            0 <= feitos <= todos.len(),
            rs@ == todos.skip(feitos),
            c.vista(f) == feita(retornos(todos.take(feitos), g)),
        decreases rs@.len(),
    {
        let ghost restam = rs@;
        let ghost antes = c;
        let x = rs.remove(0);
        proof {
            assert(x == todos[feitos]);
            assert(rs@ =~= todos.skip(feitos + 1));
        }
        c.ouvir(x);
        proof {
            lemma_mais_um(retornos(todos.take(feitos), g), x, antes, c, f);
            assert(retornos(todos.take(feitos + 1), g) =~= retornos(todos.take(feitos), g).push(
                retorno_visto(x, f),
            ));
            feitos = feitos + 1;
        }
    }
    assert(todos.take(feitos) =~= todos);
    c.fim()
}

/// Where a source is in its list.
#[derive(Clone, Copy, PartialEq, Eq, Debug, Structural)]
pub struct Rodizio {
    pub cursor: usize,
}

impl Rodizio {
    /// The places to ask about in this round, and the start of the next one.
    pub fn volta(&mut self, n: usize, teto: usize) -> (r: Vec<usize>)
        requires
            n > 0,
            n + teto <= usize::MAX,
        ensures
            r@.len() == quantos_de(n as int, teto as int),
            forall|i: int|
                0 <= i < r@.len() ==> #[trigger] r@[i] == posicao(
                    (old(self).cursor % n) as int,
                    i,
                    n as int,
                ) && r@[i] < n,
            final(self).cursor == ((old(self).cursor % n) + quantos_de(n as int, teto as int)) % (
            n as int),
    {
        let inicio: usize = self.cursor % n;
        let quantos: usize = if n < teto {
            n
        } else {
            teto
        };
        let mut r: Vec<usize> = Vec::new();
        for i in 0..quantos
            invariant
                n > 0,
                inicio < n,
                quantos <= n,
                quantos <= teto,
                n + teto <= usize::MAX,
                r@.len() == i,
                forall|j: int|
                    0 <= j < i ==> #[trigger] r@[j] == posicao(inicio as int, j, n as int)
                        && r@[j] < n,
        {
            r.push((inicio + i) % n);
        }
        self.cursor = (inicio + quantos) % n;
        r
    }
}

/// What came before a round stopped, one reply after the other.
pub open spec fn juntados<V>(rs: Seq<RetornoV<V>>) -> Seq<V>
    decreases rs.len(),
{
    if rs.len() == 0 {
        Seq::empty()
    } else {
        match rs[0] {
            RetornoV::Veio(v) => v + juntados(rs.skip(1)),
            RetornoV::Recusou(_) => juntados(rs.skip(1)),
            RetornoV::Falhou(e) => if e is Cota {
                Seq::empty()
            } else {
                juntados(rs.skip(1))
            },
        }
    }
}

proof fn lemma_juntados_push<V>(rs: Seq<RetornoV<V>>, x: RetornoV<V>)
    ensures
        juntados(rs.push(x)) == (if feita(rs).parou {
            juntados(rs)
        } else {
            match x {
                RetornoV::Veio(v) => juntados(rs) + v,
                _ => juntados(rs),
            }
        }),
    decreases rs.len(),
{
    if rs.len() == 0 {
        assert(rs.push(x).skip(1) =~= Seq::empty());
        assert(juntados(rs.push(x).skip(1)) =~= Seq::<V>::empty());
        assert(rs.push(x)[0] == x);
        match x {
            RetornoV::Veio(v) => {
                assert(juntados(rs.push(x)) =~= juntados(rs) + v);
            },
            _ => {},
        }
    } else {
        let t = rs.skip(1);
        lemma_juntados_push(t, x);
        lemma_parou_da_frente(rs);
        assert(rs.push(x).skip(1) =~= t.push(x));
        assert(rs.push(x)[0] == rs[0]);
        match (rs[0], x) {
            (RetornoV::Veio(a), RetornoV::Veio(v)) => {
                assert(a + (juntados(t) + v) =~= (a + juntados(t)) + v);
            },
            _ => {},
        }
    }
}

proof fn lemma_parou_da_frente<V>(rs: Seq<RetornoV<V>>)
    requires
        rs.len() > 0,
    ensures
        feita(rs).parou == ((rs[0] is Falhou && rs[0]->Falhou_0 is Cota) || feita(
            rs.skip(1),
        ).parou),
    decreases rs.len(),
{
    if rs.len() == 1 {
        assert(rs.drop_last() =~= Seq::empty());
        assert(rs.skip(1) =~= Seq::empty());
    } else {
        lemma_parou_da_frente(rs.drop_last());
        assert(rs.drop_last().skip(1) =~= rs.skip(1).drop_last());
        assert(rs.drop_last()[0] == rs[0]);
        assert(rs.skip(1).last() == rs.last());
    }
}

/// A round brings what its requests brought, in their order, up to a spent quota; and it stops
/// exactly where one came.
pub proof fn lemma_o_que_veio<V>(rs: Seq<RetornoV<V>>)
    ensures
        feita(rs).saida == juntados(rs),
        feita(rs).parou <==> exists|i: int|
            0 <= i < rs.len() && (#[trigger] rs[i]) is Falhou && rs[i]->Falhou_0 is Cota,
        (forall|i: int| 0 <= i < rs.len() ==> (#[trigger] rs[i]) is Veio) ==> feita(rs).erro is None,
        rs.len() > 0 && !feita(rs.drop_last()).parou && rs.last() is Falhou ==> feita(rs).erro
            == Some(rs.last()->Falhou_0),
        rs.len() > 0 && !feita(rs.drop_last()).parou && rs.last() is Recusou ==> feita(rs).erro
            == Some(rs.last()->Recusou_0),
    decreases rs.len(),
{
    if rs.len() > 0 {
        let w = rs.drop_last();
        lemma_o_que_veio(w);
        lemma_juntados_push(w, rs.last());
        assert(w.push(rs.last()) =~= rs);
        assert forall|i: int| 0 <= i < w.len() implies #[trigger] w[i] == rs[i] by {}
        if feita(w).parou {
            let i = choose|i: int|
                0 <= i < w.len() && (#[trigger] w[i]) is Falhou && w[i]->Falhou_0 is Cota;
            assert(rs[i] is Falhou && rs[i]->Falhou_0 is Cota);
        } else {
            assert(rs[rs.len() - 1] == rs.last());
        }
        if forall|i: int| 0 <= i < rs.len() ==> (#[trigger] rs[i]) is Veio {
            assert forall|i: int| 0 <= i < w.len() implies (#[trigger] w[i]) is Veio by {
                assert(rs[i] is Veio);
            }
            assert(rs[rs.len() - 1] is Veio);
        }
    } else {
        assert(feita(rs).saida =~= juntados(rs));
    }
}

/// A round fails exactly where it brought nothing and something went wrong.
pub proof fn lemma_fechada<V>(f: Feita<V>)
    ensures
        fechada(f) is Err <==> f.saida.len() == 0 && f.erro is Some,
        fechada(f) is Err ==> f.erro == Some(fechada(f)->Err_0),
        fechada(f) is Ok ==> fechada(f)->Ok_0 == f.saida,
{
}

/// A quote of a series is its last point, and the one before it as the previous.
pub proof fn lemma_cotacao_da_serie(
    ativo: (Market, Seq<char>),
    antes: Seq<Candle>,
    a: Candle,
    b: Candle,
    fonte: Seq<char>,
    moeda: Moeda,
)
    ensures
        ({
            let q = cotacao_da_serie(ativo, antes.push(a).push(b), fonte, moeda);
            &&& q is Some
            &&& q->0.preco == b.fechamento
            &&& q->0.em == b.em
            &&& q->0.anterior == Some(a.fechamento)
            &&& q->0.ativo == ativo
            &&& q->0.moeda == moeda
            &&& q->0.fonte == fonte
        }),
{
}

} // verus!
