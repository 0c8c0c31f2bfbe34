//! Where the numbers that are not the user's come from: how far a price can be trusted, who
//! replaces whom on the screen, and how often a source may be asked.

use vstd::prelude::*;
use crate::text::same;
use crate::invest::model::{AssetId, Market, Moeda};
use crate::invest::providers::manual::Manual;
use crate::invest::tempo::{cabe, data_em, dia_de, hora, local, BRT_OFFSET, Data};

verus! {

// --- how far a price can be trusted --------------------------------------------------------

/// How far a price can be trusted, and what the screen shows beside it.
#[derive(Clone, Copy, PartialEq, Eq, Debug, Structural)]
pub enum Grade {
    AoVivo,
    /// An official source with a known delay, in seconds.
    Atrasado(u64),
    Fechamento,
    /// Typed in by the user.
    Manual,
    /// A source without any contract.
    NaoOficial,
}

impl Grade {
    /// What this origin is worth against another, to decide who replaces whom.
    pub open spec fn forca(self) -> int {
        match self {
            Grade::AoVivo => 4,
            Grade::Atrasado(_) => 3,
            Grade::NaoOficial => 2,
            Grade::Fechamento => 2,
            Grade::Manual => 1,
        }
    }

    /// What this origin is worth against another. A market price, even a delayed one, says
    /// more about what a thing is worth now than a number somebody typed last week.
    pub fn peso(&self) -> (r: u8)
        ensures
            r == self.forca(),
    {
        match self {
            Grade::AoVivo => 4,
            Grade::Atrasado(_) => 3,
            Grade::NaoOficial => 2,
            Grade::Fechamento => 2,
            Grade::Manual => 1,
        }
    }

    /// The short mark in the column. A live price is marked by silence.
    pub fn marca(&self) -> (r: &'static str)
        ensures
            r@ == (match *self {
                Grade::AoVivo => ""@,
                Grade::Atrasado(_) => "atrasado"@,
                Grade::Fechamento => "fech."@,
                Grade::Manual => "manual"@,
                Grade::NaoOficial => "não-oficial"@,
            }),
    {
        match self {
            Grade::AoVivo => "",
            Grade::Atrasado(_) => "atrasado",
            Grade::Fechamento => "fech.",
            Grade::Manual => "manual",
            Grade::NaoOficial => "não-oficial",
        }
    }

    /// The word kept in the cache.
    pub open spec fn codigo(self) -> Seq<char> {
        match self {
            Grade::AoVivo => "ao_vivo"@,
            Grade::Atrasado(_) => "atrasado"@,
            Grade::Fechamento => "fechamento"@,
            Grade::Manual => "manual"@,
            Grade::NaoOficial => "nao_oficial"@,
        }
    }

    /// The word kept in the cache.
    pub fn code(&self) -> (r: &'static str)
        ensures
            r@ == self.codigo(),
    {
        match self {
            Grade::AoVivo => "ao_vivo",
            Grade::Atrasado(_) => "atrasado",
            Grade::Fechamento => "fechamento",
            Grade::Manual => "manual",
            Grade::NaoOficial => "nao_oficial",
        }
    }

    /// Whether a price of this quality may be coloured by its change and drawn in a chart.
    pub fn ao_vivo(&self) -> (r: bool)
        ensures
            r == (self is AoVivo || self is Atrasado),
    {
        match self {
            Grade::AoVivo => true,
            Grade::Atrasado(_) => true,
            _ => false,
        }
    }

    /// The quality that a kept word stands for; an unknown word is a typed price.
    pub open spec fn de_codigo(s: Seq<char>) -> Grade {
        if s == "ao_vivo"@ {
            Grade::AoVivo
        } else if s == "fechamento"@ {
            Grade::Fechamento
        } else if s == "nao_oficial"@ {
            Grade::NaoOficial
        } else if s == "atrasado"@ {
            Grade::Atrasado(900)
        } else {
            Grade::Manual
        }
    }

    /// Reads a kept word. The delay itself is not kept: fifteen minutes stands for any.
    pub fn de_code(code: &str) -> (r: Grade)
        ensures
            r == Grade::de_codigo(code@),
    {
        if same(code, "ao_vivo") {
            Grade::AoVivo
        } else if same(code, "fechamento") {
            Grade::Fechamento
        } else if same(code, "nao_oficial") {
            Grade::NaoOficial
        } else if same(code, "atrasado") {
            Grade::Atrasado(900)
        } else {
            Grade::Manual
        }
    }
}

/// A quality survives being kept, but for the exact delay, and keeps its worth and its
/// mark whatever the delay.
pub proof fn lemma_grade_volta(g: Grade)
    ensures
        Grade::de_codigo(g.codigo()).forca() == g.forca(),
        !(g is Atrasado) ==> Grade::de_codigo(g.codigo()) == g,
        g is Atrasado ==> Grade::de_codigo(g.codigo()) == Grade::Atrasado(900),
{
    reveal_strlit("ao_vivo");
    reveal_strlit("atrasado");
    reveal_strlit("fechamento");
    reveal_strlit("manual");
    reveal_strlit("nao_oficial");
    assert("ao_vivo"@.len() == 7 && "atrasado"@.len() == 8 && "fechamento"@.len() == 10
        && "manual"@.len() == 6 && "nao_oficial"@.len() == 11);
}

// --- quotes --------------------------------------------------------------------------------

/// A quote. Amounts are the bit patterns of doubles, carried and never read here.
#[derive(Debug)]
pub struct Quote {
    pub ativo: AssetId,
    /// Which source gave this number.
    pub fonte: &'static str,
    pub preco: u64,
    /// The previous close, when the source gives it.
    pub anterior: Option<u64>,
    pub moeda: Moeda,
    pub grade: Grade,
    pub em: u64,
    pub volume: Option<u64>,
    pub max24: Option<u64>,
    pub min24: Option<u64>,
}

/// A quote, by the values it holds.
pub struct QuoteV {
    pub ativo: (Market, Seq<char>),
    pub fonte: Seq<char>,
    pub preco: u64,
    pub anterior: Option<u64>,
    pub moeda: Moeda,
    pub grade: Grade,
    pub em: u64,
    pub volume: Option<u64>,
    pub max24: Option<u64>,
    pub min24: Option<u64>,
}

impl View for Quote {
    type V = QuoteV;

    open spec fn view(&self) -> QuoteV {
        QuoteV {
            ativo: self.ativo@,
            fonte: self.fonte@,
            preco: self.preco,
            anterior: self.anterior,
            moeda: self.moeda,
            grade: self.grade,
            em: self.em,
            volume: self.volume,
            max24: self.max24,
            min24: self.min24,
        }
    }
}

impl Clone for Quote {
    fn clone(&self) -> (r: Quote)
        ensures
            r@ == self@,
    {
        Quote {
            ativo: self.ativo.clone(),
            fonte: self.fonte,
            preco: self.preco,
            anterior: self.anterior,
            moeda: self.moeda,
            grade: self.grade,
            em: self.em,
            volume: self.volume,
            max24: self.max24,
            min24: self.min24,
        }
    }
}

/// The quotes of a list, by the values they hold.
pub open spec fn valores(v: Seq<Quote>) -> Seq<QuoteV> {
    Seq::new(v.len(), |i: int| v[i]@)
}

/// How much later one instant is than another; 0 when it is not.
pub open spec fn depois(a: u64, b: u64) -> int {
    if a > b {
        a - b
    } else {
        0
    }
}

impl Quote {
    /// The age of the quote, in seconds. One from the future is new.
    pub fn idade(&self, agora: u64) -> (r: u64)
        ensures
            r == depois(agora, self.em),
    {
        agora.saturating_sub(self.em)
    }
}

/// One point of a historical series. The close is the bit pattern of a double.
#[derive(Clone, Copy, PartialEq, Eq, Debug, Structural)]
pub struct Candle {
    pub em: u64,
    pub fechamento: u64,
}

/// Which stretch of history is asked for.
#[derive(Clone, Copy, PartialEq, Eq, Hash, Debug, Structural)]
pub enum Span {
    Dia,
    Semana,
    Mes,
    SeisMeses,
    Ano,
    CincoAnos,
}

impl Span {
    /// Every stretch, the shortest first.
    pub const ALL: [Span; 6] = [
        Span::Dia,
        Span::Semana,
        Span::Mes,
        Span::SeisMeses,
        Span::Ano,
        Span::CincoAnos,
    ];

    /// What the screen calls it.
    pub fn label(&self) -> (r: &'static str)
        ensures
            r@ == (match *self {
                Span::Dia => "1 dia"@,
                Span::Semana => "5 dias"@,
                Span::Mes => "1 mês"@,
                Span::SeisMeses => "6 meses"@,
                Span::Ano => "1 ano"@,
                Span::CincoAnos => "5 anos"@,
            }),
    {
        match self {
            Span::Dia => "1 dia",
            Span::Semana => "5 dias",
            Span::Mes => "1 mês",
            Span::SeisMeses => "6 meses",
            Span::Ano => "1 ano",
            Span::CincoAnos => "5 anos",
        }
    }

    /// How many days it covers.
    pub open spec fn tamanho(self) -> int {
        match self {
            Span::Dia => 1,
            Span::Semana => 5,
            Span::Mes => 30,
            Span::SeisMeses => 182,
            Span::Ano => 365,
            Span::CincoAnos => 1825,
        }
    }

    /// How many days it covers.
    pub fn dias(&self) -> (r: u32)
        ensures
            r == self.tamanho(),
    {
        match self {
            Span::Dia => 1,
            Span::Semana => 5,
            Span::Mes => 30,
            Span::SeisMeses => 182,
            Span::Ano => 365,
            Span::CincoAnos => 1825,
        }
    }
}

// --- when the market moves -----------------------------------------------------------------

/// A date is in a list of dates.
pub open spec fn esta_em(d: Data, lista: Seq<Data>) -> bool {
    exists|i: int| 0 <= i < lista.len() && #[trigger] lista[i] == d
}

/// A working day in Brazil: neither weekend nor market holiday.
pub open spec fn util(agora: u64, feriados: Seq<Data>) -> bool {
    let d = data_em(dia_de(agora, BRT_OFFSET));
    d.semana() != 0 && d.semana() != 6 && !esta_em(d, feriados)
}

/// Whether today is a working day in Brazil, given the market's holidays.
///
/// It sets the pace of the sources that publish on working days alone: without it, a
/// Saturday would be spent asking for a number that will not change.
pub fn dia_util_br(agora: u64, feriados: &[Data]) -> (r: bool)
    requires
        cabe(agora, BRT_OFFSET),
    ensures
        r == util(agora, feriados@),
{
    let d = Data::de_epoch(agora, BRT_OFFSET);
    if d.fim_de_semana() {
        return false;
    }
    for i in 0..feriados.len()
        invariant
            d == data_em(dia_de(agora, BRT_OFFSET)),
            forall|j: int| 0 <= j < i ==> #[trigger] feriados@[j] != d,
    {
        if feriados[i] == d {
            return false;
        }
    }
    true
}

/// The Brazilian exchange is in session: a working day, from ten to eighteen in Brasília.
pub open spec fn pregao(agora: u64, feriados: Seq<Data>) -> bool {
    util(agora, feriados) && 10 <= local(agora, BRT_OFFSET) % 86400 / 3600 < 18
}

/// Whether the Brazilian exchange is in session.
pub fn b3_aberta(agora: u64, feriados: &[Data]) -> (r: bool)
    requires
        cabe(agora, BRT_OFFSET),
    ensures
        r == pregao(agora, feriados@),
{
    let h = hora(agora, BRT_OFFSET);
    dia_util_br(agora, feriados) && 10 <= h && h < 18
}

// --- how often a source is asked -------------------------------------------------------------

/// How many times the wait can double.
pub const RECUO_MAX: u32 = 8;

/// The longest wait, in milliseconds.
pub const ESPERA_MAX: u64 = 300_000;

/// A wait doubled `passos` times.
pub open spec fn dobrado(base: nat, passos: nat) -> nat
    decreases passos,
{
    if passos == 0 {
        base
    } else {
        2 * dobrado(base, (passos - 1) as nat)
    }
}

/// The wait after a number of failures: doubled for each, eight times at most, and never
/// above five minutes.
pub open spec fn recuado(base: nat, passos: nat) -> nat {
    let n = dobrado(
        base,
        if passos > RECUO_MAX {
            RECUO_MAX as nat
        } else {
            passos
        },
    );
    if n > ESPERA_MAX {
        ESPERA_MAX as nat
    } else {
        n
    }
}

proof fn lemma_dobrado_cresce(base: nat, a: nat, b: nat)
    requires
        a <= b,
    ensures
        dobrado(base, a) <= dobrado(base, b),
    decreases b - a,
{
    if a < b {
        lemma_dobrado_cresce(base, a, (b - 1) as nat);
    }
}

/// One more failure never shortens the wait, and no wait is above five minutes or below
/// the source's own pace.
pub proof fn lemma_recuo(base: nat, a: nat, b: nat)
    requires
        a <= b,
    ensures
        recuado(base, a) <= recuado(base, b),
        recuado(base, b) <= ESPERA_MAX,
        base <= ESPERA_MAX ==> base <= recuado(base, b),
{
    let ca = if a > RECUO_MAX {
        RECUO_MAX as nat
    } else {
        a
    };
    let cb = if b > RECUO_MAX {
        RECUO_MAX as nat
    } else {
        b
    };
    lemma_dobrado_cresce(base, ca, cb);
    lemma_dobrado_cresce(base, 0, cb);
}

/// Exponential wait with a ceiling, in milliseconds. Without it, a source that is down
/// becomes a storm of attempts.
pub fn aplicar_recuo(base: u64, passos: u32) -> (r: u64)
    ensures
        r == recuado(base as nat, passos as nat),
{
    let n: u32 = if passos > RECUO_MAX {
        RECUO_MAX
    } else {
        passos
    };
    if base > ESPERA_MAX {
        proof {
            lemma_dobrado_cresce(base as nat, 0, n as nat);
        }
        return ESPERA_MAX;
    }
    let mut v: u64 = base;
    let mut i: u32 = 0;
    while i < n
        invariant
            i <= n <= 8,
            base <= ESPERA_MAX,
            v == dobrado(base as nat, i as nat),
            i == 0 ==> v <= 300_000,
            i == 1 ==> v <= 600_000,
            i == 2 ==> v <= 1_200_000,
            i == 3 ==> v <= 2_400_000,
            i == 4 ==> v <= 4_800_000,
            i == 5 ==> v <= 9_600_000,
            i == 6 ==> v <= 19_200_000,
            i == 7 ==> v <= 38_400_000,
            i == 8 ==> v <= 76_800_000,
        decreases n - i,
    {
        v = v * 2;
        i = i + 1;
    }
    if v > ESPERA_MAX {
        ESPERA_MAX
    } else {
        v
    }
}

/// Whether a turn of a source counts as having spoken with it.
///
/// A local source never does, however many prices it answers, and neither does an empty
/// answer: it left nothing newer than there was.
pub fn conta_como_busca(remoto: bool, quantas: usize) -> (r: bool)
    ensures
        r == (remoto && quantas > 0),
{
    remoto && quantas > 0
}

// --- who replaces whom ---------------------------------------------------------------------

/// How long a better origin holds its place against a worse one, in seconds.
pub const VALIDADE_DA_ORIGEM: u64 = 1800;

/// The quote on the screen stays in place of a new one: the new one is of a worse origin,
/// and the market is not moving without the old one, or not for long enough.
pub open spec fn fica(atual: QuoteV, nova: QuoteV, andando: bool) -> bool {
    nova.grade.forca() < atual.grade.forca() && (!andando || depois(nova.em, atual.em)
        < VALIDADE_DA_ORIGEM)
}

/// The first of two optional amounts that is there.
pub open spec fn ou_este(a: Option<u64>, b: Option<u64>) -> Option<u64> {
    match a {
        Some(_) => a,
        None => b,
    }
}

/// Two instants fall on the same day in Brasília.
pub open spec fn mesmo_dia(a: u64, b: u64) -> bool {
    data_em(dia_de(a, BRT_OFFSET)) == data_em(dia_de(b, BRT_OFFSET))
}

/// A quote that takes volume, high and low from the one before it where it has none of its
/// own. Within one session only: the volume is of the day.
pub open spec fn herdada(q: QuoteV, anterior: QuoteV) -> QuoteV {
    if mesmo_dia(q.em, anterior.em) {
        QuoteV {
            volume: ou_este(q.volume, anterior.volume),
            max24: ou_este(q.max24, anterior.max24),
            min24: ou_este(q.min24, anterior.min24),
            ..q
        }
    } else {
        q
    }
}

/// The first of two optional amounts that is there.
fn ou_este_de(a: Option<u64>, b: Option<u64>) -> (r: Option<u64>)
    ensures
        r == ou_este(a, b),
{
    match a {
        Some(x) => Some(x),
        None => b,
    }
}

/// Takes volume, high and low from whoever has them, when the owner of the price does not.
pub fn herdar_acessorios(q: Quote, anterior: &Quote) -> (r: Quote)
    requires
        cabe(q.em, BRT_OFFSET),
        cabe(anterior.em, BRT_OFFSET),
    ensures
        r@ == herdada(q@, anterior@),
{
    if Data::de_epoch(q.em, BRT_OFFSET) != Data::de_epoch(anterior.em, BRT_OFFSET) {
        return q;
    }
    Quote {
        volume: ou_este_de(q.volume, anterior.volume),
        max24: ou_este_de(q.max24, anterior.max24),
        min24: ou_este_de(q.min24, anterior.min24),
        ..q
    }
}

// --- the picture the screen reads ------------------------------------------------------------

/// The state of a source, for the line that answers why a number does not move.
#[derive(Debug)]
pub struct StatusFonte {
    pub id: &'static str,
    pub nome: &'static str,
    pub ok: bool,
    pub erro: Option<String>,
    pub ultima_volta: Option<u64>,
    /// Where the wait has gone, in milliseconds, when it is being stretched.
    pub espera: Option<u64>,
    pub peso: Option<u64>,
}

/// The place of an asset's quote in a list.
pub open spec fn lugar(qs: Seq<Quote>, ativo: (Market, Seq<char>)) -> Option<int>
    decreases qs.len(),
{
    if qs.len() == 0 {
        None
    } else if qs.last()@.ativo == ativo {
        Some(qs.len() - 1)
    } else {
        lugar(qs.drop_last(), ativo)
    }
}

/// No two quotes of a list are of the same asset.
pub open spec fn um_por_ativo(qs: Seq<Quote>) -> bool {
    forall|i: int, j: int|
        0 <= i < j < qs.len() ==> #[trigger] qs[i]@.ativo != #[trigger] qs[j]@.ativo
}

/// The quotes of a list, by asset.
pub open spec fn mapa(qs: Seq<Quote>) -> Map<(Market, Seq<char>), QuoteV> {
    Map::new(
        |a: (Market, Seq<char>)| lugar(qs, a) is Some,
        |a: (Market, Seq<char>)| qs[lugar(qs, a)->0]@,
    )
}

proof fn lemma_lugar(qs: Seq<Quote>, a: (Market, Seq<char>))
    ensures
        (match lugar(qs, a) {
            Some(i) => 0 <= i < qs.len() && qs[i]@.ativo == a,
            None => forall|i: int| 0 <= i < qs.len() ==> #[trigger] qs[i]@.ativo != a,
        }),
    decreases qs.len(),
{
    if qs.len() > 0 && qs.last()@.ativo != a {
        lemma_lugar(qs.drop_last(), a);
        if lugar(qs, a) is None {
            assert forall|i: int| 0 <= i < qs.len() implies #[trigger] qs[i]@.ativo != a by {
                if i < qs.len() - 1 {
                    assert(qs[i] == qs.drop_last()[i]);
                }
            }
        }
    }
}

proof fn lemma_lugar_unico(qs: Seq<Quote>, i: int)
    requires
        um_por_ativo(qs),
        0 <= i < qs.len(),
    ensures
        lugar(qs, qs[i]@.ativo) == Some(i),
{
    lemma_lugar(qs, qs[i]@.ativo);
    let j = lugar(qs, qs[i]@.ativo)->0;
    if j < i {
        assert(qs[j]@.ativo != qs[i]@.ativo);
    }
    if i < j {
        assert(qs[i]@.ativo != qs[j]@.ativo);
    }
}

proof fn lemma_mapa_troca(qs: Seq<Quote>, i: int, q: Quote)
    requires
        um_por_ativo(qs),
        0 <= i < qs.len(),
        qs[i]@.ativo == q@.ativo,
    ensures
        um_por_ativo(qs.update(i, q)),
        mapa(qs.update(i, q)) == mapa(qs).insert(q@.ativo, q@),
{
    let novo = qs.update(i, q);
    assert forall|a: int, b: int| 0 <= a < b < novo.len() implies #[trigger] novo[a]@.ativo
        != #[trigger] novo[b]@.ativo by {
        assert(qs[a]@.ativo != qs[b]@.ativo);
    }
    assert forall|a: (Market, Seq<char>)| #[trigger] lugar(novo, a) == lugar(qs, a) by {
        lemma_lugar(novo, a);
        lemma_lugar(qs, a);
        if lugar(qs, a) is Some {
            let k = lugar(qs, a)->0;
            assert(novo[k]@.ativo == a);
            lemma_lugar_unico(novo, k);
        } else if lugar(novo, a) is Some {
            let k = lugar(novo, a)->0;
            assert(qs[k]@.ativo == a);
        }
    }
    lemma_lugar_unico(qs, i);
    assert(mapa(novo) =~= mapa(qs).insert(q@.ativo, q@)) by {
        assert forall|a: (Market, Seq<char>)| mapa(novo).dom().contains(a) implies mapa(novo)[a]
            == mapa(qs).insert(q@.ativo, q@)[a] by {
            lemma_lugar(qs, a);
            assert(lugar(novo, a) == lugar(qs, a));
        }
    }
}

proof fn lemma_mapa_entra(qs: Seq<Quote>, q: Quote)
    requires
        um_por_ativo(qs),
        lugar(qs, q@.ativo) is None,
    ensures
        um_por_ativo(qs.push(q)),
        mapa(qs.push(q)) == mapa(qs).insert(q@.ativo, q@),
{
    let novo = qs.push(q);
    lemma_lugar(qs, q@.ativo);
    assert(novo.drop_last() =~= qs);
    assert forall|a: int, b: int| 0 <= a < b < novo.len() implies #[trigger] novo[a]@.ativo
        != #[trigger] novo[b]@.ativo by {
        assert(novo[a] == qs[a]);
        if b < qs.len() {
            assert(novo[b] == qs[b]);
        }
    }
    assert(mapa(novo) =~= mapa(qs).insert(q@.ativo, q@)) by {
        assert forall|a: (Market, Seq<char>)| a != q@.ativo implies lugar(novo, a) == lugar(
            qs,
            a,
        ) by {}
        assert forall|a: (Market, Seq<char>)| mapa(novo).dom().contains(a) implies mapa(novo)[a]
            == mapa(qs).insert(q@.ativo, q@)[a] by {
            lemma_lugar(qs, a);
            lemma_lugar(novo, a);
        }
    }
}

/// The picture after one more quote: it takes its asset's place unless the one there
/// stays, and inherits from it when it does.
pub open spec fn recebida(
    m: Map<(Market, Seq<char>), QuoteV>,
    q: QuoteV,
    andando: bool,
) -> Map<(Market, Seq<char>), QuoteV> {
    if m.dom().contains(q.ativo) {
        if fica(m[q.ativo], q, andando) {
            m
        } else {
            m.insert(q.ativo, herdada(q, m[q.ativo]))
        }
    } else {
        m.insert(q.ativo, q)
    }
}

/// The picture after several more quotes, one after the other.
pub open spec fn recebidas(
    m: Map<(Market, Seq<char>), QuoteV>,
    qs: Seq<QuoteV>,
    andando: Seq<bool>,
) -> Map<(Market, Seq<char>), QuoteV>
    decreases qs.len(),
{
    if qs.len() == 0 {
        m
    } else {
        recebida(recebidas(m, qs.drop_last(), andando), qs.last(), andando[qs.len() - 1])
    }
}

/// The states of the sources after one more: it replaces the one of the same source, or
/// goes to the end.
pub open spec fn com_fonte(fs: Seq<StatusFonte>, f: StatusFonte) -> Seq<StatusFonte> {
    match primeira(fs, f.id@, 0) {
        Some(i) => fs.update(i, f),
        None => fs.push(f),
    }
}

/// The first place, `de` or later, at which a source stands in a list.
pub open spec fn primeira(fs: Seq<StatusFonte>, id: Seq<char>, de: int) -> Option<int>
    decreases fs.len() - de,
{
    if de < 0 || de >= fs.len() {
        None
    } else if fs[de].id@ == id {
        Some(de)
    } else {
        primeira(fs, id, de + 1)
    }
}

/// The states of the sources after several more.
pub open spec fn com_fontes(fs: Seq<StatusFonte>, novas: Seq<StatusFonte>) -> Seq<StatusFonte>
    decreases novas.len(),
{
    if novas.len() == 0 {
        fs
    } else {
        com_fonte(com_fontes(fs, novas.drop_last()), novas.last())
    }
}

/// The picture the screen reads.
pub struct MarketSnapshot {
    pub quotes: Vec<Quote>,
    pub fontes: Vec<StatusFonte>,
}

/// What turns an amount into reais.
#[derive(Clone, Copy, PartialEq, Eq, Debug, Structural)]
pub enum Conversao {
    /// It is in reais already.
    Igual,
    /// Times this rate, the bit pattern of a double.
    Vezes(u64),
}

/// The pair whose price is the rate of a currency.
pub open spec fn par_de(moeda: Moeda) -> (Market, Seq<char>) {
    (Market::Fx, moeda.codigo() + "BRL"@)
}

/// The bit pattern of the double 1.
pub const UM: u64 = 0x3ff0_0000_0000_0000;

impl MarketSnapshot {
    /// One quote for each asset, and instants whose local clock fits.
    pub open spec fn wf(self) -> bool {
        um_por_ativo(self.quotes@) && forall|i: int|
            0 <= i < self.quotes@.len() ==> cabe(#[trigger] self.quotes@[i].em, BRT_OFFSET)
    }

    /// The quotes by asset.
    pub open spec fn por_ativo(self) -> Map<(Market, Seq<char>), QuoteV> {
        mapa(self.quotes@)
    }

    /// An empty picture.
    pub fn new() -> (r: MarketSnapshot)
        ensures
            r.wf(),
            r.quotes@.len() == 0,
            r.fontes@.len() == 0,
            r.por_ativo() == Map::<(Market, Seq<char>), QuoteV>::empty(),
    {
        let r = MarketSnapshot { quotes: Vec::new(), fontes: Vec::new() };
        assert(r.por_ativo() =~= Map::<(Market, Seq<char>), QuoteV>::empty());
        r
    }

    /// The place of an asset's quote.
    fn achar(&self, ativo: &AssetId) -> (r: Option<usize>)
        ensures
            (match r {
                Some(i) => lugar(self.quotes@, ativo@) == Some(i as int) && i < self.quotes@.len(),
                None => lugar(self.quotes@, ativo@) is None,
            }),
    {
        let mut i: usize = self.quotes.len();
        assert(self.quotes@.take(i as int) =~= self.quotes@);
        while i > 0
            invariant
                i <= self.quotes@.len(),
                lugar(self.quotes@.take(i as int), ativo@) == lugar(self.quotes@, ativo@),
            decreases i,
        {
            assert(self.quotes@.take(i as int).drop_last() =~= self.quotes@.take(i - 1));
            if self.quotes[i - 1].ativo.igual(ativo) {
                return Some(i - 1);
            }
            i = i - 1;
        }
        None
    }

    /// The quote of an asset.
    pub fn quote(&self, ativo: &AssetId) -> (r: Option<&Quote>)
        ensures
            (match r {
                Some(q) => self.por_ativo().dom().contains(ativo@) && self.por_ativo()[ativo@]
                    == q@,
                None => !self.por_ativo().dom().contains(ativo@),
            }),
    {
        match self.achar(ativo) {
            Some(i) => Some(&self.quotes[i]),
            None => None,
        }
    }

    /// The rate of a currency in reais, the bit pattern of a double; `None` when its pair
    /// is not on the table.
    pub fn taxa(&self, moeda: Moeda) -> (r: Option<u64>)
        ensures
            r == (if moeda is Brl {
                Some(UM)
            } else if self.por_ativo().dom().contains(par_de(moeda)) {
                Some(self.por_ativo()[par_de(moeda)].preco)
            } else {
                None
            }),
    {
        if moeda == Moeda::Brl {
            return Some(UM);
        }
        let mut s = moeda.code().to_owned();
        s.append("BRL");
        let par = AssetId { market: Market::Fx, symbol: s };
        match self.quote(&par) {
            Some(q) => Some(q.preco),
            None => None,
        }
    }

    /// What turns an amount in a currency into reais. `None` when there is no way, and then
    /// the line stays out of the total instead of adding an invented number. A tether is
    /// worth a dollar.
    pub fn para_brl(&self, moeda: Moeda) -> (r: Option<Conversao>)
        ensures
            r == ({
                let par = par_de(if moeda is Usdt {
                    Moeda::Usd
                } else {
                    moeda
                });
                if moeda is Brl {
                    Some(Conversao::Igual)
                } else if self.por_ativo().dom().contains(par) {
                    Some(Conversao::Vezes(self.por_ativo()[par].preco))
                } else {
                    None
                }
            }),
    {
        let base = match moeda {
            Moeda::Brl => {
                return Some(Conversao::Igual);
            },
            Moeda::Usd => Moeda::Usd,
            Moeda::Usdt => Moeda::Usd,
            Moeda::Eur => Moeda::Eur,
        };
        match self.taxa(base) {
            Some(t) => Some(Conversao::Vezes(t)),
            None => None,
        }
    }

    /// Puts a quote into the picture, whatever was there.
    pub fn por(&mut self, q: Quote)
        requires
            old(self).wf(),
            cabe(q.em, BRT_OFFSET),
        ensures
            final(self).wf(),
            final(self).por_ativo() == old(self).por_ativo().insert(q@.ativo, q@),
            final(self).fontes == old(self).fontes,
    {
        match self.achar(&q.ativo) {
            Some(i) => {
                proof {
                    lemma_lugar(self.quotes@, q@.ativo);
                    lemma_mapa_troca(self.quotes@, i as int, q);
                }
                self.quotes[i] = q;
            },
            None => {
                proof {
                    lemma_mapa_entra(self.quotes@, q);
                }
                self.quotes.push(q);
            },
        }
    }

    /// Receives one quote.
    fn receber(&mut self, q: Quote, andando: bool)
        requires
            old(self).wf(),
            cabe(q.em, BRT_OFFSET),
        ensures
            final(self).wf(),
            final(self).por_ativo() == recebida(old(self).por_ativo(), q@, andando),
            final(self).fontes == old(self).fontes,
    {
        match self.achar(&q.ativo) {
            Some(i) => {
                proof {
                    lemma_lugar(self.quotes@, q@.ativo);
                }
                let atual = &self.quotes[i];
                if q.grade.peso() < atual.grade.peso() && (!andando || q.em.saturating_sub(
                    atual.em,
                ) < VALIDADE_DA_ORIGEM) {
                    return;
                }
                let nova = herdar_acessorios(q, atual);
                proof {
                    lemma_mapa_troca(self.quotes@, i as int, nova);
                }
                self.quotes[i] = nova;
            },
            None => {
                proof {
                    lemma_mapa_entra(self.quotes@, q);
                }
                self.quotes.push(q);
            },
        }
    }

    /// Receives the state of one source.
    fn anotar(&mut self, f: StatusFonte)
        ensures
            final(self).quotes == old(self).quotes,
            final(self).fontes@ == com_fonte(old(self).fontes@, f),
    {
        let mut i: usize = 0;
        while i < self.fontes.len()
            invariant
                i <= self.fontes@.len(),
                *self == *old(self),
                primeira(self.fontes@, f.id@, i as int) == primeira(self.fontes@, f.id@, 0),
            decreases self.fontes@.len() - i,
        {
            if same(self.fontes[i].id, f.id) {
                self.fontes[i] = f;
                return;
            }
            i = i + 1;
        }
        self.fontes.push(f);
    }

    /// Puts the outcome of a turn into the picture. `andando` says, for each new quote,
    /// whether its market is moving.
    ///
    /// A source that did not speak in this turn keeps what it said before: dropping its
    /// line would make the screen blink.
    pub fn publicar(&mut self, novos: Vec<Quote>, andando: &[bool], fontes: Vec<StatusFonte>)
        requires
            old(self).wf(),
            andando@.len() == novos@.len(),
            forall|i: int| 0 <= i < novos@.len() ==> cabe(#[trigger] novos@[i].em, BRT_OFFSET),
        ensures
            final(self).wf(),
            final(self).por_ativo() == recebidas(old(self).por_ativo(), valores(novos@), andando@),
            final(self).fontes@ == com_fontes(old(self).fontes@, fontes@),
    {
        let ghost m0 = self.por_ativo();
        let ghost fs0 = self.fontes@;
        let ghost qs = valores(novos@);
        let mut novos = novos;
        let ghost todos = novos@;
        let n: usize = novos.len();
        let mut i: usize = 0;
        assert(novos@ =~= todos.skip(0));
        assert(qs.take(0) =~= Seq::empty());
        while i < n
            invariant
                i <= n,
                n == todos.len(),
                andando@.len() == n,
                novos@ == todos.skip(i as int),
                qs == valores(todos),
                forall|j: int| 0 <= j < n ==> cabe(#[trigger] todos[j].em, BRT_OFFSET),
                self.wf(),
                self.por_ativo() == recebidas(m0, qs.take(i as int), andando@),
                self.fontes@ == fs0,
            decreases n - i,
        {
            let q = novos.remove(0);
            proof {
                assert(q == todos[i as int]);
                assert(novos@ =~= todos.skip(i + 1));
                assert(qs.take(i + 1).drop_last() =~= qs.take(i as int));
                assert(qs.take(i + 1).last() == q@);
            }
            self.receber(q, andando[i]);
            i = i + 1;
        }
        assert(qs.take(n as int) =~= qs);
        let mut fontes = fontes;
        let ghost fs = fontes@;
        let m: usize = fontes.len();
        let mut j: usize = 0;
        assert(fontes@ =~= fs.skip(0));
        assert(fs.take(0) =~= Seq::empty());
        while j < m
            invariant
                j <= m,
                m == fs.len(),
                fontes@ == fs.skip(j as int),
                self.wf(),
                self.por_ativo() == recebidas(m0, qs, andando@),
                self.fontes@ == com_fontes(fs0, fs.take(j as int)),
            decreases m - j,
        {
            let f = fontes.remove(0);
            proof {
                assert(fontes@ =~= fs.skip(j + 1));
                assert(fs.take(j + 1).drop_last() =~= fs.take(j as int));
                assert(fs.take(j + 1).last() == f);
            }
            self.anotar(f);
            j = j + 1;
        }
        assert(fs.take(m as int) =~= fs);
    }
}

// --- laws of the picture -----------------------------------------------------------------------

/// A worse origin does not replace a better one while the market stands still, however
/// much time has passed.
pub proof fn lemma_mercado_parado(m: Map<(Market, Seq<char>), QuoteV>, q: QuoteV)
    requires
        m.dom().contains(q.ativo),
        q.grade.forca() < m[q.ativo].grade.forca(),
    ensures
        recebida(m, q, false) == m,
{
}

/// A better or equal origin always enters, with its own price.
pub proof fn lemma_melhor_entra(m: Map<(Market, Seq<char>), QuoteV>, q: QuoteV, andando: bool)
    requires
        m.dom().contains(q.ativo) ==> q.grade.forca() >= m[q.ativo].grade.forca(),
    ensures
        recebida(m, q, andando).dom().contains(q.ativo),
        recebida(m, q, andando)[q.ativo].preco == q.preco,
        recebida(m, q, andando)[q.ativo].grade == q.grade,
        recebida(m, q, andando)[q.ativo].em == q.em,
{
}

/// While the market moves, a worse origin enters exactly when half an hour has passed since
/// the better one.
pub proof fn lemma_validade(m: Map<(Market, Seq<char>), QuoteV>, q: QuoteV)
    requires
        m.dom().contains(q.ativo),
        q.grade.forca() < m[q.ativo].grade.forca(),
    ensures
        depois(q.em, m[q.ativo].em) < VALIDADE_DA_ORIGEM ==> recebida(m, q, true) == m,
        depois(q.em, m[q.ativo].em) >= VALIDADE_DA_ORIGEM ==> recebida(m, q, true)[q.ativo].preco
            == q.preco,
{
}

/// Receiving a quote of one asset leaves the others as they were, and no asset ever loses
/// its quote.
pub proof fn lemma_os_outros(
    m: Map<(Market, Seq<char>), QuoteV>,
    q: QuoteV,
    andando: bool,
    a: (Market, Seq<char>),
)
    ensures
        a != q.ativo ==> recebida(m, q, andando).dom().contains(a) == m.dom().contains(a),
        a != q.ativo && m.dom().contains(a) ==> recebida(m, q, andando)[a] == m[a],
        m.dom().contains(a) ==> recebida(m, q, andando).dom().contains(a),
{
}

/// How far origins are trusted: a live price above a delayed one, that above a close and above a
/// source without a contract, which are alike, and what was typed below all.
pub proof fn lemma_forca(atraso: u64)
    ensures
        Grade::AoVivo.forca() > Grade::Atrasado(atraso).forca(),
        Grade::Atrasado(atraso).forca() > Grade::Fechamento.forca(),
        Grade::Fechamento.forca() == Grade::NaoOficial.forca(),
        Grade::NaoOficial.forca() > Grade::Manual.forca(),
{
}

/// Each failure doubles the wait, up to five minutes, and eight times at most.
pub proof fn lemma_recuo_dobra(base: nat, passos: nat)
    ensures
        recuado(base, 0) == if base < 5 * 60 * 1000 {
            base
        } else {
            5 * 60 * 1000
        },
        passos < 8 ==> recuado(base, passos + 1) == (if 2 * recuado(base, passos) < 5 * 60 * 1000 {
            2 * recuado(base, passos)
        } else {
            5 * 60 * 1000
        }),
        passos >= 8 ==> recuado(base, passos + 1) == recuado(base, passos),
{
    if passos < 8 {
        assert(dobrado(base, passos + 1) == 2 * dobrado(base, passos));
    }
}

/// What a new quote takes from the one before it: only numbers that it lacks itself, and only
/// within one day. Its price, its instant and all else are its own.
pub proof fn lemma_herdada(q: QuoteV, antes: QuoteV)
    ensures
        ({
            let r = herdada(q, antes);
            &&& r == (QuoteV { volume: r.volume, max24: r.max24, min24: r.min24, ..q })
            &&& q.volume is Some ==> r.volume == q.volume
            &&& q.max24 is Some ==> r.max24 == q.max24
            &&& q.min24 is Some ==> r.min24 == q.min24
            &&& !mesmo_dia(q.em, antes.em) ==> r == q
            &&& mesmo_dia(q.em, antes.em) && q.volume is None ==> r.volume == antes.volume
            &&& mesmo_dia(q.em, antes.em) && q.max24 is None ==> r.max24 == antes.max24
            &&& mesmo_dia(q.em, antes.em) && q.min24 is None ==> r.min24 == antes.min24
        }),
{
}

/// The pair that turns a currency into reais is quoted in reais.
pub proof fn lemma_par_de()
    ensures
        par_de(Moeda::Usd) == (Market::Fx, "USDBRL"@),
        par_de(Moeda::Eur) == (Market::Fx, "EURBRL"@),
{
    reveal_strlit("USD");
    reveal_strlit("EUR");
    reveal_strlit("BRL");
    reveal_strlit("USDBRL");
    reveal_strlit("EURBRL");
    assert("USD"@ + "BRL"@ =~= "USDBRL"@);
    assert("EUR"@ + "BRL"@ =~= "EURBRL"@);
}

/// The session of the exchange is from ten to six of a weekday that is no holiday, on the clock
/// of the country.
pub proof fn lemma_pregao(agora: u64, feriados: Seq<Data>)
    ensures
        pregao(agora, feriados) ==> util(agora, feriados) && 36000 <= local(agora, BRT_OFFSET)
            % 86400 < 64800,
        util(agora, feriados) && 36000 <= local(agora, BRT_OFFSET) % 86400 < 64800 ==> pregao(
            agora,
            feriados,
        ),
        util(agora, feriados) ==> 1 <= data_em(dia_de(agora, BRT_OFFSET)).semana() <= 5,
        util(agora, feriados) ==> !feriados.contains(data_em(dia_de(agora, BRT_OFFSET))),
{
    let d = data_em(dia_de(agora, BRT_OFFSET));
    if util(agora, feriados) && feriados.contains(d) {
        let i = choose|i: int| 0 <= i < feriados.len() && feriados[i] == d;
        assert(feriados[i] == d);
    }
}

proof fn lemma_primeira(fs: Seq<StatusFonte>, id: Seq<char>, de: int)
    requires
        0 <= de <= fs.len(),
    ensures
        (match primeira(fs, id, de) {
            Some(i) => de <= i < fs.len() && fs[i].id@ == id && forall|j: int|
                de <= j < i ==> (#[trigger] fs[j]).id@ != id,
            None => forall|j: int| de <= j < fs.len() ==> (#[trigger] fs[j]).id@ != id,
        }),
    decreases fs.len() - de,
{
    if de < fs.len() && fs[de].id@ != id {
        lemma_primeira(fs, id, de + 1);
    }
}

/// What is said of a source takes the place of what was said of it, and says nothing of others.
pub proof fn lemma_com_fonte(fs: Seq<StatusFonte>, f: StatusFonte)
    requires
        forall|i: int, j: int|
            0 <= i < j < fs.len() ==> (#[trigger] fs[i]).id@ != (#[trigger] fs[j]).id@,
    ensures
        com_fonte(fs, f).contains(f),
        forall|i: int, j: int|
            0 <= i < j < com_fonte(fs, f).len() ==> (#[trigger] com_fonte(fs, f)[i]).id@ != (
            #[trigger] com_fonte(fs, f)[j]).id@,
        forall|i: int|
            0 <= i < fs.len() && (#[trigger] fs[i]).id@ != f.id@ ==> com_fonte(fs, f)[i] == fs[i],
        forall|i: int|
            0 <= i < com_fonte(fs, f).len() && (#[trigger] com_fonte(fs, f)[i]).id@ == f.id@
                ==> com_fonte(fs, f)[i] == f,
        fs.len() <= com_fonte(fs, f).len() <= fs.len() + 1,
{
    let r = com_fonte(fs, f);
    lemma_primeira(fs, f.id@, 0);
    match primeira(fs, f.id@, 0) {
        Some(i) => {
            assert(r[i] == f);
        },
        None => {
            assert(r[fs.len() as int] == f);
        },
    }
}

} // verus!
