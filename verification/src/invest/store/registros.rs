//! What the front page shows and does not fetch: the calendar, the news, the payments
//! announced.

use vstd::prelude::*;
use crate::order::{is_order, lemma_sorted, sorted_by, stable_order};
use crate::pick::{lemma_pick, lemma_pick_ends, picked};
use crate::text::{same, views};
use crate::invest::model::{ativo_de, chave_de, lemma_chave_volta, AssetId};
use crate::invest::portfolio::Ativo;
use crate::invest::providers::kinvo::{Anunciado, Pagamento};
use crate::invest::rss::{instante, instante_de, Item};
use crate::invest::store::carteira::em_linha;
use crate::invest::tempo::{instante_em, Data};

verus! {

/// An event of the economic calendar. Where it came from is kept as a code.
#[derive(Debug)]
pub struct Evento<T> {
    pub data: Data,
    pub pais: T,
    pub titulo: T,
    pub peso: u8,
    pub origem: T,
}

/// A row of the calendar.
#[derive(Debug)]
pub struct LinhaEvento<T> {
    pub id: i64,
    pub ano: i64,
    pub mes: i64,
    pub dia: i64,
    pub pais: T,
    pub titulo: T,
    pub peso: i64,
    pub origem: T,
}

impl View for Evento<String> {
    type V = Evento<Seq<char>>;

    open spec fn view(&self) -> Evento<Seq<char>> {
        Evento {
            data: self.data,
            pais: self.pais@,
            titulo: self.titulo@,
            peso: self.peso,
            origem: self.origem@,
        }
    }
}

impl View for LinhaEvento<String> {
    type V = LinhaEvento<Seq<char>>;

    open spec fn view(&self) -> LinhaEvento<Seq<char>> {
        LinhaEvento {
            id: self.id,
            ano: self.ano,
            mes: self.mes,
            dia: self.dia,
            pais: self.pais@,
            titulo: self.titulo@,
            peso: self.peso,
            origem: self.origem@,
        }
    }
}

/// The event that a row holds, where its origin is known.
pub open spec fn evento_lido(l: LinhaEvento<Seq<char>>, origens: Seq<Seq<char>>) -> Option<
    Evento<Seq<char>>,
> {
    if origens.contains(l.origem) {
        Some(
            Evento {
                data: Data { ano: l.ano as i32, mes: l.mes as u32, dia: l.dia as u32 },
                pais: l.pais,
                titulo: l.titulo,
                peso: l.peso as u8,
                origem: l.origem,
            },
        )
    } else {
        None
    }
}

/// The row of an event.
pub open spec fn linha_do_evento(id: int, e: Evento<Seq<char>>) -> LinhaEvento<Seq<char>> {
    LinhaEvento {
        id: id as i64,
        ano: e.data.ano as i64,
        mes: e.data.mes as i64,
        dia: e.data.dia as i64,
        pais: e.pais,
        titulo: e.titulo,
        peso: e.peso as i64,
        origem: e.origem,
    }
}

/// An event that was written is read back.
pub proof fn lemma_evento_volta(id: int, e: Evento<Seq<char>>, origens: Seq<Seq<char>>)
    requires
        origens.contains(e.origem),
    ensures
        evento_lido(linha_do_evento(id, e), origens) == Some(e),
{
}

fn origem_conhecida(v: &Vec<String>, s: &str) -> (r: bool)
    ensures
        r == views(v@).contains(s@),
{
    for i in 0..v.len()
        invariant
            forall|j: int| 0 <= j < i ==> #[trigger] views(v@)[j] != s@,
    {
        assert(views(v@)[i as int] == v@[i as int]@);
        if same(v[i].as_str(), s) {
            return true;
        }
    }
    false
}

/// Reads the calendar, in the order of its rows' numbers.
pub fn load_agenda(ls: &Vec<LinhaEvento<String>>, origens: &Vec<String>) -> (r: Vec<Evento<String>>)
    ensures
        Seq::new(r@.len(), |i: int| r@[i]@) == picked(
            sorted_by(
                Seq::new(ls@.len(), |i: int| ls@[i]@),
                Seq::new(ls@.len(), |i: int| ls@[i].id as i128),
            ),
            |l: LinhaEvento<Seq<char>>| evento_lido(l, views(origens@)),
        ),
{
    let ghost vs = Seq::new(ls@.len(), |i: int| ls@[i]@);
    let ghost f = |l: LinhaEvento<Seq<char>>| evento_lido(l, views(origens@));
    let mut chaves: Vec<i128> = Vec::new();
    for i in 0..ls.len()
        invariant
            chaves@ =~= Seq::new(i as nat, |k: int| ls@[k].id as i128),
    {
        chaves.push(ls[i].id as i128);
    }
    let o = stable_order(chaves.as_slice());
    let ghost ord = sorted_by(vs, chaves@);
    proof {
        assert(chaves@ =~= Seq::new(ls@.len(), |i: int| ls@[i].id as i128));
        lemma_sorted(vs, chaves@, o@);
        lemma_pick_ends(ord, f);
    }
    let mut r: Vec<Evento<String>> = Vec::new();
    assert(Seq::new(r@.len(), |k: int| r@[k]@) =~= Seq::empty());
    for i in 0..o.len()
        invariant
            is_order(chaves@, o@),
            chaves@.len() == ls@.len(),
            vs == Seq::new(ls@.len(), |i: int| ls@[i]@),
            f == (|l: LinhaEvento<Seq<char>>| evento_lido(l, views(origens@))),
            ord == Seq::new(vs.len(), |i: int| vs[o@[i] as int]),
            Seq::new(r@.len(), |k: int| r@[k]@) == picked(ord.take(i as int), f),
    {
        proof {
            lemma_pick(ord, f, i as int);
        }
        let l = &ls[o[i]];
        assert(ord[i as int] == l@);
        if origem_conhecida(origens, l.origem.as_str()) {
            let e = Evento {
                data: Data { ano: l.ano as i32, mes: l.mes as u32, dia: l.dia as u32 },
                pais: l.pais.clone(),
                titulo: l.titulo.clone(),
                peso: l.peso as u8,
                origem: l.origem.clone(),
            };
            let ghost antes = Seq::new(r@.len(), |k: int| r@[k]@);
            let ghost x = e@;
            r.push(e);
            assert(Seq::new(r@.len(), |k: int| r@[k]@) =~= antes.push(x));
        }
    }
    r
}

/// The rows that take the place of the calendar's. A fetch that brought nothing is one that
/// failed, and does not cost the calendar that is there.
pub fn save_agenda(eventos: &Vec<Evento<String>>) -> (r: Option<Vec<LinhaEvento<String>>>)
    ensures
        (match r {
            None => eventos@.len() == 0,
            Some(ls) => eventos@.len() > 0 && ls@.len() == eventos@.len() && forall|i: int|
                0 <= i < ls@.len() ==> (#[trigger] ls@[i])@ == linha_do_evento(i + 1, eventos@[i]@),
        }),
{
    if eventos.len() == 0 {
        return None;
    }
    let mut r: Vec<LinhaEvento<String>> = Vec::new();
    for i in 0..eventos.len()
        invariant
            r@.len() == i,
            forall|k: int|
                0 <= k < i ==> (#[trigger] r@[k])@ == linha_do_evento(k + 1, eventos@[k]@),
    {
        let e = &eventos[i];
        r.push(
            LinhaEvento {
                id: ((i as i128) + 1) as i64,
                ano: e.data.ano as i64,
                mes: e.data.mes as i64,
                dia: e.data.dia as i64,
                pais: e.pais.clone(),
                titulo: e.titulo.clone(),
                peso: e.peso as i64,
                origem: e.origem.clone(),
            },
        );
    }
    Some(r)
}

// --- news ----------------------------------------------------------------------------------------

/// A row of the news.
#[derive(Debug)]
pub struct LinhaNoticia {
    pub id: i64,
    pub fonte: String,
    pub titulo: String,
    pub link: String,
    pub data: String,
    pub resumo: String,
    pub em: Option<i64>,
}

/// What a row holds: the instant is read again out of the raw text when none was written, so
/// that a reader that has learnt a format heals the rows written before.
pub open spec fn noticia_lida(l: LinhaNoticia, n: (String, Item)) -> bool {
    &&& n.0@ == l.fonte@
    &&& n.1.titulo@ == l.titulo@
    &&& n.1.link@ == l.link@
    &&& n.1.data@ == l.data@
    &&& n.1.resumo@ == l.resumo@
    &&& instante_em(n.1.em) == (match l.em {
        Some(v) => Some((v as u64) as int),
        None => instante_de(l.data@),
    })
}

/// The row of a piece of news.
pub open spec fn linha_da_noticia(id: int, n: (String, Item), l: LinhaNoticia) -> bool {
    &&& l.id == id as i64
    &&& l.fonte@ == n.0@
    &&& l.titulo@ == n.1.titulo@
    &&& l.link@ == n.1.link@
    &&& l.data@ == n.1.data@
    &&& l.resumo@ == n.1.resumo@
    &&& l.em == em_linha(n.1.em)
}

/// A piece of news that was written is read back, with the date that its text gives where it
/// had none.
pub proof fn lemma_noticia_volta(id: int, n: (String, Item), l: LinhaNoticia, lida: (String, Item))
    requires
        linha_da_noticia(id, n, l),
        noticia_lida(l, lida),
    ensures
        lida.0@ == n.0@,
        lida.1.titulo@ == n.1.titulo@,
        lida.1.link@ == n.1.link@,
        lida.1.data@ == n.1.data@,
        lida.1.resumo@ == n.1.resumo@,
        n.1.em is Some ==> lida.1.em == n.1.em,
        n.1.em is None ==> instante_em(lida.1.em) == instante_de(n.1.data@),
{
    if n.1.em is Some {
        let v: u64 = n.1.em->0;
        assert((v as i64) as u64 == v) by (bit_vector);
    }
}

/// Reads the news, in the order of the rows' numbers.
pub fn load_noticias(ls: &Vec<LinhaNoticia>) -> (r: Vec<(String, Item)>)
    ensures
        r@.len() == ls@.len(),
        forall|i: int|
            0 <= i < r@.len() ==> noticia_lida(
                sorted_by(ls@, Seq::new(ls@.len(), |k: int| ls@[k].id as i128))[i],
                #[trigger] r@[i],
            ),
{
    let mut chaves: Vec<i128> = Vec::new();
    for i in 0..ls.len()
        invariant
            chaves@ =~= Seq::new(i as nat, |k: int| ls@[k].id as i128),
    {
        chaves.push(ls[i].id as i128);
    }
    let o = stable_order(chaves.as_slice());
    let ghost ord = sorted_by(ls@, chaves@);
    proof {
        assert(chaves@ =~= Seq::new(ls@.len(), |i: int| ls@[i].id as i128));
        lemma_sorted(ls@, chaves@, o@);
    }
    let mut r: Vec<(String, Item)> = Vec::new();
    for i in 0..o.len()
        invariant
            is_order(chaves@, o@),
            chaves@.len() == ls@.len(),
            ord == Seq::new(ls@.len(), |i: int| ls@[o@[i] as int]),
            r@.len() == i,
            forall|k: int| 0 <= k < i ==> noticia_lida(ord[k], #[trigger] r@[k]),
    {
        let l = &ls[o[i]];
        let em = match l.em {
            Some(v) => Some(v as u64),
            None => instante(l.data.as_str()),
        };
        let n = (
            l.fonte.clone(),
            Item {
                titulo: l.titulo.clone(),
                link: l.link.clone(),
                data: l.data.clone(),
                resumo: l.resumo.clone(),
                em,
            },
        );
        assert(noticia_lida(ord[i as int], n));
        r.push(n);
    }
    r
}

/// The rows that take the place of the news. Nothing fetched erases nothing.
pub fn save_noticias(itens: &Vec<(String, Item)>) -> (r: Option<Vec<LinhaNoticia>>)
    ensures
        (match r {
            None => itens@.len() == 0,
            Some(ls) => itens@.len() > 0 && ls@.len() == itens@.len() && forall|i: int|
                0 <= i < ls@.len() ==> linha_da_noticia(i + 1, itens@[i], #[trigger] ls@[i]),
        }),
{
    if itens.len() == 0 {
        return None;
    }
    let mut r: Vec<LinhaNoticia> = Vec::new();
    for i in 0..itens.len()
        invariant
            r@.len() == i,
            forall|k: int| 0 <= k < i ==> linha_da_noticia(k + 1, itens@[k], #[trigger] r@[k]),
    {
        let n = &itens[i];
        let em = match n.1.em {
            Some(v) => Some(v as i64),
            None => None,
        };
        let l = LinhaNoticia {
            id: ((i as i128) + 1) as i64,
            fonte: n.0.clone(),
            titulo: n.1.titulo.clone(),
            link: n.1.link.clone(),
            data: n.1.data.clone(),
            resumo: n.1.resumo.clone(),
            em,
        };
        assert(linha_da_noticia(i + 1, itens@[i as int], l));
        r.push(l);
    }
    Some(r)
}

// --- payments announced ---------------------------------------------------------------------------

/// A row of the payments announced. Two of the same asset and the same day are two rows: a
/// dividend and an interest payment, with different amounts.
#[derive(Debug)]
pub struct LinhaAnunciado<T> {
    pub id: i64,
    pub ativo: T,
    pub em: i64,
    pub por_cota: u64,
    pub dy: u64,
}

impl View for LinhaAnunciado<String> {
    type V = LinhaAnunciado<Seq<char>>;

    open spec fn view(&self) -> LinhaAnunciado<Seq<char>> {
        LinhaAnunciado {
            id: self.id,
            ativo: self.ativo@,
            em: self.em,
            por_cota: self.por_cota,
            dy: self.dy,
        }
    }
}

/// Announcements, in contracts.
pub open spec fn anuncios(v: Seq<Anunciado>) -> Seq<(Ativo, Pagamento)> {
    Seq::new(v.len(), |i: int| (v[i].ativo@, v[i].pagamento))
}

/// The announcement that a row holds, where its asset is known.
pub open spec fn anuncio_lido(l: LinhaAnunciado<Seq<char>>) -> Option<(Ativo, Pagamento)> {
    match ativo_de(l.ativo) {
        Some(a) => Some((a, Pagamento { em: l.em as u64, por_cota: l.por_cota, dy: l.dy })),
        None => None,
    }
}

/// The row of an announcement.
pub open spec fn linha_do_anuncio(id: int, a: (Ativo, Pagamento)) -> LinhaAnunciado<Seq<char>> {
    LinhaAnunciado {
        id: id as i64,
        ativo: chave_de(a.0),
        em: a.1.em as i64,
        por_cota: a.1.por_cota,
        dy: a.1.dy,
    }
}

/// An announcement that was written is read back.
pub proof fn lemma_anuncio_volta(id: int, a: (Ativo, Pagamento))
    ensures
        anuncio_lido(linha_do_anuncio(id, a)) == Some(a),
{
    lemma_chave_volta(a.0);
    let v: u64 = a.1.em;
    assert((v as i64) as u64 == v) by (bit_vector);
}

/// Reads the announcements, in the order of the rows' numbers.
pub fn load_anunciados(ls: &Vec<LinhaAnunciado<String>>) -> (r: Vec<Anunciado>)
    ensures
        anuncios(r@) == picked(
            sorted_by(
                Seq::new(ls@.len(), |i: int| ls@[i]@),
                Seq::new(ls@.len(), |i: int| ls@[i].id as i128),
            ),
            |l: LinhaAnunciado<Seq<char>>| anuncio_lido(l),
        ),
{
    let ghost vs = Seq::new(ls@.len(), |i: int| ls@[i]@);
    let ghost f = |l: LinhaAnunciado<Seq<char>>| anuncio_lido(l);
    let mut chaves: Vec<i128> = Vec::new();
    for i in 0..ls.len()
        invariant
            chaves@ =~= Seq::new(i as nat, |k: int| ls@[k].id as i128),
    {
        chaves.push(ls[i].id as i128);
    }
    let o = stable_order(chaves.as_slice());
    let ghost ord = sorted_by(vs, chaves@);
    proof {
        assert(chaves@ =~= Seq::new(ls@.len(), |i: int| ls@[i].id as i128));
        lemma_sorted(vs, chaves@, o@);
        lemma_pick_ends(ord, f);
    }
    let mut r: Vec<Anunciado> = Vec::new();
    assert(anuncios(r@) =~= Seq::empty());
    for i in 0..o.len()
        invariant
            is_order(chaves@, o@),
            chaves@.len() == ls@.len(),
            vs == Seq::new(ls@.len(), |i: int| ls@[i]@),
            f == (|l: LinhaAnunciado<Seq<char>>| anuncio_lido(l)),
            ord == Seq::new(vs.len(), |i: int| vs[o@[i] as int]),
            anuncios(r@) == picked(ord.take(i as int), f),
    {
        proof {
            lemma_pick(ord, f, i as int);
        }
        let l = &ls[o[i]];
        assert(ord[i as int] == l@);
        match AssetId::parse(l.ativo.as_str()) {
            Some(ativo) => {
                let pagamento = Pagamento { em: l.em as u64, por_cota: l.por_cota, dy: l.dy };
                let ghost antes = anuncios(r@);
                let ghost x = (ativo@, pagamento);
                r.push(Anunciado { ativo, pagamento });
                assert(anuncios(r@) =~= antes.push(x));
            },
            None => {},
        }
    }
    r
}

/// The rows that take the place of the announcements. Nothing fetched erases nothing.
pub fn save_anunciados(v: &Vec<Anunciado>) -> (r: Option<Vec<LinhaAnunciado<String>>>)
    ensures
        (match r {
            None => v@.len() == 0,
            Some(ls) => v@.len() > 0 && ls@.len() == v@.len() && forall|i: int|
                0 <= i < ls@.len() ==> (#[trigger] ls@[i])@ == linha_do_anuncio(
                    i + 1,
                    anuncios(v@)[i],
                ),
        }),
{
    if v.len() == 0 {
        return None;
    }
    let mut r: Vec<LinhaAnunciado<String>> = Vec::new();
    for i in 0..v.len()
        invariant
            r@.len() == i,
            forall|k: int|
                0 <= k < i ==> (#[trigger] r@[k])@ == linha_do_anuncio(k + 1, anuncios(v@)[k]),
    {
        let a = &v[i];
        r.push(
            LinhaAnunciado {
                id: ((i as i128) + 1) as i64,
                ativo: a.ativo.chave(),
                em: a.pagamento.em as i64,
                por_cota: a.pagamento.por_cota,
                dy: a.pagamento.dy,
            },
        );
    }
    Some(r)
}

} // verus!
