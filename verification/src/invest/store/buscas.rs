//! When each thing last happened: each source answered, each module was opened.

use vstd::prelude::*;
use crate::dict::{find_pair, lemma_put, once, pairs, put, put_all, put_pair, under};
use crate::invest::provider::depois;

verus! {

/// When each module was last opened.
pub type Mru = Vec<(String, u64)>;

/// The rows that tables keep instants in, as instants.
pub open spec fn instantes(ls: Seq<(String, i64)>) -> Seq<(Seq<char>, u64)> {
    Seq::new(ls.len(), |i: int| (ls[i].0@, ls[i].1 as u64))
}

/// Instants by name, out of the rows of a table; of a name that comes twice, the later row.
fn ler_instantes(ls: &Vec<(String, i64)>) -> (r: Vec<(String, u64)>)
    ensures
        pairs(r@) == put_all(Seq::empty(), instantes(ls@)),
{
    let ghost vs = instantes(ls@);
    let mut r: Vec<(String, u64)> = Vec::new();
    assert(pairs(r@) =~= put_all(Seq::empty(), vs.take(0)));
    for i in 0..ls.len()
        invariant
            vs == instantes(ls@),
            pairs(r@) == put_all(Seq::empty(), vs.take(i as int)),
    {
        assert(vs.take(i + 1).drop_last() =~= vs.take(i as int));
        put_pair(&mut r, ls[i].0.as_str(), ls[i].1 as u64);
    }
    assert(vs.take(vs.len() as int) =~= vs);
    r
}

/// Reads when each module was last opened.
pub fn load_mru(ls: &Vec<(String, i64)>) -> (r: Mru)
    ensures
        pairs(r@) == put_all(Seq::empty(), instantes(ls@)),
{
    ler_instantes(ls)
}

/// The rows to put into the table of modules: each takes the place of the one of the same
/// module, and the others stay.
pub fn save_mru(mru: &Mru) -> (r: Vec<(String, i64)>)
    ensures
        r@.len() == mru@.len(),
        forall|i: int|
            0 <= i < r@.len() ==> (#[trigger] r@[i]).0@ == mru@[i].0@ && r@[i].1 == mru@[i].1 as i64,
        instantes(r@) == pairs(mru@),
{
    let mut r: Vec<(String, i64)> = Vec::new();
    for i in 0..mru.len()
        invariant
            r@.len() == i,
            forall|k: int|
                0 <= k < i ==> (#[trigger] r@[k]).0@ == mru@[k].0@ && r@[k].1 == mru@[k].1 as i64,
    {
        r.push((mru[i].0.clone(), mru[i].1 as i64));
    }
    proof {
        assert forall|i: int| 0 <= i < r@.len() implies #[trigger] instantes(r@)[i] == pairs(
            mru@,
        )[i] by {
            let v: u64 = mru@[i].1;
            assert((v as i64) as u64 == v) by (bit_vector);
            assert(r@[i].0@ == mru@[i].0@);
        }
        assert(instantes(r@) =~= pairs(mru@));
    }
    r
}

/// Reads when each source last answered.
pub fn load_buscas(ls: &Vec<(String, i64)>) -> (r: Vec<(String, u64)>)
    ensures
        pairs(r@) == put_all(Seq::empty(), instantes(ls@)),
{
    ler_instantes(ls)
}

/// When each outside source last answered: what tells a number of now from one of yesterday.
#[derive(Debug)]
pub struct Buscas {
    pub por_fonte: Vec<(String, u64)>,
}

impl Buscas {
    /// The instants by source.
    pub open spec fn registro(self) -> Seq<(Seq<char>, u64)> {
        pairs(self.por_fonte@)
    }

    /// Each source stands once.
    pub open spec fn wf(self) -> bool {
        once(self.registro())
    }

    /// Nothing was ever fetched.
    pub fn nova() -> (r: Buscas)
        ensures
            r.wf(),
            r.registro() == Seq::<(Seq<char>, u64)>::empty(),
    {
        let r = Buscas { por_fonte: Vec::new() };
        assert(r.registro() =~= Seq::empty());
        r
    }

    /// What was left from the last use, so that the first screen already knows the age.
    pub fn carregar(ls: &Vec<(String, i64)>) -> (r: Buscas)
        ensures
            r.wf(),
            r.registro() == put_all(Seq::empty(), instantes(ls@)),
    {
        let por_fonte = load_buscas(ls);
        proof {
            lemma_once_de_todos(instantes(ls@));
        }
        Buscas { por_fonte }
    }

    /// When a source last answered; nothing when it never did.
    pub fn quando(&self, chave: &str) -> (r: Option<u64>)
        ensures
            r == under(self.registro(), chave@),
    {
        match find_pair(&self.por_fonte, chave) {
            Some(i) => Some(self.por_fonte[i].1),
            None => None,
        }
    }

    /// How many seconds ago a source last answered. Never is not the same as now.
    pub fn idade(&self, chave: &str, agora: u64) -> (r: Option<u64>)
        ensures
            r == (match under(self.registro(), chave@) {
                Some(em) => Some(depois(agora, em) as u64),
                None => None,
            }),
    {
        match self.quando(chave) {
            Some(em) => Some(agora.saturating_sub(em)),
            None => None,
        }
    }

    /// Stamps an answer. The result is the row that the table of sources gets.
    pub fn carimbar(&mut self, chave: &str, em: u64) -> (r: (String, i64))
        ensures
            final(self).registro() == put(old(self).registro(), chave@, em),
            old(self).wf() ==> final(self).wf(),
            r.0@ == chave@,
            r.1 == em as i64,
    {
        proof {
            if self.wf() {
                lemma_put(self.registro(), chave@, em, chave@);
            }
        }
        put_pair(&mut self.por_fonte, chave, em);
        (chave.to_owned(), em as i64)
    }
}

proof fn lemma_once_de_todos(ps: Seq<(Seq<char>, u64)>)
    ensures
        once(put_all(Seq::empty(), ps)),
    decreases ps.len(),
{
    if ps.len() > 0 {
        lemma_once_de_todos(ps.drop_last());
        lemma_put(
            put_all(Seq::empty(), ps.drop_last()),
            ps.last().0,
            ps.last().1,
            ps.last().0,
        );
    }
}

/// A stamp moves the source that answered, and no other.
pub proof fn lemma_carimbo(r: Seq<(Seq<char>, u64)>, chave: Seq<char>, em: u64, outra: Seq<char>)
    requires
        once(r),
    ensures
        under(put(r, chave, em), chave) == Some(em),
        outra != chave ==> under(put(r, chave, em), outra) == under(r, outra),
{
    lemma_put(r, chave, em, chave);
    lemma_put(r, chave, em, outra);
}

} // verus!
