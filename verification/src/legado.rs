//! The JSON files of a data directory without a database, brought into the database once.
//!
//! Nothing is deleted: a file that was read is put aside under its own name, and one that
//! could not be understood stays where it is.

use vstd::prelude::*;
use crate::text::{same, views};

verus! {

/// The files, in the order in which they are brought in.
pub const ARQUIVOS: [&'static str; 12] = [
    "history.json",
    "tools.json",
    "marks.json",
    "rewrites.json",
    "engine.json",
    "invest.json",
    "invest-mru.json",
    "invest-cache.json",
    "invest-agenda.json",
    "invest-noticias.json",
    "invest-anunciados.json",
    "invest-patrimonio.json",
];

/// The directory that the files are put aside in.
pub const GUARDADOS: &'static str = "legado";

/// The backup of the portfolio, which goes with it.
pub const COPIA: &'static str = "invest.json.bak";

/// What a file holds.
#[derive(Clone, Copy, PartialEq, Eq, Debug, Structural)]
pub enum Conteudo {
    Historico,
    Ferramentas,
    Marcas,
    Reescritas,
    Motor,
    Carteira,
    Mru,
    Cache,
    Agenda,
    Noticias,
    Anunciados,
    Patrimonio,
}

/// What the file at each place of the list holds.
pub open spec fn conteudo_em(i: int) -> Option<Conteudo> {
    if i == 0 {
        Some(Conteudo::Historico)
    } else if i == 1 {
        Some(Conteudo::Ferramentas)
    } else if i == 2 {
        Some(Conteudo::Marcas)
    } else if i == 3 {
        Some(Conteudo::Reescritas)
    } else if i == 4 {
        Some(Conteudo::Motor)
    } else if i == 5 {
        Some(Conteudo::Carteira)
    } else if i == 6 {
        Some(Conteudo::Mru)
    } else if i == 7 {
        Some(Conteudo::Cache)
    } else if i == 8 {
        Some(Conteudo::Agenda)
    } else if i == 9 {
        Some(Conteudo::Noticias)
    } else if i == 10 {
        Some(Conteudo::Anunciados)
    } else if i == 11 {
        Some(Conteudo::Patrimonio)
    } else {
        None
    }
}

/// The first place of the list, `de` or later, with a name; the length when there is none.
pub open spec fn lugar_de(nome: Seq<char>, de: int) -> int
    decreases ARQUIVOS@.len() - de,
{
    if de < 0 || de >= ARQUIVOS@.len() || ARQUIVOS@[de]@ == nome {
        de
    } else {
        lugar_de(nome, de + 1)
    }
}

/// What a file of this name holds; nothing for a name that is not on the list.
pub fn conteudo(nome: &str) -> (r: Option<Conteudo>)
    ensures
        r == conteudo_em(lugar_de(nome@, 0)),
{
    let mut i: usize = 0;
    while i < 12 && !same(ARQUIVOS[i], nome)
        invariant
            0 <= i <= 12,
            lugar_de(nome@, i as int) == lugar_de(nome@, 0),
        decreases 12 - i,
    {
        i = i + 1;
    }
    match i {
        0 => Some(Conteudo::Historico),
        1 => Some(Conteudo::Ferramentas),
        2 => Some(Conteudo::Marcas),
        3 => Some(Conteudo::Reescritas),
        4 => Some(Conteudo::Motor),
        5 => Some(Conteudo::Carteira),
        6 => Some(Conteudo::Mru),
        7 => Some(Conteudo::Cache),
        8 => Some(Conteudo::Agenda),
        9 => Some(Conteudo::Noticias),
        10 => Some(Conteudo::Anunciados),
        11 => Some(Conteudo::Patrimonio),
        _ => None,
    }
}

/// What became of a file.
#[derive(Clone, Copy, PartialEq, Eq, Debug, Structural)]
pub enum Achado {
    Ausente,
    Lido,
    Ilegivel,
}

/// What was found and done, for whoever is looking at the screen.
#[derive(Debug)]
pub struct Resumo {
    /// The files that were there and were read.
    pub importados: Vec<String>,
    /// Those that were there and could not be understood.
    pub ilegiveis: Vec<String>,
    /// Where the originals were put aside, when any was.
    pub guardados_em: Option<String>,
}

/// The names, among the first `n` of the list, of the files that something became of.
pub open spec fn nomes_com(achados: Seq<Achado>, qual: Achado, n: int) -> Seq<Seq<char>>
    decreases n,
{
    if n <= 0 {
        Seq::empty()
    } else {
        let p = nomes_com(achados, qual, n - 1);
        if achados[n - 1] == qual {
            p.push(ARQUIVOS@[n - 1]@)
        } else {
            p
        }
    }
}

impl Resumo {
    /// Whether there was anything to bring in.
    pub fn houve_algo(&self) -> (r: bool)
        ensures
            r == (self.importados@.len() > 0 || self.ilegiveis@.len() > 0),
    {
        self.importados.len() > 0 || self.ilegiveis.len() > 0
    }

    /// The files to put aside: those that were read, and the backup of the portfolio. Nothing
    /// is put aside when none was read.
    pub fn a_guardar(&self) -> (r: Vec<String>)
        ensures
            views(r@) == (if self.importados@.len() == 0 {
                Seq::empty()
            } else {
                views(self.importados@).push(COPIA@)
            }),
    {
        let mut r: Vec<String> = Vec::new();
        if self.importados.len() == 0 {
            assert(views(r@) =~= Seq::empty());
            return r;
        }
        for i in 0..self.importados.len()
            invariant
                views(r@) =~= views(self.importados@).take(i as int),
        {
            let ghost antes = r@;
            r.push(self.importados[i].clone());
            assert(views(r@) =~= views(antes).push(views(self.importados@)[i as int]));
        }
        let ghost antes = r@;
        r.push(COPIA.to_owned());
        assert(views(r@) =~= views(antes).push(COPIA@));
        r
    }
}

/// Whether any file of the list is there.
pub fn existe_algo(existem: &[bool]) -> (r: bool)
    requires
        existem@.len() == ARQUIVOS@.len(),
    ensures
        r == existem@.contains(true),
{
    for i in 0..existem.len()
        invariant
            forall|j: int| 0 <= j < i ==> !#[trigger] existem@[j],
    {
        if existem[i] {
            assert(existem@[i as int]);
            return true;
        }
    }
    false
}

/// What is told of an import: of each file of the list, what became of it.
pub fn importar(achados: &[Achado]) -> (r: Resumo)
    requires
        achados@.len() == ARQUIVOS@.len(),
    ensures
        views(r.importados@) == nomes_com(achados@, Achado::Lido, ARQUIVOS@.len() as int),
        views(r.ilegiveis@) == nomes_com(achados@, Achado::Ilegivel, ARQUIVOS@.len() as int),
        r.guardados_em is None,
{
    let mut importados: Vec<String> = Vec::new();
    let mut ilegiveis: Vec<String> = Vec::new();
    assert(views(importados@) =~= Seq::empty());
    assert(views(ilegiveis@) =~= Seq::empty());
    for i in 0..12
        invariant
            achados@.len() == ARQUIVOS@.len(),
            ARQUIVOS@.len() == 12,
            views(importados@) == nomes_com(achados@, Achado::Lido, i as int),
            views(ilegiveis@) == nomes_com(achados@, Achado::Ilegivel, i as int),
    {
        match achados[i] {
            Achado::Ausente => {},
            Achado::Lido => {
                let ghost antes = importados@;
                importados.push(ARQUIVOS[i].to_owned());
                assert(views(importados@) =~= views(antes).push(ARQUIVOS@[i as int]@));
            },
            Achado::Ilegivel => {
                let ghost antes = ilegiveis@;
                ilegiveis.push(ARQUIVOS[i].to_owned());
                assert(views(ilegiveis@) =~= views(antes).push(ARQUIVOS@[i as int]@));
            },
        }
    }
    Resumo { importados, ilegiveis, guardados_em: None }
}

/// Each file that is there is told of once, as read or as not understood.
pub proof fn lemma_nada_se_perde(achados: Seq<Achado>, n: int)
    requires
        0 <= n <= achados.len(),
    ensures
        nomes_com(achados, Achado::Lido, n).len() + nomes_com(achados, Achado::Ilegivel, n).len()
            + nomes_com(achados, Achado::Ausente, n).len() == n,
    decreases n,
{
    if n > 0 {
        lemma_nada_se_perde(achados, n - 1);
    }
}

} // verus!
