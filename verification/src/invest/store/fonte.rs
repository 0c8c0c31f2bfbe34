//! The names of the outside sources in the record of when each last answered. Who writes and
//! who reads have to say the same word: a slip would only make the screen say «never» forever.

use vstd::prelude::*;

verus! {

pub const COTACAO: &'static str = "cotacao";

pub const NOTICIA: &'static str = "noticia";

pub const AGENDA: &'static str = "agenda";

pub const ANUNCIADO: &'static str = "anunciado";

pub const HISTORICO: &'static str = "historico";

pub const FUNDAMENTO: &'static str = "fundamento";

/// The six names, in the order they are declared.
pub open spec fn todas() -> Seq<Seq<char>> {
    seq![COTACAO@, NOTICIA@, AGENDA@, ANUNCIADO@, HISTORICO@, FUNDAMENTO@]
}

/// Each source has a name of its own: two that shared one would share a stamp.
pub proof fn lemma_um_nome_so(i: int, j: int)
    requires
        0 <= i < j < todas().len(),
    ensures
        todas()[i] != todas()[j],
{
    reveal_strlit("cotacao");
    reveal_strlit("noticia");
    reveal_strlit("agenda");
    reveal_strlit("anunciado");
    reveal_strlit("historico");
    reveal_strlit("fundamento");
    assert("cotacao"@[0] == 'c' && "noticia"@[0] == 'n' && "agenda"@[1] == 'g');
    assert("anunciado"@[1] == 'n' && "anunciado"@[0] == 'a' && "agenda"@[0] == 'a');
    assert("historico"@[0] == 'h' && "fundamento"@[0] == 'f');
}

} // verus!
