//! What is kept between runs.

use vstd::prelude::*;
use crate::invest::portfolio::{vazio, Portfolio};
use crate::invest::store::carteira::{ler_portfolio, portfolio_lido, Tabelas, Vocabulario};

pub mod buscas;
pub mod cache;
pub mod carteira;
pub mod fonte;
pub mod registros;

verus! {

/// The portfolio as it was read, and whether it may be written: a profile on a medium that
/// cannot be written to is shown, and the screen says so.
#[derive(Debug)]
pub struct Loaded {
    pub portfolio: Portfolio,
    pub somente_leitura: bool,
}

/// The portfolio out of its tables; an empty one where the tables could not be read.
pub fn load(tabelas: Option<&Tabelas>, v: &Vocabulario, somente_leitura: bool) -> (r: Loaded)
    ensures
        r.somente_leitura == somente_leitura,
        r.portfolio@ == (match tabelas {
            Some(t) => portfolio_lido(t@, v@),
            None => vazio(),
        }),
{
    let portfolio = match tabelas {
        Some(t) => ler_portfolio(t, v),
        None => Portfolio::novo(),
    };
    Loaded { portfolio, somente_leitura }
}

/// What the user is told after the portfolio was written, or was not.
pub fn save(gravou: bool) -> (r: Result<(), String>)
    ensures
        (match r {
            Ok(_) => gravou,
            Err(m) => !gravou && m@ == "não deu para gravar a carteira no banco do perfil"@,
        }),
{
    if gravou {
        Ok(())
    } else {
        Err("não deu para gravar a carteira no banco do perfil".to_owned())
    }
}

} // verus!
