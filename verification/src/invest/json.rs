//! An answer in JSON, as the readers of this crate see it.
//!
//! Numbers are the bit patterns of doubles. A text carries, beside its characters, the
//! double that it reads as: half of the sources write their numbers between quotes.

use vstd::prelude::*;
use crate::text::same;

verus! {

/// A JSON value.
#[derive(Debug)]
pub enum Json {
    Nulo,
    Bool(bool),
    /// The double, and the natural number where it is one.
    Numero { valor: u64, natural: Option<u64> },
    /// The text, and the double that it reads as where it does.
    Texto { texto: String, numero: Option<u64> },
    Lista(Vec<Json>),
    Objeto(Vec<(String, Json)>),
}

/// The value of the first member of an object with a given name.
pub open spec fn membro(ms: Seq<(String, Json)>, nome: Seq<char>) -> Option<Json>
    decreases ms.len(),
{
    if ms.len() == 0 {
        None
    } else if ms[0].0@ == nome {
        Some(ms[0].1)
    } else {
        membro(ms.skip(1), nome)
    }
}

/// A member of a value: nothing when it is no object, or has no such member.
pub open spec fn campo(v: Json, nome: Seq<char>) -> Option<Json> {
    match v {
        Json::Objeto(ms) => membro(ms@, nome),
        _ => None,
    }
}

/// A member of an optional value.
pub open spec fn campo_de(v: Option<Json>, nome: Seq<char>) -> Option<Json> {
    match v {
        Some(x) => campo(x, nome),
        None => None,
    }
}

/// The items of a value that is a list.
pub open spec fn itens(v: Option<Json>) -> Option<Seq<Json>> {
    match v {
        Some(Json::Lista(xs)) => Some(xs@),
        _ => None,
    }
}

/// The first item of a list that has one.
pub open spec fn primeiro(v: Option<Seq<Json>>) -> Option<Json> {
    match v {
        Some(xs) => if xs.len() > 0 {
            Some(xs[0])
        } else {
            None
        },
        None => None,
    }
}

/// The characters of a value that is a text.
pub open spec fn letras(v: Option<Json>) -> Option<Seq<char>> {
    match v {
        Some(Json::Texto { texto, numero }) => Some(texto@),
        _ => None,
    }
}

/// The double that a value that is a text reads as.
pub open spec fn numero_escrito(v: Option<Json>) -> Option<u64> {
    match v {
        Some(Json::Texto { texto, numero }) => numero,
        _ => None,
    }
}

/// The double of a value that is a number.
pub open spec fn dobro(v: Option<Json>) -> Option<u64> {
    match v {
        Some(Json::Numero { valor, natural }) => Some(valor),
        _ => None,
    }
}

/// The natural number of a value that is one.
pub open spec fn natural_de(v: Option<Json>) -> Option<u64> {
    match v {
        Some(Json::Numero { valor, natural }) => natural,
        _ => None,
    }
}

/// The value behind an optional reference.
pub open spec fn visto(v: Option<&Json>) -> Option<Json> {
    match v {
        Some(x) => Some(*x),
        None => None,
    }
}

impl Json {
    /// A member of an object.
    pub fn get(&self, nome: &str) -> (r: Option<&Json>)
        ensures
            visto(r) == campo(*self, nome@),
    {
        match self {
            Json::Objeto(ms) => {
                assert(ms@.skip(0) =~= ms@);
                for i in 0..ms.len()
                    invariant
                        membro(ms@.skip(i as int), nome@) == membro(ms@, nome@),
                        *self == Json::Objeto(*ms),
                {
                    assert(ms@.skip(i as int)[0] == ms@[i as int]);
                    assert(ms@.skip(i as int).skip(1) =~= ms@.skip(i + 1));
                    if same(ms[i].0.as_str(), nome) {
                        return Some(&ms[i].1);
                    }
                }
                None
            },
            _ => None,
        }
    }
}

/// A member of an optional value.
pub fn get_de<'a>(v: Option<&'a Json>, nome: &str) -> (r: Option<&'a Json>)
    ensures
        visto(r) == campo_de(visto(v), nome@),
{
    match v {
        Some(x) => x.get(nome),
        None => None,
    }
}

/// The items of a value that is a list.
pub fn as_array<'a>(v: Option<&'a Json>) -> (r: Option<&'a Vec<Json>>)
    ensures
        (match r {
            Some(xs) => itens(visto(v)) == Some(xs@),
            None => itens(visto(v)) is None,
        }),
{
    match v {
        Some(Json::Lista(xs)) => Some(xs),
        _ => None,
    }
}

/// The first item of a value that is a list.
pub fn first_of<'a>(v: Option<&'a Json>) -> (r: Option<&'a Json>)
    ensures
        visto(r) == primeiro(itens(visto(v))),
{
    match as_array(v) {
        Some(xs) => if xs.len() > 0 {
            Some(&xs[0])
        } else {
            None
        },
        None => None,
    }
}

/// The characters of a value that is a text.
pub fn as_str<'a>(v: Option<&'a Json>) -> (r: Option<&'a str>)
    ensures
        (match r {
            Some(s) => letras(visto(v)) == Some(s@),
            None => letras(visto(v)) is None,
        }),
{
    match v {
        Some(Json::Texto { texto, numero }) => Some(texto.as_str()),
        _ => None,
    }
}

/// The double that a value that is a text reads as.
pub fn as_written(v: Option<&Json>) -> (r: Option<u64>)
    ensures
        r == numero_escrito(visto(v)),
{
    match v {
        Some(Json::Texto { texto, numero }) => *numero,
        _ => None,
    }
}

/// The double of a value that is a number.
pub fn as_double(v: Option<&Json>) -> (r: Option<u64>)
    ensures
        r == dobro(visto(v)),
{
    match v {
        Some(Json::Numero { valor, natural }) => Some(*valor),
        _ => None,
    }
}

/// The natural number of a value that is one.
pub fn as_natural(v: Option<&Json>) -> (r: Option<u64>)
    ensures
        r == natural_de(visto(v)),
{
    match v {
        Some(Json::Numero { valor, natural }) => *natural,
        _ => None,
    }
}

/// Whether a value is the boolean `true`.
pub fn is_true(v: Option<&Json>) -> (r: bool)
    ensures
        r == (visto(v) == Some(Json::Bool(true))),
{
    match v {
        Some(Json::Bool(b)) => *b,
        _ => false,
    }
}

// --- doubles by their bits -------------------------------------------------------------------

/// A number whose order is that of the doubles with these bit patterns, for any that is not
/// a NaN. The two zeros have the same.
pub open spec fn chave_da_ordem(bits: u64) -> int {
    if bits >= 0x8000_0000_0000_0000 {
        0x8000_0000_0000_0000 - bits
    } else {
        bits as int
    }
}

/// A number whose order is that of the doubles with these bit patterns.
pub fn chave_da_ordem_de(bits: u64) -> (r: i64)
    ensures
        r == chave_da_ordem(bits),
{
    if bits >= 0x8000_0000_0000_0000 {
        -((bits - 0x8000_0000_0000_0000) as i64)
    } else {
        bits as i64
    }
}

/// A double greater than zero.
pub open spec fn positivo(bits: u64) -> bool {
    chave_da_ordem(bits) > 0
}

} // verus!
