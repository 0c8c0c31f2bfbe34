//! What the program was asked for on its command line.

use vstd::prelude::*;
use crate::text::{cat3, maybe, same};

verus! {

/// Which profile to open.
#[derive(Debug)]
pub enum Pedido {
    /// The one there is; a choice where there are several.
    Automatico,
    /// A choice, even where there is but one: that is how the second is made.
    Escolher,
    /// The one of this name, which is made where it does not exist.
    Nomeado(String),
}

/// What to do.
#[derive(Debug)]
pub enum Flag {
    Run(Pedido),
    /// List the profiles.
    Perfis,
    Version,
    Bench,
    Help,
    /// Refuse what is not known.
    Unknown(String),
}

/// What to do, in contracts.
pub enum FlagV {
    Automatico,
    Escolher,
    Nomeado(Seq<char>),
    Perfis,
    Version,
    Bench,
    Help,
    Unknown(Seq<char>),
}

impl View for Flag {
    type V = FlagV;

    open spec fn view(&self) -> FlagV {
        match *self {
            Flag::Run(Pedido::Automatico) => FlagV::Automatico,
            Flag::Run(Pedido::Escolher) => FlagV::Escolher,
            Flag::Run(Pedido::Nomeado(n)) => FlagV::Nomeado(n@),
            Flag::Perfis => FlagV::Perfis,
            Flag::Version => FlagV::Version,
            Flag::Bench => FlagV::Bench,
            Flag::Help => FlagV::Help,
            Flag::Unknown(f) => FlagV::Unknown(f@),
        }
    }
}

/// What the first two words of a command line ask for.
pub open spec fn asked(flag: Option<Seq<char>>, name: Option<Seq<char>>) -> FlagV {
    match flag {
        None => FlagV::Automatico,
        Some(f) => if f == "--perfil"@ || f == "-p"@ {
            match name {
                Some(n) => FlagV::Nomeado(n),
                None => FlagV::Escolher,
            }
        } else if f == "--perfis"@ {
            FlagV::Perfis
        } else if f == "--version"@ || f == "-V"@ {
            FlagV::Version
        } else if f == "--bench"@ {
            FlagV::Bench
        } else if f == "--help"@ || f == "-h"@ {
            FlagV::Help
        } else {
            FlagV::Unknown(f)
        },
    }
}

/// What the first two words of a command line ask for.
pub fn handle_flags(flag: Option<String>, name: Option<String>) -> (r: Flag)
    ensures
        r@ == asked(maybe(flag), maybe(name)),
{
    match flag {
        None => Flag::Run(Pedido::Automatico),
        Some(t) => {
            let f = t.as_str();
            if same(f, "--perfil") || same(f, "-p") {
                match name {
                    Some(n) => Flag::Run(Pedido::Nomeado(n)),
                    None => Flag::Run(Pedido::Escolher),
                }
            } else if same(f, "--perfis") {
                Flag::Perfis
            } else if same(f, "--version") || same(f, "-V") {
                Flag::Version
            } else if same(f, "--bench") {
                Flag::Bench
            } else if same(f, "--help") || same(f, "-h") {
                Flag::Help
            } else {
                Flag::Unknown(t)
            }
        },
    }
}

/// What is said of a word that is not known.
pub fn refusal(flag: &str) -> (r: String)
    ensures
        r@ == "monitorzinho: opção desconhecida «"@ + flag@ + "» — tente --help"@,
{
    cat3("monitorzinho: opção desconhecida «", flag, "» — tente --help")
}

/// A word that is no flag is refused as it was given, whatever follows it.
pub proof fn lemma_unknown(f: Seq<char>, name: Option<Seq<char>>)
    requires
        !seq![
            "--perfil"@,
            "-p"@,
            "--perfis"@,
            "--version"@,
            "-V"@,
            "--bench"@,
            "--help"@,
            "-h"@,
        ].contains(f),
    ensures
        asked(Some(f), name) == FlagV::Unknown(f),
{
    let v = seq![
        "--perfil"@,
        "-p"@,
        "--perfis"@,
        "--version"@,
        "-V"@,
        "--bench"@,
        "--help"@,
        "-h"@,
    ];
    assert forall|i: int| 0 <= i < v.len() implies #[trigger] v[i] != f by {
        assert(v.contains(v[i]));
    }
    assert(v[0] != f && v[1] != f && v[2] != f && v[3] != f && v[4] != f && v[5] != f && v[6] != f
        && v[7] != f);
}

/// Only the flag of a profile takes a name, and only the absence of any flag asks for nothing.
pub proof fn lemma_named(name: Option<Seq<char>>)
    ensures
        name is Some ==> asked(Some("--perfil"@), name) == FlagV::Nomeado(name->0) && asked(
            Some("-p"@),
            name,
        ) == FlagV::Nomeado(name->0),
        name is None ==> asked(Some("--perfil"@), name) == FlagV::Escolher && asked(
            Some("-p"@),
            name,
        ) == FlagV::Escolher,
        asked(None, name) == FlagV::Automatico,
{
}

} // verus!
