//! A reader of news feeds.
//!
//! RSS and Atom are shallow: the fields that matter are half a dozen tags inside `<item>` or
//! `<entry>`. This is an extractor of those tags, with a bound on how many items it keeps and
//! a fixed set of entities, none of them external.

use vstd::prelude::*;
use vstd::slice::slice_subrange;
use crate::number::{all_digits, digits_upto, value};
use crate::pick::picked;
use crate::text::{
    ascii_lower, begins, chars_of, contains_char, digits_of, find_from, first_some, found, holds,
    is_digit, is_without, lemma_first_some, lemma_found, lemma_join_spaces, lemma_join_words,
    lemma_words, lower_ascii, maybe, occurs_at, only_digits, past, pieces, reach, reach_from,
    replace, replaced, runs, same, single_spaced, split, split_runs, starts_with, strip_prefix,
    strip_suffix, text_of, trim, trimmed, upto, views, words, Cut,
};
use crate::invest::tempo::{
    contar, dias, dias_de, em_segundos, epoch_de_iso, instante_em, iso, ler_ou_zero, ou_zero,
};

verus! {

/// One item of a feed.
#[derive(Clone, Debug, PartialEq, Eq)]
pub struct Item {
    pub titulo: String,
    pub link: String,
    pub data: String,
    pub resumo: String,
    /// The date as an instant, when it could be read.
    pub em: Option<u64>,
}

/// How many items are kept of one feed.
pub const MAX_ITENS: usize = 60;

// --- dates ---------------------------------------------------------------------------------

/// The month that a piece of a date names: the one whose English abbreviation it begins
/// with, in either case.
pub open spec fn mes_nomeado(s: Seq<char>) -> Option<int> {
    let b = ascii_lower(s);
    if begins(b, "jan"@) {
        Some(1)
    } else if begins(b, "feb"@) {
        Some(2)
    } else if begins(b, "mar"@) {
        Some(3)
    } else if begins(b, "apr"@) {
        Some(4)
    } else if begins(b, "may"@) {
        Some(5)
    } else if begins(b, "jun"@) {
        Some(6)
    } else if begins(b, "jul"@) {
        Some(7)
    } else if begins(b, "aug"@) {
        Some(8)
    } else if begins(b, "sep"@) {
        Some(9)
    } else if begins(b, "oct"@) {
        Some(10)
    } else if begins(b, "nov"@) {
        Some(11)
    } else if begins(b, "dec"@) {
        Some(12)
    } else {
        None
    }
}

/// The year that a piece of a date writes: a number of four digits.
pub open spec fn ano_escrito(s: Seq<char>) -> Option<int> {
    if s.len() == 4 && all_digits(s) {
        Some(value(s) as int)
    } else {
        None
    }
}

/// The day that a piece of a date writes: a number of one or two digits, 1 to 31.
pub open spec fn dia_escrito(s: Seq<char>) -> Option<int> {
    if 1 <= s.len() <= 2 && all_digits(s) && 1 <= value(s) <= 31 {
        Some(value(s) as int)
    } else {
        None
    }
}

/// Member `i` of a list as a number, 0 when it is missing or cannot be read.
pub open spec fn membro(ps: Seq<Seq<char>>, i: int) -> int {
    if i < ps.len() {
        ou_zero(ps[i])
    } else {
        0
    }
}

/// The time of day that a piece of a date writes, in seconds: whatever has a colon in it.
pub open spec fn hora_escrita(s: Seq<char>) -> Option<int> {
    if s.contains(':') {
        let p = pieces(s, Cut::At(':'));
        Some(membro(p, 0) * 3600 + membro(p, 1) * 60 + membro(p, 2))
    } else {
        None
    }
}

/// The offset from UTC that a piece of a date writes, in seconds.
pub open spec fn fuso_escrito(s: Seq<char>) -> Option<int> {
    if s == "Z"@ || s == "GMT"@ || s == "UTC"@ || s == "UT"@ {
        Some(0)
    } else if s.len() > 0 && (s[0] == '+' || s[0] == '-') && digits_of(s.skip(1)).len() == 4 {
        let d = digits_of(s.skip(1));
        let n = value(d.take(2)) * 3600 + value(d.skip(2)) * 60;
        Some(if s[0] == '-' {
            -(n as int)
        } else {
            n as int
        })
    } else {
        None
    }
}

/// The offset of a date from UTC: the first one that any of its pieces writes, else zero.
pub open spec fn fuso_de(ps: Seq<Seq<char>>) -> int {
    match first_some(ps, |s: Seq<char>| fuso_escrito(s)) {
        Some(n) => n,
        None => 0,
    }
}

/// The instant of a date whose fields are found by their shape and not by their place.
/// A date without a time of day is its midnight.
pub open spec fn por_forma(s: Seq<char>) -> Option<int> {
    let p = runs(s, Cut::In(' ', ',', '\t'));
    match (
        first_some(p, |s: Seq<char>| mes_nomeado(s)),
        first_some(p, |s: Seq<char>| ano_escrito(s)),
        first_some(p, |s: Seq<char>| dia_escrito(s)),
    ) {
        (Some(m), Some(a), Some(d)) => {
            let hora = match first_some(p, |s: Seq<char>| hora_escrita(s)) {
                Some(h) => h,
                None => 0,
            };
            Some(dias(a, m, d) * 86400 + hora - fuso_de(p))
        },
        _ => None,
    }
}

/// The instant of a feed's date: ISO 8601 when it is that, else by the shape of its fields.
pub open spec fn instante_de(s: Seq<char>) -> Option<int> {
    let t = trimmed(s);
    if t.len() == 0 {
        None
    } else {
        match em_segundos(iso(t)) {
            Some(v) => Some(v),
            None => em_segundos(por_forma(t)),
        }
    }
}

/// Finds the month that a piece of a date names.
fn mes_de(s: &str) -> (r: Option<u32>)
    ensures
        (match r {
            Some(m) => mes_nomeado(s@) == Some(m as int) && 1 <= m <= 12,
            None => mes_nomeado(s@) is None,
        }),
{
    let b = lower_ascii(s);
    let b = b.as_str();
    if starts_with(b, "jan") {
        Some(1)
    } else if starts_with(b, "feb") {
        Some(2)
    } else if starts_with(b, "mar") {
        Some(3)
    } else if starts_with(b, "apr") {
        Some(4)
    } else if starts_with(b, "may") {
        Some(5)
    } else if starts_with(b, "jun") {
        Some(6)
    } else if starts_with(b, "jul") {
        Some(7)
    } else if starts_with(b, "aug") {
        Some(8)
    } else if starts_with(b, "sep") {
        Some(9)
    } else if starts_with(b, "oct") {
        Some(10)
    } else if starts_with(b, "nov") {
        Some(11)
    } else if starts_with(b, "dec") {
        Some(12)
    } else {
        None
    }
}

proof fn lemma_valor_de_quatro(s: Seq<char>)
    requires
        all_digits(s),
        s.len() <= 4,
    ensures
        value(s) <= 9999,
        s.len() <= 2 ==> value(s) <= 99,
{
    reveal_with_fuel(value, 5);
}

/// Reads the year that a piece of a date writes.
fn ano_de(s: &str) -> (r: Option<i32>)
    ensures
        (match r {
            Some(a) => ano_escrito(s@) == Some(a as int),
            None => ano_escrito(s@) is None,
        }),
{
    let v = chars_of(s);
    if v.len() != 4 {
        return None;
    }
    proof {
        if all_digits(s@) {
            lemma_valor_de_quatro(s@);
        }
    }
    match digits_upto(v.as_slice(), 9999) {
        Some(n) => Some(n as i32),
        None => None,
    }
}

/// Reads the day that a piece of a date writes.
fn dia_de(s: &str) -> (r: Option<u32>)
    ensures
        (match r {
            Some(d) => dia_escrito(s@) == Some(d as int),
            None => dia_escrito(s@) is None,
        }),
{
    let v = chars_of(s);
    if v.len() < 1 || v.len() > 2 {
        return None;
    }
    match digits_upto(v.as_slice(), 31) {
        Some(n) => if n >= 1 {
            Some(n as u32)
        } else {
            None
        },
        None => None,
    }
}

/// Reads member `i` of a list as a number, or 0.
fn membro_de(ps: &Vec<String>, i: usize) -> (r: i64)
    ensures
        r == membro(views(ps@), i as int),
{
    if i < ps.len() {
        ler_ou_zero(ps[i].as_str())
    } else {
        0
    }
}

/// Reads the time of day that a piece of a date writes.
fn hora_de(s: &str) -> (r: Option<i128>)
    ensures
        (match r {
            Some(h) => hora_escrita(s@) == Some(h as int),
            None => hora_escrita(s@) is None,
        }),
        r is Some ==> -0x1_0000_0000_0000_0000_0000 <= r->0 <= 0x1_0000_0000_0000_0000_0000,
{
    if !contains_char(s, ':') {
        return None;
    }
    let p = split(s, Cut::At(':'));
    let h = membro_de(&p, 0);
    let m = membro_de(&p, 1);
    let s = membro_de(&p, 2);
    Some((h as i128) * 3600 + (m as i128) * 60 + (s as i128))
}

proof fn lemma_so_digitos(s: Seq<char>)
    ensures
        forall|i: int|
            0 <= i < digits_of(s).len() ==> crate::text::is_digit(#[trigger] digits_of(s)[i]),
    decreases s.len(),
{
    if s.len() > 0 {
        let p = digits_of(s.drop_last());
        lemma_so_digitos(s.drop_last());
        assert forall|i: int| 0 <= i < digits_of(s).len() implies crate::text::is_digit(
            #[trigger] digits_of(s)[i],
        ) by {
            if i < p.len() {
                assert(digits_of(s)[i] == p[i]);
            }
        }
    }
}

/// Reads the offset from UTC that a piece of a date writes.
fn fuso_da_parte(s: &str) -> (r: Option<i64>)
    ensures
        (match r {
            Some(n) => fuso_escrito(s@) == Some(n as int) && -362_340 <= n <= 362_340,
            None => fuso_escrito(s@) is None,
        }),
{
    if same(s, "Z") || same(s, "GMT") || same(s, "UTC") || same(s, "UT") {
        return Some(0);
    }
    let v = chars_of(s);
    if v.len() == 0 || !(v[0] == '+' || v[0] == '-') {
        return None;
    }
    let resto = slice_subrange(v.as_slice(), 1, v.len());
    assert(resto@ =~= s@.skip(1));
    let d = only_digits(resto);
    if d.len() != 4 {
        return None;
    }
    let a = slice_subrange(d.as_slice(), 0, 2);
    let b = slice_subrange(d.as_slice(), 2, 4);
    proof {
        lemma_so_digitos(s@.skip(1));
        assert(a@ =~= d@.take(2));
        assert(b@ =~= d@.skip(2));
        assert(all_digits(a@)) by {
            assert forall|i: int| 0 <= i < a@.len() implies crate::text::is_digit(
                #[trigger] a@[i],
            ) by {
                assert(a@[i] == d@[i]);
            }
        }
        assert(all_digits(b@)) by {
            assert forall|i: int| 0 <= i < b@.len() implies crate::text::is_digit(
                #[trigger] b@[i],
            ) by {
                assert(b@[i] == d@[i + 2]);
            }
        }
        lemma_valor_de_quatro(a@);
        lemma_valor_de_quatro(b@);
    }
    match (digits_upto(a, 99), digits_upto(b, 99)) {
        (Some(h), Some(m)) => {
            let n: i64 = (h as i64) * 3600 + (m as i64) * 60;
            if v[0] == '-' {
                Some(-n)
            } else {
                Some(n)
            }
        },
        _ => None,
    }
}

/// The offset of a date from UTC, in seconds.
///
/// Without it, items of feeds in different zones would sort wrong by up to a day. A zone by
/// name other than UTC counts as zero: a guess would be wrong without saying so.
fn fuso(ps: &Vec<String>) -> (r: i64)
    ensures
        r == fuso_de(views(ps@)),
        -362_340 <= r <= 362_340,
{
    let ghost all = views(ps@);
    let ghost f = |s: Seq<char>| fuso_escrito(s);
    proof {
        lemma_first_some(all, f, 0);
    }
    for i in 0..ps.len()
        invariant
            all == views(ps@),
            f == (|s: Seq<char>| fuso_escrito(s)),
            first_some(all.skip(i as int), f) == first_some(all, f),
    {
        proof {
            lemma_first_some(all, f, i as int);
        }
        match fuso_da_parte(ps[i].as_str()) {
            Some(n) => {
                return n;
            },
            None => {},
        }
    }
    proof {
        lemma_first_some(all, f, all.len() as int);
    }
    0
}

/// Reads a date by finding each field by its shape.
///
/// `Mon, 08 Sep 2026 14:22:00 -0300` and `Sep 07, 2026 12:17 GMT` are read alike. The day of
/// the week falls out by itself: no English abbreviation of one begins as a month does.
fn por_partes(texto: &str) -> (r: Option<u64>)
    ensures
        instante_em(r) == em_segundos(por_forma(texto@)),
{
    let ps = split_runs(texto, Cut::In(' ', ',', '\t'));
    let ghost all = views(ps@);
    let ghost fm = |s: Seq<char>| mes_nomeado(s);
    let ghost fa = |s: Seq<char>| ano_escrito(s);
    let ghost fd = |s: Seq<char>| dia_escrito(s);
    let ghost fh = |s: Seq<char>| hora_escrita(s);
    let mut mes: Option<u32> = None;
    let mut ano: Option<i32> = None;
    let mut dia: Option<u32> = None;
    let mut hora: Option<i128> = None;
    proof {
        lemma_first_some(all, fm, 0);
        lemma_first_some(all, fa, 0);
        lemma_first_some(all, fd, 0);
        lemma_first_some(all, fh, 0);
    }
    for i in 0..ps.len()
        invariant
            all == views(ps@),
            fm == (|s: Seq<char>| mes_nomeado(s)),
            fa == (|s: Seq<char>| ano_escrito(s)),
            fd == (|s: Seq<char>| dia_escrito(s)),
            fh == (|s: Seq<char>| hora_escrita(s)),
            first_some(all, fm) == (match mes {
                Some(m) => Some(m as int),
                None => first_some(all.skip(i as int), fm),
            }),
            first_some(all, fa) == (match ano {
                Some(a) => Some(a as int),
                None => first_some(all.skip(i as int), fa),
            }),
            first_some(all, fd) == (match dia {
                Some(d) => Some(d as int),
                None => first_some(all.skip(i as int), fd),
            }),
            first_some(all, fh) == (match hora {
                Some(h) => Some(h as int),
                None => first_some(all.skip(i as int), fh),
            }),
            mes is Some ==> 1 <= mes->0 <= 12,
            hora is Some ==> -0x1_0000_0000_0000_0000_0000 <= hora->0
                <= 0x1_0000_0000_0000_0000_0000,
    {
        proof {
            lemma_first_some(all, fm, i as int);
            lemma_first_some(all, fa, i as int);
            lemma_first_some(all, fd, i as int);
            lemma_first_some(all, fh, i as int);
        }
        let p = ps[i].as_str();
        if mes.is_none() {
            mes = mes_de(p);
        }
        if ano.is_none() {
            ano = ano_de(p);
        }
        if dia.is_none() {
            dia = dia_de(p);
        }
        if hora.is_none() {
            hora = hora_de(p);
        }
    }
    proof {
        lemma_first_some(all, fm, all.len() as int);
        lemma_first_some(all, fa, all.len() as int);
        lemma_first_some(all, fd, all.len() as int);
        lemma_first_some(all, fh, all.len() as int);
    }
    match (mes, ano, dia) {
        (Some(m), Some(a), Some(d)) => {
            let h: i128 = match hora {
                Some(h) => h,
                None => 0,
            };
            let n = dias_de(a, m, d);
            contar((n as i128) * 86400 + h - (fuso(&ps) as i128))
        },
        _ => None,
    }
}

/// The date of an item as an instant.
///
/// Feeds do not agree on a format, so ISO 8601, which is unambiguous, is tried first, and
/// the rest is read by the shape of its fields. A date that makes no sense is `None`, and the
/// item goes to the end of the list instead of pretending a place in it.
pub fn instante(texto: &str) -> (r: Option<u64>)
    ensures
        instante_em(r) == instante_de(texto@),
{
    let t = trim(texto);
    if t.as_str().is_empty() {
        return None;
    }
    match epoch_de_iso(t.as_str()) {
        Some(v) => Some(v),
        None => por_partes(t.as_str()),
    }
}

// --- tags ----------------------------------------------------------------------------------

/// A text with the basic entities undone, `&amp;` last: undone first, it would turn
/// `&amp;lt;` into `<`.
pub open spec fn sem_entidades(s: Seq<char>) -> Seq<char> {
    let s = replaced(s, "&lt;"@, "<"@);
    let s = replaced(s, "&gt;"@, ">"@);
    let s = replaced(s, "&quot;"@, "\""@);
    let s = replaced(s, "&#39;"@, "'"@);
    let s = replaced(s, "&apos;"@, "'"@);
    let s = replaced(s, "&nbsp;"@, " "@);
    replaced(s, "&amp;"@, "&"@)
}

/// Undoes the basic entities.
pub fn desfazer_entidades(texto: &str) -> (r: String)
    ensures
        r@ == sem_entidades(texto@),
{
    proof {
        reveal_strlit("&lt;");
        reveal_strlit("&gt;");
        reveal_strlit("&quot;");
        reveal_strlit("&#39;");
        reveal_strlit("&apos;");
        reveal_strlit("&nbsp;");
        reveal_strlit("&amp;");
    }
    let s = replace(texto, "&lt;", "<");
    let s = replace(s.as_str(), "&gt;", ">");
    let s = replace(s.as_str(), "&quot;", "\"");
    let s = replace(s.as_str(), "&#39;", "'");
    let s = replace(s.as_str(), "&apos;", "'");
    let s = replace(s.as_str(), "&nbsp;", " ");
    replace(s.as_str(), "&amp;", "&")
}

/// What stands inside a `CDATA` section, when the whole text is one; else the text.
pub open spec fn desembrulhado(s: Seq<char>) -> Seq<char> {
    match past(trimmed(s), "<![CDATA["@) {
        Some(x) => match upto(x, "]]>"@) {
            Some(y) => y,
            None => s,
        },
        None => s,
    }
}

/// What stands between `<nome ..>` and `</nome>`, the first time they occur.
pub open spec fn entre_tags(bloco: Seq<char>, nome: Seq<char>) -> Option<Seq<char>> {
    let abre = "<"@ + nome;
    let fecha = "</"@ + nome + ">"@;
    match found(bloco, abre, 0) {
        None => None,
        Some(i) => {
            let depois = bloco.skip(i + abre.len());
            let j = reach(depois, Cut::At('>')) as int;
            if j >= depois.len() {
                None
            } else {
                let corpo = depois.skip(j + 1);
                match found(corpo, fecha, 0) {
                    None => None,
                    Some(f) => Some(corpo.take(f)),
                }
            }
        },
    }
}

/// The content of a tag as it is read: out of its `CDATA`, trimmed, entities undone.
pub open spec fn conteudo(bloco: Seq<char>, nome: Seq<char>) -> Option<Seq<char>> {
    match entre_tags(bloco, nome) {
        Some(s) => Some(sem_entidades(trimmed(desembrulhado(s)))),
        None => None,
    }
}

/// Takes a text out of its `CDATA` section.
fn desembrulhar(s: &str) -> (r: String)
    ensures
        r@ == desembrulhado(s@),
{
    let t = trim(s);
    match strip_prefix(t.as_str(), "<![CDATA[") {
        Some(x) => match strip_suffix(x.as_str(), "]]>") {
            Some(y) => y,
            None => s.to_owned(),
        },
        None => s.to_owned(),
    }
}

/// The content of `<nome>..</nome>`.
fn tag(bloco: &str, nome: &str) -> (r: Option<String>)
    ensures
        maybe(r) == conteudo(bloco@, nome@),
{
    let v = chars_of(bloco);
    let mut abre = "<".to_owned();
    abre.append(nome);
    let abre = chars_of(abre.as_str());
    let mut fecha = "</".to_owned();
    fecha.append(nome);
    fecha.append(">");
    let fecha = chars_of(fecha.as_str());
    match find_from(v.as_slice(), abre.as_slice(), 0) {
        None => None,
        Some(i) => {
            let depois = slice_subrange(v.as_slice(), i + abre.len(), v.len());
            assert(depois@ =~= bloco@.skip(i + abre@.len()));
            assert(depois@.skip(0) =~= depois@);
            let j = reach_from(depois, 0, Cut::At('>'));
            if j >= depois.len() {
                return None;
            }
            let corpo = slice_subrange(depois, j + 1, depois.len());
            assert(corpo@ =~= depois@.skip(j + 1));
            match find_from(corpo, fecha.as_slice(), 0) {
                None => None,
                Some(f) => {
                    let bruto = text_of(slice_subrange(corpo, 0, f));
                    assert(bruto@ =~= corpo@.take(f as int));
                    let dentro = desembrulhar(bruto.as_str());
                    let limpo = trim(dentro.as_str());
                    Some(desfazer_entidades(limpo.as_str()))
                },
            }
        },
    }
}

/// The value of the first `nome=".."` in a block; nothing when there is none.
pub open spec fn valor_do_atributo(bloco: Seq<char>, nome: Seq<char>) -> Seq<char> {
    let alvo = nome + "=\""@;
    match found(bloco, alvo, 0) {
        None => Seq::empty(),
        Some(i) => {
            let resto = bloco.skip(i + alvo.len());
            let j = reach(resto, Cut::At('"')) as int;
            if j < resto.len() {
                resto.take(j)
            } else {
                Seq::empty()
            }
        },
    }
}

/// The value of the first `nome=".."` in a block.
fn atributo(bloco: &str, nome: &str) -> (r: String)
    ensures
        r@ == valor_do_atributo(bloco@, nome@),
{
    let v = chars_of(bloco);
    let mut alvo = nome.to_owned();
    alvo.append("=\"");
    let alvo = chars_of(alvo.as_str());
    match find_from(v.as_slice(), alvo.as_slice(), 0) {
        None => String::new(),
        Some(i) => {
            let resto = slice_subrange(v.as_slice(), i + alvo.len(), v.len());
            assert(resto@ =~= bloco@.skip(i + alvo@.len()));
            assert(resto@.skip(0) =~= resto@);
            let j = reach_from(resto, 0, Cut::At('"'));
            if j < resto.len() {
                let r = text_of(slice_subrange(resto, 0, j));
                assert(r@ =~= resto@.take(j as int));
                r
            } else {
                String::new()
            }
        },
    }
}

// --- HTML ----------------------------------------------------------------------------------

/// The end of the text is inside a tag: of its last angle bracket, it was the opening one.
pub open spec fn em_tag(s: Seq<char>) -> bool
    decreases s.len(),
{
    if s.len() == 0 {
        false
    } else if s.last() == '<' {
        true
    } else if s.last() == '>' {
        false
    } else {
        em_tag(s.drop_last())
    }
}

/// The characters outside tags, without the angle brackets.
pub open spec fn fora_das_tags(s: Seq<char>) -> Seq<char>
    decreases s.len(),
{
    if s.len() == 0 {
        s
    } else if s.last() == '<' || s.last() == '>' || em_tag(s.drop_last()) {
        fora_das_tags(s.drop_last())
    } else {
        fora_das_tags(s.drop_last()).push(s.last())
    }
}

/// The words outside tags, one space between each and the next.
pub open spec fn texto_visivel(s: Seq<char>) -> Seq<char> {
    crate::text::joined(words(fora_das_tags(s)), " "@)
}

/// A text without angle brackets.
pub open spec fn sem_sinais(s: Seq<char>) -> bool {
    forall|i: int| 0 <= i < s.len() ==> #[trigger] s[i] != '<' && s[i] != '>'
}

/// No angle bracket is outside tags.
proof fn lemma_fora(s: Seq<char>)
    ensures
        sem_sinais(fora_das_tags(s)),
    decreases s.len(),
{
    if s.len() > 0 {
        lemma_fora(s.drop_last());
    }
}

/// A text without angle brackets is outside tags from end to end.
proof fn lemma_sem_tags(s: Seq<char>)
    requires
        sem_sinais(s),
    ensures
        !em_tag(s),
        fora_das_tags(s) == s,
    decreases s.len(),
{
    if s.len() > 0 {
        let a = s.drop_last();
        assert forall|i: int| 0 <= i < a.len() implies #[trigger] a[i] != '<' && a[i] != '>' by {
            assert(a[i] == s[i]);
        }
        lemma_sem_tags(a);
        assert(s[s.len() - 1] != '<' && s[s.len() - 1] != '>');
        assert(a.push(s.last()) =~= s);
    }
}

/// A summary without its HTML has no angle bracket, no white space at either end, and none but
/// single spaces between its words; and taking the HTML out of it again changes nothing.
pub proof fn lemma_sem_html(s: Seq<char>)
    ensures
        sem_sinais(texto_visivel(s)),
        single_spaced(texto_visivel(s)),
        texto_visivel(texto_visivel(s)) == texto_visivel(s),
{
    let f = fora_das_tags(s);
    let ws = words(f);
    let r = texto_visivel(s);
    lemma_fora(s);
    lemma_words(f);
    lemma_join_spaces(ws);
    lemma_join_words(ws);
    assert forall|i: int| 0 <= i < r.len() implies #[trigger] r[i] != '<' && r[i] != '>' by {
        if r[i] != ' ' {
            let k = choose|k: int| 0 <= k < ws.len() && #[trigger] ws[k].contains(r[i]);
            let j = choose|j: int| 0 <= j < ws[k].len() && ws[k][j] == r[i];
            assert(f.contains(ws[k][j]));
        }
    }
    lemma_sem_tags(r);
}

/// Takes the HTML tags out of a summary.
pub fn sem_html(texto: &str) -> (r: String)
    ensures
        r@ == texto_visivel(texto@),
{
    let v = chars_of(texto);
    let mut saida = String::new();
    let mut dentro = false;
    assert(v@.take(0) =~= Seq::empty());
    for i in 0..v.len()
        invariant
            saida@ == fora_das_tags(v@.take(i as int)),
            dentro == em_tag(v@.take(i as int)),
    {
        assert(v@.take(i + 1).drop_last() =~= v@.take(i as int));
        let c = v[i];
        if c == '<' {
            dentro = true;
        } else if c == '>' {
            dentro = false;
        } else if !dentro {
            saida.push(c);
        }
    }
    assert(v@.take(v@.len() as int) =~= v@);
    let palavras = crate::text::split_words(saida.as_str());
    crate::text::join(palavras.as_slice(), " ")
}

// --- documents -----------------------------------------------------------------------------

/// An item, by the characters of its fields.
pub struct ItemLido {
    pub titulo: Seq<char>,
    pub link: Seq<char>,
    pub data: Seq<char>,
    pub resumo: Seq<char>,
    pub em: Option<int>,
}

impl Item {
    /// The item by the characters of its fields.
    pub open spec fn lido(self) -> ItemLido {
        ItemLido {
            titulo: self.titulo@,
            link: self.link@,
            data: self.data@,
            resumo: self.resumo@,
            em: instante_em(self.em),
        }
    }
}

/// The items by the characters of their fields.
pub open spec fn lidos(itens: Seq<Item>) -> Seq<ItemLido> {
    Seq::new(itens.len(), |i: int| itens[i].lido())
}

/// The first of two optional texts that is there, else nothing.
pub open spec fn ou(a: Option<Seq<char>>, b: Option<Seq<char>>) -> Option<Seq<char>> {
    match a {
        Some(_) => a,
        None => b,
    }
}

/// An optional text, or the empty one.
pub open spec fn ou_vazio(a: Option<Seq<char>>) -> Seq<char> {
    match a {
        Some(s) => s,
        None => Seq::empty(),
    }
}

/// The title of a block.
pub open spec fn titulo_de(bloco: Seq<char>) -> Seq<char> {
    ou_vazio(conteudo(bloco, "title"@))
}

/// The item that a block holds.
pub open spec fn item_de(bloco: Seq<char>) -> ItemLido {
    let data = ou_vazio(
        ou(
            ou(conteudo(bloco, "pubDate"@), conteudo(bloco, "updated"@)),
            conteudo(bloco, "published"@),
        ),
    );
    ItemLido {
        titulo: titulo_de(bloco),
        link: match conteudo(bloco, "link"@) {
            Some(s) => s,
            None => valor_do_atributo(bloco, "href"@),
        },
        data,
        resumo: ou_vazio(ou(conteudo(bloco, "description"@), conteudo(bloco, "summary"@))),
        em: instante_de(data),
    }
}

/// Where a block ends, counted from its opening.
pub open spec fn fim_do_bloco(b: Seq<char>) -> int {
    match found(b, "</item>"@, 0) {
        Some(i) => i,
        None => match found(b, "</entry>"@, 0) {
            Some(i) => i,
            None => b.len() as int,
        },
    }
}

/// The blocks of a document that begin with an opening, each up to where it ends.
pub open spec fn blocos(s: Seq<char>, abertura: Seq<char>) -> Seq<Seq<char>>
    decreases s.len(),
{
    match found(s, abertura, 0) {
        None => Seq::empty(),
        Some(i) => {
            let b = s.skip(i);
            let f = fim_do_bloco(b);
            if 0 <= i < s.len() && 0 < f <= b.len() {
                seq![b.take(f)] + blocos(b.skip(f), abertura)
            } else {
                Seq::empty()
            }
        },
    }
}

/// The items of a list of blocks: one for each block that has a title.
pub open spec fn itens_de(bs: Seq<Seq<char>>) -> Seq<ItemLido>
    decreases bs.len(),
{
    if bs.len() == 0 {
        Seq::empty()
    } else if titulo_de(bs.last()).len() == 0 {
        itens_de(bs.drop_last())
    } else {
        itens_de(bs.drop_last()).push(item_de(bs.last()))
    }
}

/// The first items of a list, as many as are kept.
pub open spec fn primeiros(itens: Seq<ItemLido>) -> Seq<ItemLido> {
    if itens.len() > MAX_ITENS {
        itens.take(MAX_ITENS as int)
    } else {
        itens
    }
}

/// The items of a feed: those of its `<item>` blocks, or of its `<entry>` blocks when it
/// has none of the others.
pub open spec fn itens_do_feed(s: Seq<char>) -> Seq<ItemLido> {
    let a = itens_de(blocos(s, "<item"@));
    if a.len() > 0 {
        primeiros(a)
    } else {
        primeiros(itens_de(blocos(s, "<entry"@)))
    }
}

/// Reads the item that a block holds.
fn ler_item(bloco: &str, titulo: String) -> (r: Item)
    requires
        titulo@ == titulo_de(bloco@),
    ensures
        r.lido() == item_de(bloco@),
{
    let data = match tag(bloco, "pubDate") {
        Some(d) => d,
        None => match tag(bloco, "updated") {
            Some(d) => d,
            None => match tag(bloco, "published") {
                Some(d) => d,
                None => String::new(),
            },
        },
    };
    let link = match tag(bloco, "link") {
        Some(l) => l,
        None => atributo(bloco, "href"),
    };
    let em = instante(data.as_str());
    let resumo = match tag(bloco, "description") {
        Some(d) => d,
        None => match tag(bloco, "summary") {
            Some(d) => d,
            None => String::new(),
        },
    };
    Item { titulo, link, data, resumo, em }
}

/// Finds where a block ends.
fn achar_fim(b: &[char]) -> (r: usize)
    ensures
        r == fim_do_bloco(b@),
        r <= b@.len(),
{
    let item = chars_of("</item>");
    let entry = chars_of("</entry>");
    match find_from(b, item.as_slice(), 0) {
        Some(i) => i,
        None => match find_from(b, entry.as_slice(), 0) {
            Some(i) => i,
            None => b.len(),
        },
    }
}

proof fn lemma_itens_juntos(a: Seq<Seq<char>>, b: Seq<Seq<char>>)
    ensures
        itens_de(a + b) == itens_de(a) + itens_de(b),
    decreases b.len(),
{
    if b.len() == 0 {
        assert(a + b =~= a);
        assert(itens_de(a) + itens_de(b) =~= itens_de(a));
    } else {
        assert((a + b).drop_last() =~= a + b.drop_last());
        lemma_itens_juntos(a, b.drop_last());
        assert(itens_de(a + b) =~= itens_de(a) + itens_de(b));
    }
}

/// A closing tag does not stand where an opening one does.
proof fn lemma_fim_depois_do_inicio(b: Seq<char>, abertura: Seq<char>)
    requires
        crate::text::occurs_at(b, abertura, 0),
        abertura == "<item"@ || abertura == "<entry"@,
    ensures
        0 < fim_do_bloco(b) <= b.len(),
{
    reveal_strlit("<item");
    reveal_strlit("<entry");
    reveal_strlit("</item>");
    reveal_strlit("</entry>");
    lemma_found(b, "</item>"@, 0);
    lemma_found(b, "</entry>"@, 0);
    let p = b.subrange(0, abertura.len() as int);
    assert(p[1] != '/');
    assert(b[1] == p[1]);
    assert(!crate::text::occurs_at(b, "</item>"@, 0)) by {
        if crate::text::occurs_at(b, "</item>"@, 0) {
            assert(b.subrange(0, 7)[1] == '/');
        }
    }
    assert(!crate::text::occurs_at(b, "</entry>"@, 0)) by {
        if crate::text::occurs_at(b, "</entry>"@, 0) {
            assert(b.subrange(0, 8)[1] == '/');
        }
    }
}

/// Reads the items of the blocks that begin with an opening, as many as are kept.
fn ler_blocos(texto: &str, abertura: &str) -> (r: Vec<Item>)
    requires
        abertura@ == "<item"@ || abertura@ == "<entry"@,
    ensures
        lidos(r@) == primeiros(itens_de(blocos(texto@, abertura@))),
        r@.len() <= MAX_ITENS,
{
    let v = chars_of(texto);
    let ab = chars_of(abertura);
    let mut itens: Vec<Item> = Vec::new();
    let mut at: usize = 0;
    let ghost todos = blocos(texto@, abertura@);
    let ghost mut feitos = Seq::<Seq<char>>::empty();
    proof {
        assert(v@.skip(0) =~= v@);
        assert(feitos + todos =~= todos);
        assert(lidos(itens@) =~= itens_de(feitos));
    }
    loop
        invariant_except_break
            itens@.len() < MAX_ITENS,
        invariant
            at <= v@.len(),
            v@ == texto@,
            ab@ == abertura@,
            abertura@ == "<item"@ || abertura@ == "<entry"@,
            todos == blocos(texto@, abertura@),
            todos == feitos + blocos(v@.skip(at as int), ab@),
            lidos(itens@) == itens_de(feitos),
            itens@.len() <= MAX_ITENS,
        ensures
            itens@.len() >= MAX_ITENS || feitos == todos,
        decreases v@.len() - at,
    {
        let resto = slice_subrange(v.as_slice(), at, v.len());
        assert(resto@ =~= v@.skip(at as int));
        match find_from(resto, ab.as_slice(), 0) {
            None => {
                assert(feitos =~= todos);
                break;
            },
            Some(i) => {
                let b = slice_subrange(resto, i, resto.len());
                proof {
                    assert(b@ =~= resto@.skip(i as int));
                    lemma_found(resto@, ab@, 0);
                    assert(b@.subrange(0, ab@.len() as int) =~= resto@.subrange(
                        i as int,
                        i + ab@.len(),
                    ));
                    lemma_fim_depois_do_inicio(b@, ab@);
                }
                let f = achar_fim(b);
                let bloco = text_of(slice_subrange(b, 0, f));
                assert(bloco@ =~= b@.take(f as int));
                let ghost antes = feitos;
                proof {
                    feitos = feitos.push(bloco@);
                    assert(feitos.drop_last() =~= antes);
                    assert(b@.skip(f as int) =~= v@.skip(at + i + f));
                    assert(todos =~= feitos + blocos(v@.skip(at + i + f), ab@));
                }
                let titulo = match tag(bloco.as_str(), "title") {
                    Some(t) => t,
                    None => String::new(),
                };
                if !titulo.as_str().is_empty() {
                    let item = ler_item(bloco.as_str(), titulo);
                    let ghost l = item.lido();
                    let ghost ate = lidos(itens@);
                    itens.push(item);
                    assert(lidos(itens@) =~= ate.push(l));
                }
                at = at + i + f;
                if itens.len() >= MAX_ITENS {
                    break;
                }
            },
        }
    }
    proof {
        let falta = blocos(v@.skip(at as int), ab@);
        lemma_itens_juntos(feitos, falta);
        if itens@.len() >= MAX_ITENS {
            assert(itens_de(todos).take(MAX_ITENS as int) =~= lidos(itens@));
        }
    }
    itens
}

/// Extracts the items of an RSS or Atom document.
pub fn parse(texto: &str) -> (r: Vec<Item>)
    ensures
        lidos(r@) == itens_do_feed(texto@),
        r@.len() <= MAX_ITENS,
{
    let itens = ler_blocos(texto, "<item");
    if itens.len() > 0 {
        return itens;
    }
    ler_blocos(texto, "<entry")
}

/// The months by their English names, however they go on and whatever the case.
pub proof fn lemma_mes_nomeado(s: Seq<char>)
    ensures
        begins(ascii_lower(s), "jan"@) ==> mes_nomeado(s) == Some(1int),
        begins(ascii_lower(s), "feb"@) ==> mes_nomeado(s) == Some(2int),
        begins(ascii_lower(s), "mar"@) ==> mes_nomeado(s) == Some(3int),
        begins(ascii_lower(s), "apr"@) ==> mes_nomeado(s) == Some(4int),
        begins(ascii_lower(s), "may"@) ==> mes_nomeado(s) == Some(5int),
        begins(ascii_lower(s), "jun"@) ==> mes_nomeado(s) == Some(6int),
        begins(ascii_lower(s), "jul"@) ==> mes_nomeado(s) == Some(7int),
        begins(ascii_lower(s), "aug"@) ==> mes_nomeado(s) == Some(8int),
        begins(ascii_lower(s), "sep"@) ==> mes_nomeado(s) == Some(9int),
        begins(ascii_lower(s), "oct"@) ==> mes_nomeado(s) == Some(10int),
        begins(ascii_lower(s), "nov"@) ==> mes_nomeado(s) == Some(11int),
        begins(ascii_lower(s), "dec"@) ==> mes_nomeado(s) == Some(12int),
        mes_nomeado(s) is Some ==> 1 <= mes_nomeado(s)->0 <= 12,
{
    reveal_strlit("jan");
    reveal_strlit("feb");
    reveal_strlit("mar");
    reveal_strlit("apr");
    reveal_strlit("may");
    reveal_strlit("jun");
    reveal_strlit("jul");
    reveal_strlit("aug");
    reveal_strlit("sep");
    reveal_strlit("oct");
    reveal_strlit("nov");
    reveal_strlit("dec");
    let b = ascii_lower(s);
    if b.len() >= 3 {
        let p = b.subrange(0, 3);
        assert(p[0] == b[0] && p[1] == b[1] && p[2] == b[2]);
        assert("jan"@[0] == 'j' && "jan"@[1] == 'a' && "jan"@[2] == 'n');
        assert("feb"@[0] == 'f');
        assert("mar"@[0] == 'm' && "mar"@[2] == 'r');
        assert("apr"@[0] == 'a' && "apr"@[1] == 'p');
        assert("may"@[0] == 'm' && "may"@[2] == 'y');
        assert("jun"@[0] == 'j' && "jun"@[1] == 'u' && "jun"@[2] == 'n');
        assert("jul"@[0] == 'j' && "jul"@[1] == 'u' && "jul"@[2] == 'l');
        assert("aug"@[0] == 'a' && "aug"@[1] == 'u');
        assert("sep"@[0] == 's');
        assert("oct"@[0] == 'o');
        assert("nov"@[0] == 'n');
        assert("dec"@[0] == 'd');
    }
}

/// A time of day: hours, minutes and seconds, in that order; what is not there counts as zero.
pub proof fn lemma_hora_escrita(h: Seq<char>, m: Seq<char>, s: Seq<char>)
    requires
        is_without(h, ':'),
        is_without(m, ':'),
        is_without(s, ':'),
    ensures
        hora_escrita(h + seq![':'] + m + seq![':'] + s) == Some(
            ou_zero(h) * 60 * 60 + ou_zero(m) * 60 + ou_zero(s),
        ),
        hora_escrita(h + seq![':'] + m) == Some(ou_zero(h) * 60 * 60 + ou_zero(m) * 60),
{
    crate::text::lemma_join_and_cut(seq![h, m, s], ':');
    crate::invest::tempo::lemma_joined_three(h, m, s, ':');
    let t = h + seq![':'] + m + seq![':'] + s;
    assert(t[h.len() as int] == ':');
    assert(t.contains(':'));
    crate::text::lemma_join_and_cut(seq![h, m], ':');
    reveal_with_fuel(crate::text::joined, 3);
    assert(seq![h, m].drop_last() =~= seq![h]);
    let u = h + seq![':'] + m;
    assert(crate::text::joined(seq![h, m], seq![':']) =~= u);
    assert(u[h.len() as int] == ':');
    assert(u.contains(':'));
}

/// A zone of four digits: hours and minutes ahead of the universal clock, behind it after a minus.
pub proof fn lemma_fuso_escrito(d: Seq<char>)
    requires
        d.len() == 4,
        all_digits(d),
    ensures
        fuso_escrito(seq!['+'] + d) == Some(
            (value(d.take(2)) * 60 * 60 + value(d.skip(2)) * 60) as int,
        ),
        fuso_escrito(seq!['-'] + d) == Some(
            -((value(d.take(2)) * 60 * 60 + value(d.skip(2)) * 60) as int),
        ),
        fuso_escrito("GMT"@) == Some(0int),
        fuso_escrito("UTC"@) == Some(0int),
        fuso_escrito("Z"@) == Some(0int),
{
    reveal_strlit("Z");
    reveal_strlit("GMT");
    reveal_strlit("UTC");
    reveal_strlit("UT");
    let a = seq!['+'] + d;
    let b = seq!['-'] + d;
    assert(a.skip(1) =~= d && b.skip(1) =~= d);
    lemma_todos_digitos(d);
    assert(a.len() == 5 && b.len() == 5);
    assert("Z"@.len() == 1 && "GMT"@.len() == 3 && "UTC"@.len() == 3 && "UT"@.len() == 2);
}

proof fn lemma_todos_digitos(d: Seq<char>)
    requires
        forall|i: int| 0 <= i < d.len() ==> is_digit(#[trigger] d[i]),
    ensures
        digits_of(d) == d,
    decreases d.len(),
{
    if d.len() > 0 {
        let w = d.drop_last();
        assert forall|i: int| 0 <= i < w.len() implies is_digit(#[trigger] w[i]) by {
            assert(w[i] == d[i]);
        }
        lemma_todos_digitos(w);
        assert(is_digit(d[d.len() - 1]));
        assert(w.push(d.last()) =~= d);
    }
}

/// The instant that a date tells, and the clock it was told on: the day and the time of day are
/// the instant moved by the zone, so further east is earlier.
pub proof fn lemma_por_forma(s: Seq<char>)
    ensures
        (match por_forma(s) {
            Some(t) => {
                let p = runs(s, Cut::In(' ', ',', '\t'));
                let m = first_some(p, |s: Seq<char>| mes_nomeado(s));
                let a = first_some(p, |s: Seq<char>| ano_escrito(s));
                let d = first_some(p, |s: Seq<char>| dia_escrito(s));
                let h = first_some(p, |s: Seq<char>| hora_escrita(s));
                &&& m is Some && a is Some && d is Some
                &&& h is Some ==> t + fuso_de(p) == dias(a->0, m->0, d->0) * 86400 + h->0
                &&& h is None ==> t + fuso_de(p) == dias(a->0, m->0, d->0) * 86400
            },
            None => true,
        }),
{
}

/// What stands between the tags of a name: right behind a tag that opens, up to the first that
/// closes.
pub proof fn lemma_entre_tags(bloco: Seq<char>, nome: Seq<char>)
    requires
        entre_tags(bloco, nome) is Some,
    ensures
        exists|i: int, j: int| #[trigger]
            occurs_at(bloco, "<"@ + nome, i) && #[trigger] occurs_at(
                bloco,
                entre_tags(bloco, nome)->0 + "</"@ + nome + ">"@,
                j,
            ) && i + 1 + nome.len() < j && bloco[j - 1] == '>',
        !holds(entre_tags(bloco, nome)->0, "</"@ + nome + ">"@),
{
    reveal_strlit("<");
    reveal_strlit("</");
    let abre = "<"@ + nome;
    let fecha = "</"@ + nome + ">"@;
    assert("<"@.len() == 1 && "</"@.len() == 2);
    lemma_found(bloco, abre, 0);
    let i = found(bloco, abre, 0)->0;
    let depois = bloco.skip(i + abre.len());
    let j = reach(depois, Cut::At('>')) as int;
    lemma_para_onde(depois, '>');
    let corpo = depois.skip(j + 1);
    lemma_found(corpo, fecha, 0);
    let f = found(corpo, fecha, 0)->0;
    let c = corpo.take(f);
    let k = i + abre.len() + j + 1;
    assert(entre_tags(bloco, nome) == Some(c));
    assert(bloco[k - 1] == depois[j]);
    let alvo = c + "</"@ + nome + ">"@;
    assert(alvo =~= c + fecha);
    assert(bloco.subrange(k, k + alvo.len()) =~= alvo) by {
        assert forall|x: int| 0 <= x < alvo.len() implies bloco[k + x] == alvo[x] by {
            assert(bloco[k + x] == corpo[x]);
            if x >= f {
                assert(corpo.subrange(f, f + fecha.len())[x - f] == fecha[x - f]);
            }
        }
    }
    assert(occurs_at(bloco, abre, i));
    assert(occurs_at(bloco, alvo, k));
    assert(bloco[k - 1] == '>');
    assert(i + 1 + nome.len() < k);
    assert(occurs_at(bloco, "<"@ + nome, i) && occurs_at(
        bloco,
        entre_tags(bloco, nome)->0 + "</"@ + nome + ">"@,
        k,
    ));
    if holds(c, fecha) {
        let x = choose|x: int| #[trigger] occurs_at(c, fecha, x);
        assert(corpo.subrange(x, x + fecha.len()) =~= c.subrange(x, x + fecha.len()));
        assert(occurs_at(corpo, fecha, x));
    }
}

proof fn lemma_para_onde(s: Seq<char>, c: char)
    ensures
        reach(s, Cut::At(c)) <= s.len(),
        reach(s, Cut::At(c)) < s.len() ==> s[reach(s, Cut::At(c)) as int] == c,
    decreases s.len(),
{
    if s.len() > 0 && s[0] != c {
        lemma_para_onde(s.skip(1), c);
    }
}

/// The items of a feed: those of its blocks that have a title, as they stood, each read from its
/// own block.
pub proof fn lemma_itens_de(bs: Seq<Seq<char>>)
    ensures
        itens_de(bs) == picked(
            bs,
            |b: Seq<char>|
                if titulo_de(b).len() > 0 {
                    Some(item_de(b))
                } else {
                    None
                },
        ),
    decreases bs.len(),
{
    if bs.len() > 0 {
        lemma_itens_de(bs.drop_last());
    }
}

/// Every block begins where one opens, and holds no tag that closes an item.
pub proof fn lemma_blocos(s: Seq<char>, abertura: Seq<char>)
    requires
        abertura.len() > 0,
        begins(abertura, "<i"@) || begins(abertura, "<e"@),
    ensures
        forall|i: int|
            0 <= i < blocos(s, abertura).len() ==> (#[trigger] blocos(s, abertura)[i]).len() > 0
                && blocos(s, abertura)[i][0] == abertura[0] && holds(s, blocos(s, abertura)[i])
                && !holds(blocos(s, abertura)[i], "</item>"@),
    decreases s.len(),
{
    lemma_found(s, abertura, 0);
    match found(s, abertura, 0) {
        None => {},
        Some(i) => {
            let b = s.skip(i);
            let f = fim_do_bloco(b);
            if 0 <= i < s.len() && 0 < f <= b.len() {
                let t = b.skip(f);
                lemma_blocos(t, abertura);
                lemma_found(b, "</item>"@, 0);
                let x = b.take(f);
                assert(s.subrange(i, i + abertura.len())[0] == abertura[0]);
                assert(x[0] == s[i]);
                assert(s.subrange(i, i + f) =~= x);
                assert(occurs_at(s, x, i));
                if holds(x, "</item>"@) {
                    let k = choose|k: int| #[trigger] occurs_at(x, "</item>"@, k);
                    assert(b.subrange(k, k + "</item>"@.len()) =~= x.subrange(
                        k,
                        k + "</item>"@.len(),
                    ));
                    assert(occurs_at(b, "</item>"@, k));
                    reveal_strlit("</item>");
                }
                let r = blocos(s, abertura);
                assert(r == seq![x] + blocos(t, abertura));
                assert forall|j: int| 0 <= j < r.len() implies (#[trigger] r[j]).len() > 0
                    && r[j][0] == abertura[0] && holds(s, r[j]) && !holds(r[j], "</item>"@) by {
                    if j > 0 {
                        let y = blocos(t, abertura)[j - 1];
                        assert(r[j] == y);
                        let k = choose|k: int| #[trigger] occurs_at(t, y, k);
                        assert(s.subrange(i + f + k, i + f + k + y.len()) =~= t.subrange(
                            k,
                            k + y.len(),
                        ));
                        assert(occurs_at(s, y, i + f + k));
                    }
                }
            }
        },
    }
}

proof fn lemma_sem_e(s: Seq<char>, pat: Seq<char>, with: Seq<char>)
    requires
        is_without(s, '&'),
        pat.len() > 0,
        pat[0] == '&',
    ensures
        replaced(s, pat, with) == s,
{
    lemma_found(s, pat, 0);
    match found(s, pat, 0) {
        Some(i) => {
            assert(s.subrange(i, i + pat.len())[0] == pat[0]);
            assert(s[i] == '&');
        },
        None => {},
    }
}

proof fn lemma_outra(a: Seq<char>, e: Seq<char>, b: Seq<char>, pat: Seq<char>, with: Seq<char>, d: int)
    requires
        is_without(a, '&'),
        is_without(b, '&'),
        e.len() > 0,
        is_without(e.skip(1), '&'),
        0 < d < e.len(),
        d < pat.len(),
        pat[0] == '&',
        e[d] != pat[d],
    ensures
        replaced(a + e + b, pat, with) == a + e + b,
{
    let s = a + e + b;
    lemma_found(s, pat, 0);
    match found(s, pat, 0) {
        Some(i) => {
            let x = s.subrange(i, i + pat.len());
            assert(x[0] == pat[0] && x[d] == pat[d]);
            assert(s[i] == '&' && s[i + d] == pat[d]);
            if i < a.len() {
                assert(s[i] == a[i]);
            } else if a.len() < i < a.len() + e.len() {
                assert(s[i] == e.skip(1)[i - a.len() - 1]);
            } else if i >= a.len() + e.len() {
                assert(s[i] == b[i - a.len() - e.len()]);
            }
            assert(i == a.len());
            assert(s[i + d] == e[d]);
        },
        None => {},
    }
}

proof fn lemma_onde(s: Seq<char>, a: Seq<char>, b: Seq<char>, pat: Seq<char>, from: int)
    requires
        s == a + pat + b,
        is_without(a, '&'),
        pat.len() > 0,
        pat[0] == '&',
        0 <= from <= a.len(),
    ensures
        found(s, pat, from) == Some(a.len() as int),
    decreases a.len() - from,
{
    let x = s.subrange(from, from + pat.len());
    if from < a.len() {
        assert(x[0] == a[from]);
        assert(!occurs_at(s, pat, from));
        lemma_onde(s, a, b, pat, from + 1);
    } else {
        assert(x =~= pat);
    }
}

proof fn lemma_esta(a: Seq<char>, b: Seq<char>, pat: Seq<char>, with: Seq<char>)
    requires
        is_without(a, '&'),
        is_without(b, '&'),
        pat.len() > 0,
        pat[0] == '&',
    ensures
        replaced(a + pat + b, pat, with) == a + with + b,
{
    let s = a + pat + b;
    let n = a.len() as int;
    lemma_onde(s, a, b, pat, 0);
    lemma_sem_e(b, pat, with);
    assert(s.take(n) =~= a);
    assert(s.skip(n + pat.len()) =~= b);
    assert(replaced(s, pat, with) == s.take(n) + with + replaced(
        s.skip(n + pat.len()),
        pat,
        with,
    ));
}

/// An entity in a text becomes the character that it stands for, and nothing else of the text
/// changes.
pub proof fn lemma_sem_entidades(a: Seq<char>, b: Seq<char>)
    requires
        is_without(a, '&'),
        is_without(b, '&'),
    ensures
        sem_entidades(a + b) == a + b,
        sem_entidades(a + "&lt;"@ + b) == a + seq!['<'] + b,
        sem_entidades(a + "&gt;"@ + b) == a + seq!['>'] + b,
        sem_entidades(a + "&quot;"@ + b) == a + seq!['"'] + b,
        sem_entidades(a + "&amp;"@ + b) == a + seq!['&'] + b,
{
    reveal_strlit("&lt;");
    reveal_strlit("&gt;");
    reveal_strlit("&quot;");
    reveal_strlit("&#39;");
    reveal_strlit("&apos;");
    reveal_strlit("&nbsp;");
    reveal_strlit("&amp;");
    reveal_strlit("<");
    reveal_strlit(">");
    reveal_strlit("\"");
    reveal_strlit("'");
    reveal_strlit(" ");
    reveal_strlit("&");
    assert("<"@ =~= seq!['<'] && ">"@ =~= seq!['>'] && "\""@ =~= seq!['"'] && "&"@ =~= seq!['&']);
    lemma_nenhuma(a + b);
    lemma_outra(a, "&gt;"@, b, "&lt;"@, "<"@, 1);
    lemma_outra(a, "&quot;"@, b, "&lt;"@, "<"@, 1);
    lemma_outra(a, "&quot;"@, b, "&gt;"@, ">"@, 1);
    lemma_outra(a, "&amp;"@, b, "&lt;"@, "<"@, 1);
    lemma_outra(a, "&amp;"@, b, "&gt;"@, ">"@, 1);
    lemma_outra(a, "&amp;"@, b, "&quot;"@, "\""@, 1);
    lemma_outra(a, "&amp;"@, b, "&#39;"@, "'"@, 1);
    lemma_outra(a, "&amp;"@, b, "&apos;"@, "'"@, 2);
    lemma_outra(a, "&amp;"@, b, "&nbsp;"@, " "@, 1);
    lemma_esta(a, b, "&lt;"@, "<"@);
    lemma_esta(a, b, "&gt;"@, ">"@);
    lemma_esta(a, b, "&quot;"@, "\""@);
    lemma_esta(a, b, "&amp;"@, "&"@);
    lemma_nenhuma(a + "<"@ + b);
    lemma_nenhuma(a + ">"@ + b);
    lemma_nenhuma(a + "\""@ + b);
}

/// A text without the sign that begins an entity has none to take out.
proof fn lemma_nenhuma(s: Seq<char>)
    requires
        is_without(s, '&'),
    ensures
        replaced(s, "&lt;"@, "<"@) == s,
        replaced(s, "&gt;"@, ">"@) == s,
        replaced(s, "&quot;"@, "\""@) == s,
        replaced(s, "&#39;"@, "'"@) == s,
        replaced(s, "&apos;"@, "'"@) == s,
        replaced(s, "&nbsp;"@, " "@) == s,
        replaced(s, "&amp;"@, "&"@) == s,
{
    reveal_strlit("&lt;");
    reveal_strlit("&gt;");
    reveal_strlit("&quot;");
    reveal_strlit("&#39;");
    reveal_strlit("&apos;");
    reveal_strlit("&nbsp;");
    reveal_strlit("&amp;");
    lemma_sem_e(s, "&lt;"@, "<"@);
    lemma_sem_e(s, "&gt;"@, ">"@);
    lemma_sem_e(s, "&quot;"@, "\""@);
    lemma_sem_e(s, "&#39;"@, "'"@);
    lemma_sem_e(s, "&apos;"@, "'"@);
    lemma_sem_e(s, "&nbsp;"@, " "@);
    lemma_sem_e(s, "&amp;"@, "&"@);
}

} // verus!
