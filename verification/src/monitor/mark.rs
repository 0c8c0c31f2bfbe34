//! Marks: keeping an eye on something in a list that keeps reordering itself.
//!
//! What a mark can be about differs by table: a port is a number, a process is a command line,
//! a session is a person.

use vstd::prelude::*;
use crate::text::{
    chars_of, contains, contains_ci, holds, lowercase, runs, same, split_runs, trim, trimmed, views,
    Cut,
};
use crate::monitor::TableRow;

verus! {

/// One thing that a table can be asked to watch for: the cell that is looked at, and whether
/// it is compared as a number.
#[derive(Debug)]
pub struct MarkKind {
    pub name: &'static str,
    pub column: usize,
    pub numeric: bool,
    pub help: &'static str,
}

/// The colour of a mark.
#[derive(Clone, Copy, PartialEq, Eq, Debug, Structural)]
pub enum MarkColor {
    Amarelo,
    Verde,
    Ciano,
    Azul,
    Roxo,
    Laranja,
    Vermelho,
}

impl MarkColor {
    pub const ALL: [MarkColor; 7] = [
        MarkColor::Amarelo,
        MarkColor::Verde,
        MarkColor::Ciano,
        MarkColor::Azul,
        MarkColor::Roxo,
        MarkColor::Laranja,
        MarkColor::Vermelho,
    ];

    /// The name of a colour.
    pub fn label(self) -> (r: &'static str)
        ensures
            r@ == (match self {
                MarkColor::Amarelo => "amarelo"@,
                MarkColor::Verde => "verde"@,
                MarkColor::Ciano => "ciano"@,
                MarkColor::Azul => "azul"@,
                MarkColor::Roxo => "roxo"@,
                MarkColor::Laranja => "laranja"@,
                MarkColor::Vermelho => "vermelho"@,
            }),
    {
        match self {
            MarkColor::Amarelo => "amarelo",
            MarkColor::Verde => "verde",
            MarkColor::Ciano => "ciano",
            MarkColor::Azul => "azul",
            MarkColor::Roxo => "roxo",
            MarkColor::Laranja => "laranja",
            MarkColor::Vermelho => "vermelho",
        }
    }

    /// The place of a colour among all of them.
    pub open spec fn place(self) -> int {
        match self {
            MarkColor::Amarelo => 0,
            MarkColor::Verde => 1,
            MarkColor::Ciano => 2,
            MarkColor::Azul => 3,
            MarkColor::Roxo => 4,
            MarkColor::Laranja => 5,
            MarkColor::Vermelho => 6,
        }
    }

    /// The colour `delta` steps along, going around.
    pub fn cycled(self, delta: i32) -> (r: MarkColor)
        ensures
            r.place() == (self.place() + delta) % 7,
    {
        let index: i64 = match self {
            MarkColor::Amarelo => 0,
            MarkColor::Verde => 1,
            MarkColor::Ciano => 2,
            MarkColor::Azul => 3,
            MarkColor::Roxo => 4,
            MarkColor::Laranja => 5,
            MarkColor::Vermelho => 6,
        };
        // A multiple of 7 above 2^31 keeps the sum from going below zero.
        let at: i64 = (index + delta as i64 + 7_000_000_000) % 7;
        match at {
            0 => MarkColor::Amarelo,
            1 => MarkColor::Verde,
            2 => MarkColor::Ciano,
            3 => MarkColor::Azul,
            4 => MarkColor::Roxo,
            5 => MarkColor::Laranja,
            _ => MarkColor::Vermelho,
        }
    }
}

/// Going back as many steps as one went gives the colour one had.
pub proof fn lemma_cycled_back(a: MarkColor, b: MarkColor, c: MarkColor, delta: int)
    requires
        b.place() == (a.place() + delta) % 7,
        c.place() == (b.place() - delta) % 7,
    ensures
        c == a,
{
}

/// A mark: which table it is of, what it is about, how far it reaches and how it looks.
#[derive(Debug)]
pub struct Mark<T> {
    pub table: T,
    pub kind: T,
    pub value: T,
    /// Whether what is below a matching row is marked with it.
    pub subtree: bool,
    pub color: MarkColor,
}

impl View for Mark<String> {
    type V = Mark<Seq<char>>;

    open spec fn view(&self) -> Mark<Seq<char>> {
        Mark {
            table: self.table@,
            kind: self.kind@,
            value: self.value@,
            subtree: self.subtree,
            color: self.color,
        }
    }
}

impl Clone for Mark<String> {
    fn clone(&self) -> (r: Mark<String>)
        ensures
            r@ == self@,
    {
        Mark {
            table: self.table.clone(),
            kind: self.kind.clone(),
            value: self.value.clone(),
            subtree: self.subtree,
            color: self.color,
        }
    }
}

// --- matching --------------------------------------------------------------------------------

/// What the regular expression of a pattern says of a text: nothing when the pattern is not
/// one, otherwise whether it matches anywhere. `bits` is the size of a machine word, by which
/// the limit on the size of a compiled pattern is counted.
pub uninterp spec fn regex_says(bits: int, pattern: Seq<char>, text: Seq<char>) -> Option<bool>;

/// Asks a regular expression about a text.
///
/// `regex::Regex::new`, which gives an error for an invalid or too large pattern, and
/// `regex::Regex::is_match`, which says whether there is a match anywhere in the text. Claimed
/// is only that the answer is one of the pattern and the text alone, on machines of one word
/// size.
#[verifier::external_body]
fn ask_regex(pattern: &str, text: &str) -> (r: Option<bool>)
    ensures
        r == regex_says(usize::BITS as int, pattern@, text@),
{
    match regex::Regex::new(pattern) {
        Ok(compiled) => Some(compiled.is_match(text)),
        Err(_) => None,
    }
}

/// A character that only a regular expression would mean something by.
pub open spec fn is_pattern_char(c: char) -> bool {
    c == '^' || c == '$' || c == '*' || c == '+' || c == '?' || c == '[' || c == ']' || c == '('
        || c == ')' || c == '|' || c == '\\'
}

/// A text that looks like a regular expression.
pub open spec fn looks_like_pattern(s: Seq<char>) -> bool {
    exists|i: int| 0 <= i < s.len() && is_pattern_char(#[trigger] s[i])
}

/// Whether a text looks like a regular expression.
pub fn is_pattern(s: &str) -> (r: bool)
    ensures
        r == looks_like_pattern(s@),
{
    let v = chars_of(s);
    for i in 0..v.len()
        invariant
            v@ == s@,
            forall|j: int| 0 <= j < i ==> !is_pattern_char(#[trigger] v@[j]),
    {
        let c = v[i];
        if c == '^' || c == '$' || c == '*' || c == '+' || c == '?' || c == '[' || c == ']' || c
            == '(' || c == ')' || c == '|' || c == '\\' {
            assert(is_pattern_char(s@[i as int]));
            return true;
        }
    }
    false
}

/// A value matches a cell: as a regular expression when it looks like one and is one,
/// otherwise as a part of it, in either case.
pub open spec fn text_matches(said: Option<bool>, cell: Seq<char>, value: Seq<char>) -> bool {
    match said {
        Some(b) => if looks_like_pattern(value) {
            b
        } else {
            holds(lowercase(cell), lowercase(value))
        },
        None => holds(lowercase(cell), lowercase(value)),
    }
}

/// Whether a value matches a cell, given what its regular expression says of the cell.
pub fn decide(said: Option<bool>, cell: &str, value: &str) -> (r: bool)
    ensures
        r == text_matches(said, cell@, value@),
{
    match said {
        Some(b) => if is_pattern(value) {
            b
        } else {
            contains_ci(cell, value)
        },
        None => contains_ci(cell, value),
    }
}

/// A value matches a cell.
pub open spec fn cell_matches(cell: Seq<char>, value: Seq<char>) -> bool {
    text_matches(regex_says(usize::BITS as int, trimmed(value), cell), cell, trimmed(value))
}

/// Whether a value matches a cell.
pub fn matches_text(cell: &str, value: &str) -> (r: bool)
    ensures
        r == cell_matches(cell@, value@),
{
    let v = trim(value);
    let said = ask_regex(v.as_str(), cell);
    decide(said, cell, v.as_str())
}

/// Whether a number stands in a cell: as a run of digits of its own, not inside a longer one.
pub fn has_number(cell: &str, number: &str) -> (r: bool)
    ensures
        r == runs(cell@, Cut::NonDigit).contains(number@),
{
    let ns = split_runs(cell, Cut::NonDigit);
    for i in 0..ns.len()
        invariant
            views(ns@) == runs(cell@, Cut::NonDigit),
            forall|j: int| 0 <= j < i ==> #[trigger] views(ns@)[j] != number@,
    {
        assert(views(ns@)[i as int] == ns@[i as int]@);
        if same(ns[i].as_str(), number) {
            return true;
        }
    }
    false
}

/// The first kind with a name.
pub open spec fn kind_named(kinds: Seq<MarkKind>, name: Seq<char>) -> Option<MarkKind>
    decreases kinds.len(),
{
    if kinds.len() == 0 {
        None
    } else if kinds[0].name@ == name {
        Some(kinds[0])
    } else {
        kind_named(kinds.skip(1), name)
    }
}

/// A mark is about a row of a table.
pub open spec fn is_about(
    m: Mark<Seq<char>>,
    table: Seq<char>,
    kinds: Seq<MarkKind>,
    cells: Seq<Seq<char>>,
) -> bool {
    &&& m.table == table
    &&& trimmed(m.value).len() > 0
    &&& match kind_named(kinds, m.kind) {
        None => false,
        Some(k) => k.column < cells.len() && if k.numeric {
            runs(cells[k.column as int], Cut::NonDigit).contains(trimmed(m.value))
        } else {
            cell_matches(cells[k.column as int], m.value)
        },
    }
}

impl Mark<String> {
    /// Whether this mark is about a row of a table.
    pub fn matches(&self, table: &str, kinds: &[MarkKind], row: &TableRow) -> (r: bool)
        ensures
            r == is_about(self@, table@, kinds@, views(row.cells@)),
    {
        let v = trim(self.value.as_str());
        if !same(self.table.as_str(), table) || v.as_str().is_empty() {
            return false;
        }
        assert(kinds@.skip(0) =~= kinds@);
        let mut i: usize = 0;
        while i < kinds.len() && !same(kinds[i].name, self.kind.as_str())
            invariant
                i <= kinds@.len(),
                kind_named(kinds@.skip(i as int), self.kind@) == kind_named(kinds@, self.kind@),
            decreases kinds@.len() - i,
        {
            assert(kinds@.skip(i as int)[0] == kinds@[i as int]);
            assert(kinds@.skip(i as int).skip(1) =~= kinds@.skip(i + 1));
            i = i + 1;
        }
        if i == kinds.len() {
            return false;
        }
        assert(kinds@.skip(i as int)[0] == kinds@[i as int]);
        let kind = &kinds[i];
        if kind.column >= row.cells.len() {
            return false;
        }
        let cell = row.cells[kind.column].as_str();
        assert(views(row.cells@)[kind.column as int] == cell@);
        if kind.numeric {
            has_number(cell, v.as_str())
        } else {
            matches_text(cell, self.value.as_str())
        }
    }

    /// Whether two marks are about the same thing. Colour and reach are how a mark is shown,
    /// not what it is about.
    pub fn same_subject(&self, other: &Mark<String>) -> (r: bool)
        ensures
            r == one_subject(self@, other@),
    {
        same(self.table.as_str(), other.table.as_str()) && same(
            self.kind.as_str(),
            other.kind.as_str(),
        ) && same(self.value.as_str(), other.value.as_str())
    }
}

/// Two marks are about the same thing.
pub open spec fn one_subject(a: Mark<Seq<char>>, b: Mark<Seq<char>>) -> bool {
    a.table == b.table && a.kind == b.kind && a.value == b.value
}

/// What the marks say of a row: its colour, and whether what is below it is marked too.
#[derive(Clone, Copy, PartialEq, Eq, Debug, Structural)]
pub struct Hit {
    pub color: MarkColor,
    pub subtree: bool,
}

/// What marks say of a row: the colour is the first one's, and any of them may reach below.
pub open spec fn hit_of(
    ms: Seq<Mark<Seq<char>>>,
    table: Seq<char>,
    kinds: Seq<MarkKind>,
    cells: Seq<Seq<char>>,
) -> Option<Hit>
    decreases ms.len(),
{
    if ms.len() == 0 {
        None
    } else {
        let h = hit_of(ms.drop_last(), table, kinds, cells);
        let m = ms.last();
        if is_about(m, table, kinds, cells) {
            match h {
                Some(x) => Some(Hit { color: x.color, subtree: x.subtree || m.subtree }),
                None => Some(Hit { color: m.color, subtree: m.subtree }),
            }
        } else {
            h
        }
    }
}

// --- the list of marks -------------------------------------------------------------------------

/// Marks, in contracts.
pub open spec fn marks_of(v: Seq<Mark<String>>) -> Seq<Mark<Seq<char>>> {
    Seq::new(v.len(), |i: int| v[i]@)
}

/// Marks without those about the same thing as another.
pub open spec fn others(ms: Seq<Mark<Seq<char>>>, m: Mark<Seq<char>>) -> Seq<Mark<Seq<char>>>
    decreases ms.len(),
{
    if ms.len() == 0 {
        Seq::empty()
    } else if one_subject(ms.last(), m) {
        others(ms.drop_last(), m)
    } else {
        others(ms.drop_last(), m).push(ms.last())
    }
}

/// Marks without those that are about a row.
pub open spec fn unmarked(
    ms: Seq<Mark<Seq<char>>>,
    table: Seq<char>,
    kinds: Seq<MarkKind>,
    cells: Seq<Seq<char>>,
) -> Seq<Mark<Seq<char>>>
    decreases ms.len(),
{
    if ms.len() == 0 {
        Seq::empty()
    } else if is_about(ms.last(), table, kinds, cells) {
        unmarked(ms.drop_last(), table, kinds, cells)
    } else {
        unmarked(ms.drop_last(), table, kinds, cells).push(ms.last())
    }
}

/// No two marks are about the same thing.
pub open spec fn no_duplicates(ms: Seq<Mark<Seq<char>>>) -> bool {
    forall|i: int, j: int|
        0 <= i < j < ms.len() ==> !one_subject(#[trigger] ms[i], #[trigger] ms[j])
}

/// The colour that a row inherits: that of the first row above it whose mark reaches below.
pub open spec fn inherited(
    ms: Seq<Mark<Seq<char>>>,
    table: Seq<char>,
    kinds: Seq<MarkKind>,
    rows: Seq<TableRow>,
    pid: u32,
) -> Option<MarkColor>
    decreases rows.len(),
{
    if rows.len() == 0 {
        None
    } else {
        match hit_of(ms, table, kinds, views(rows[0].cells@)) {
            Some(h) => if h.subtree && rows[0].descendant_pids@.contains(pid) {
                Some(h.color)
            } else {
                inherited(ms, table, kinds, rows.skip(1), pid)
            },
            None => inherited(ms, table, kinds, rows.skip(1), pid),
        }
    }
}

/// The colour that a row of a sample wears: its own, or else the inherited one.
pub open spec fn color_of(
    ms: Seq<Mark<Seq<char>>>,
    table: Seq<char>,
    kinds: Seq<MarkKind>,
    rows: Seq<TableRow>,
    row: TableRow,
) -> Option<MarkColor> {
    match hit_of(ms, table, kinds, views(row.cells@)) {
        Some(h) => Some(h.color),
        None => if row.pid != 0 {
            inherited(ms, table, kinds, rows, row.pid)
        } else {
            None
        },
    }
}

/// The marks of this machine.
#[derive(Debug)]
pub struct Marks {
    pub all: Vec<Mark<String>>,
}

impl View for Marks {
    type V = Seq<Mark<Seq<char>>>;

    open spec fn view(&self) -> Seq<Mark<Seq<char>>> {
        marks_of(self.all@)
    }
}

impl Marks {
    /// No mark.
    pub fn none() -> (r: Marks)
        ensures
            r@ == Seq::<Mark<Seq<char>>>::empty(),
    {
        let r = Marks { all: Vec::new() };
        assert(r@ =~= Seq::empty());
        r
    }

    /// Every mark, in the order they were written.
    pub fn all(&self) -> (r: &Vec<Mark<String>>)
        ensures
            marks_of(r@) == self@,
    {
        &self.all
    }

    /// Adds a mark, in the place of any about the same thing.
    pub fn add(&mut self, mark: Mark<String>)
        ensures
            final(self)@ == others(old(self)@, mark@).push(mark@),
    {
        let ghost ms = self@;
        let mut kept: Vec<Mark<String>> = Vec::new();
        assert(ms.take(0) =~= Seq::empty());
        assert(marks_of(kept@) =~= Seq::empty());
        for i in 0..self.all.len()
            invariant
                ms == marks_of(self.all@),
                marks_of(kept@) == others(ms.take(i as int), mark@),
        {
            assert(ms.take(i + 1).drop_last() =~= ms.take(i as int));
            if !self.all[i].same_subject(&mark) {
                let ghost antes = marks_of(kept@);
                kept.push(self.all[i].clone());
                assert(marks_of(kept@) =~= antes.push(ms[i as int]));
            }
        }
        assert(ms.take(ms.len() as int) =~= ms);
        let ghost antes = marks_of(kept@);
        let ghost x = mark@;
        kept.push(mark);
        assert(marks_of(kept@) =~= antes.push(x));
        self.all = kept;
    }

    /// Rewrites the mark at a place. Any other that the edit has made a duplicate goes.
    pub fn replace(&mut self, index: usize, mark: Mark<String>)
        ensures
            final(self)@ == (if index < old(self)@.len() {
                others(old(self)@.take(index as int), mark@).push(mark@) + others(
                    old(self)@.skip(index + 1),
                    mark@,
                )
            } else {
                old(self)@
            }),
    {
        let ghost ms = self@;
        if index >= self.all.len() {
            return;
        }
        let mut kept: Vec<Mark<String>> = Vec::new();
        assert(ms.take(0) =~= Seq::empty());
        assert(marks_of(kept@) =~= Seq::empty());
        for i in 0..index
            invariant
                ms == marks_of(self.all@),
                index < self.all@.len(),
                marks_of(kept@) == others(ms.take(i as int), mark@),
        {
            assert(ms.take(i + 1).drop_last() =~= ms.take(i as int));
            if !self.all[i].same_subject(&mark) {
                let ghost antes = marks_of(kept@);
                kept.push(self.all[i].clone());
                assert(marks_of(kept@) =~= antes.push(ms[i as int]));
            }
        }
        let ghost first = marks_of(kept@).push(mark@);
        kept.push(mark.clone());
        assert(marks_of(kept@) =~= first);
        let ghost rest = ms.skip(index + 1);
        assert(rest.take(0) =~= Seq::empty());
        assert(first + Seq::<Mark<Seq<char>>>::empty() =~= first);
        for i in index + 1..self.all.len()
            invariant
                ms == marks_of(self.all@),
                index < self.all@.len(),
                rest == ms.skip(index + 1),
                marks_of(kept@) == first + others(rest.take(i - index - 1), mark@),
        {
            let ghost k = i - index - 1;
            assert(rest.take(k + 1).drop_last() =~= rest.take(k));
            assert(rest[k] == ms[i as int]);
            if !self.all[i].same_subject(&mark) {
                let ghost antes = marks_of(kept@);
                kept.push(self.all[i].clone());
                assert(marks_of(kept@) =~= antes.push(ms[i as int]));
                assert(first + others(rest.take(k + 1), mark@) =~= (first + others(
                    rest.take(k),
                    mark@,
                )).push(ms[i as int]));
            }
        }
        assert(rest.take(rest.len() as int) =~= rest);
        self.all = kept;
    }

    /// Drops the mark at a place.
    pub fn remove(&mut self, index: usize)
        ensures
            final(self)@ == (if index < old(self)@.len() {
                old(self)@.remove(index as int)
            } else {
                old(self)@
            }),
    {
        if index < self.all.len() {
            let ghost ms = self@;
            self.all.remove(index);
            assert(self@ =~= ms.remove(index as int));
        }
    }

    /// Drops every mark about a row. The result says whether any was.
    pub fn remove_matching(&mut self, table: &str, kinds: &[MarkKind], row: &TableRow) -> (r: bool)
        ensures
            final(self)@ == unmarked(old(self)@, table@, kinds@, views(row.cells@)),
            r == (final(self)@.len() != old(self)@.len()),
    {
        let ghost ms = self@;
        let ghost cells = views(row.cells@);
        let mut kept: Vec<Mark<String>> = Vec::new();
        assert(ms.take(0) =~= Seq::empty());
        assert(marks_of(kept@) =~= Seq::empty());
        for i in 0..self.all.len()
            invariant
                ms == marks_of(self.all@),
                cells == views(row.cells@),
                marks_of(kept@) == unmarked(ms.take(i as int), table@, kinds@, cells),
        {
            assert(ms.take(i + 1).drop_last() =~= ms.take(i as int));
            if !self.all[i].matches(table, kinds, row) {
                let ghost antes = marks_of(kept@);
                kept.push(self.all[i].clone());
                assert(marks_of(kept@) =~= antes.push(ms[i as int]));
            }
        }
        assert(ms.take(ms.len() as int) =~= ms);
        let changed = kept.len() != self.all.len();
        self.all = kept;
        changed
    }

    /// What the marks say of a row.
    pub fn hit(&self, table: &str, kinds: &[MarkKind], row: &TableRow) -> (r: Option<Hit>)
        ensures
            r == hit_of(self@, table@, kinds@, views(row.cells@)),
    {
        let ghost ms = self@;
        let ghost cells = views(row.cells@);
        let mut h: Option<Hit> = None;
        assert(ms.take(0) =~= Seq::empty());
        for i in 0..self.all.len()
            invariant
                ms == marks_of(self.all@),
                cells == views(row.cells@),
                h == hit_of(ms.take(i as int), table@, kinds@, cells),
        {
            assert(ms.take(i + 1).drop_last() =~= ms.take(i as int));
            let m = &self.all[i];
            if m.matches(table, kinds, row) {
                h = match h {
                    Some(x) => Some(Hit { color: x.color, subtree: x.subtree || m.subtree }),
                    None => Some(Hit { color: m.color, subtree: m.subtree }),
                };
            }
        }
        assert(ms.take(ms.len() as int) =~= ms);
        h
    }

    /// The colour that a row inherits.
    fn inherit(&self, table: &str, kinds: &[MarkKind], rows: &Vec<TableRow>, pid: u32) -> (r: Option<
        MarkColor,
    >)
        ensures
            r == inherited(self@, table@, kinds@, rows@, pid),
    {
        assert(rows@.skip(0) =~= rows@);
        for i in 0..rows.len()
            invariant
                inherited(self@, table@, kinds@, rows@.skip(i as int), pid) == inherited(
                    self@,
                    table@,
                    kinds@,
                    rows@,
                    pid,
                ),
        {
            assert(rows@.skip(i as int)[0] == rows@[i as int]);
            assert(rows@.skip(i as int).skip(1) =~= rows@.skip(i + 1));
            match self.hit(table, kinds, &rows[i]) {
                Some(h) => {
                    if h.subtree && has_pid(&rows[i].descendant_pids, pid) {
                        return Some(h.color);
                    }
                },
                None => {},
            }
        }
        None
    }

    /// Puts the marks on the rows of a sample: each row that one is about, and what is below
    /// one that reaches below, in its colour.
    pub fn apply(&self, table: &str, kinds: &[MarkKind], rows: &mut Vec<TableRow>)
        ensures
            final(rows)@.len() == old(rows)@.len(),
            forall|i: int|
                0 <= i < old(rows)@.len() ==> #[trigger] final(rows)@[i] == (TableRow {
                    mark: if self@.len() == 0 || kinds@.len() == 0 {
                        None
                    } else {
                        color_of(self@, table@, kinds@, old(rows)@, old(rows)@[i])
                    },
                    ..old(rows)@[i]
                }),
    {
        let bare = self.all.len() == 0 || kinds.len() == 0;
        let mut colors: Vec<Option<MarkColor>> = Vec::new();
        for i in 0..rows.len()
            invariant
                *rows == *old(rows),
                bare == (self@.len() == 0 || kinds@.len() == 0),
                colors@.len() == i,
                forall|k: int|
                    0 <= k < i ==> #[trigger] colors@[k] == (if bare {
                        None
                    } else {
                        color_of(self@, table@, kinds@, rows@, rows@[k])
                    }),
        {
            let c = if bare {
                None
            } else {
                match self.hit(table, kinds, &rows[i]) {
                    Some(h) => Some(h.color),
                    None => if rows[i].pid != 0 {
                        self.inherit(table, kinds, rows, rows[i].pid)
                    } else {
                        None
                    },
                }
            };
            colors.push(c);
        }
        let n: usize = rows.len();
        for i in 0..n
            invariant
                n == rows@.len(),
                rows@.len() == old(rows)@.len(),
                colors@.len() == rows@.len(),
                forall|k: int|
                    0 <= k < i ==> #[trigger] rows@[k] == (TableRow {
                        mark: colors@[k],
                        ..old(rows)@[k]
                    }),
                forall|k: int| i <= k < rows@.len() ==> #[trigger] rows@[k] == old(rows)@[k],
        {
            rows[i].mark = colors[i];
        }
    }
}

/// Whether a process is in a list.
fn has_pid(v: &Vec<u32>, pid: u32) -> (r: bool)
    ensures
        r == v@.contains(pid),
{
    for i in 0..v.len()
        invariant
            forall|j: int| 0 <= j < i ==> #[trigger] v@[j] != pid,
    {
        if v[i] == pid {
            return true;
        }
    }
    false
}

// --- laws of the list --------------------------------------------------------------------------

proof fn lemma_others(ms: Seq<Mark<Seq<char>>>, m: Mark<Seq<char>>)
    ensures
        forall|i: int| 0 <= i < others(ms, m).len() ==> !one_subject(#[trigger] others(ms, m)[i], m),
        forall|i: int|
            0 <= i < others(ms, m).len() ==> ms.contains(#[trigger] others(ms, m)[i]),
        forall|i: int|
            0 <= i < ms.len() && !one_subject(ms[i], m) ==> others(ms, m).contains(#[trigger] ms[i]),
        no_duplicates(ms) ==> no_duplicates(others(ms, m)),
    decreases ms.len(),
{
    if ms.len() > 0 {
        let a = ms.drop_last();
        lemma_others(a, m);
        let r = others(ms, m);
        let p = others(a, m);
        assert forall|i: int| 0 <= i < r.len() implies ms.contains(#[trigger] r[i]) by {
            if i < p.len() {
                assert(p[i] == r[i]);
                assert(a.contains(p[i]));
                let k = choose|k: int| 0 <= k < a.len() && a[k] == p[i];
                assert(ms[k] == r[i]);
            } else {
                assert(ms[ms.len() - 1] == r[i]);
            }
        }
        assert forall|i: int| 0 <= i < ms.len() && !one_subject(ms[i], m) implies r.contains(
            #[trigger] ms[i],
        ) by {
            if i < a.len() {
                assert(a[i] == ms[i]);
                assert(p.contains(a[i]));
                let k = choose|k: int| 0 <= k < p.len() && p[k] == a[i];
                assert(r[k] == ms[i]);
            } else {
                assert(r[r.len() - 1] == ms[i]);
            }
        }
        if no_duplicates(ms) {
            assert(no_duplicates(a)) by {
                assert forall|i: int, j: int| 0 <= i < j < a.len() implies !one_subject(
                    #[trigger] a[i],
                    #[trigger] a[j],
                ) by {
                    assert(!one_subject(ms[i], ms[j]));
                }
            }
            assert forall|i: int, j: int| 0 <= i < j < r.len() implies !one_subject(
                #[trigger] r[i],
                #[trigger] r[j],
            ) by {
                if j < p.len() {
                    assert(!one_subject(p[i], p[j]));
                } else {
                    assert(a.contains(p[i]));
                    let k = choose|k: int| 0 <= k < a.len() && a[k] == p[i];
                    assert(!one_subject(ms[k], ms[ms.len() - 1]));
                }
            }
        }
    }
}

/// Adding a mark keeps one mark for each subject; the new one is the last, and those about
/// other things stay.
pub proof fn lemma_add(ms: Seq<Mark<Seq<char>>>, m: Mark<Seq<char>>, o: Mark<Seq<char>>)
    requires
        no_duplicates(ms),
    ensures
        ({
            let r = others(ms, m).push(m);
            &&& no_duplicates(r)
            &&& r.last() == m
            &&& !one_subject(o, m) ==> (r.contains(o) <==> ms.contains(o))
        }),
{
    lemma_others(ms, m);
    let p = others(ms, m);
    let r = p.push(m);
    assert forall|i: int, j: int| 0 <= i < j < r.len() implies !one_subject(
        #[trigger] r[i],
        #[trigger] r[j],
    ) by {
        assert(r[i] == p[i]);
        if j < p.len() {
            assert(!one_subject(p[i], p[j]));
        }
    }
    if !one_subject(o, m) {
        if r.contains(o) {
            let k = choose|k: int| 0 <= k < r.len() && r[k] == o;
            assert(p[k] == o);
        }
        if ms.contains(o) {
            let k = choose|k: int| 0 <= k < ms.len() && ms[k] == o;
            assert(p.contains(ms[k]));
            let l = choose|l: int| 0 <= l < p.len() && p[l] == o;
            assert(r[l] == o);
        }
    }
}

/// Adding the same mark twice is adding it once.
pub proof fn lemma_add_twice(ms: Seq<Mark<Seq<char>>>, m: Mark<Seq<char>>)
    ensures
        others(others(ms, m).push(m), m).push(m) == others(ms, m).push(m),
{
    lemma_others(ms, m);
    let p = others(ms, m);
    assert(p.push(m).drop_last() =~= p);
    lemma_others_of_others(p, m);
}

proof fn lemma_others_of_others(p: Seq<Mark<Seq<char>>>, m: Mark<Seq<char>>)
    requires
        forall|i: int| 0 <= i < p.len() ==> !one_subject(#[trigger] p[i], m),
    ensures
        others(p, m) == p,
    decreases p.len(),
{
    if p.len() > 0 {
        let a = p.drop_last();
        assert forall|i: int| 0 <= i < a.len() implies !one_subject(#[trigger] a[i], m) by {
            assert(a[i] == p[i]);
        }
        lemma_others_of_others(a, m);
        assert(!one_subject(p[p.len() - 1], m));
        assert(a.push(p.last()) =~= p);
    } else {
        assert(others(p, m) =~= p);
    }
}

/// A list that is edited in place does not grow, and the edited mark stands among those that
/// are left, before the ones that stood after it.
pub proof fn lemma_replace(ms: Seq<Mark<Seq<char>>>, index: int, m: Mark<Seq<char>>)
    requires
        0 <= index < ms.len(),
    ensures
        ({
            let r = others(ms.take(index), m).push(m) + others(ms.skip(index + 1), m);
            &&& r.len() <= ms.len()
            &&& r[others(ms.take(index), m).len() as int] == m
            &&& others(ms.take(index), m).len() <= index
        }),
{
    lemma_others_len(ms.take(index), m);
    lemma_others_len(ms.skip(index + 1), m);
}

proof fn lemma_others_len(ms: Seq<Mark<Seq<char>>>, m: Mark<Seq<char>>)
    ensures
        others(ms, m).len() <= ms.len(),
    decreases ms.len(),
{
    if ms.len() > 0 {
        lemma_others_len(ms.drop_last(), m);
    }
}

/// After the marks about a row are dropped, none says anything of it.
pub proof fn lemma_unmarked(
    ms: Seq<Mark<Seq<char>>>,
    table: Seq<char>,
    kinds: Seq<MarkKind>,
    cells: Seq<Seq<char>>,
)
    ensures
        hit_of(unmarked(ms, table, kinds, cells), table, kinds, cells) is None,
    decreases ms.len(),
{
    if ms.len() > 0 {
        lemma_unmarked(ms.drop_last(), table, kinds, cells);
        let p = unmarked(ms.drop_last(), table, kinds, cells);
        if !is_about(ms.last(), table, kinds, cells) {
            assert(p.push(ms.last()).drop_last() =~= p);
        }
    }
}

/// A mark of another table says nothing, however well it matches.
pub proof fn lemma_other_table(
    m: Mark<Seq<char>>,
    table: Seq<char>,
    kinds: Seq<MarkKind>,
    cells: Seq<Seq<char>>,
)
    requires
        m.table != table,
    ensures
        !is_about(m, table, kinds, cells),
{
}

/// The color of a row that is marked is that of the first mark about it, and what is below it is
/// marked with it where any mark about it says so.
pub proof fn lemma_hit_of(
    ms: Seq<Mark<Seq<char>>>,
    table: Seq<char>,
    kinds: Seq<MarkKind>,
    cells: Seq<Seq<char>>,
)
    ensures
        (match hit_of(ms, table, kinds, cells) {
            Some(h) => {
                &&& exists|k: int|
                    0 <= k < ms.len() && is_about(#[trigger] ms[k], table, kinds, cells) && h.color
                        == ms[k].color && forall|j: int|
                        0 <= j < k ==> !is_about(#[trigger] ms[j], table, kinds, cells)
                &&& h.subtree <==> exists|k: int|
                    0 <= k < ms.len() && is_about(#[trigger] ms[k], table, kinds, cells)
                        && ms[k].subtree
            },
            None => forall|k: int|
                0 <= k < ms.len() ==> !is_about(#[trigger] ms[k], table, kinds, cells),
        }),
    decreases ms.len(),
{
    if ms.len() > 0 {
        let w = ms.drop_last();
        let m = ms.last();
        lemma_hit_of(w, table, kinds, cells);
        assert(ms[ms.len() - 1] == m);
        assert forall|k: int| 0 <= k < w.len() implies #[trigger] ms[k] == w[k] by {}
        match hit_of(w, table, kinds, cells) {
            Some(h) => {
                let k = choose|k: int|
                    0 <= k < w.len() && is_about(#[trigger] w[k], table, kinds, cells) && h.color
                        == w[k].color && forall|j: int|
                        0 <= j < k ==> !is_about(#[trigger] w[j], table, kinds, cells);
                assert(ms[k] == w[k]);
                assert forall|j: int| 0 <= j < k implies !is_about(
                    #[trigger] ms[j],
                    table,
                    kinds,
                    cells,
                ) by {
                    assert(w[j] == ms[j]);
                }
                if h.subtree {
                    let s = choose|s: int|
                        0 <= s < w.len() && is_about(#[trigger] w[s], table, kinds, cells)
                            && w[s].subtree;
                    assert(ms[s] == w[s]);
                }
                let r = hit_of(ms, table, kinds, cells)->0;
                if exists|s: int|
                    0 <= s < ms.len() && is_about(#[trigger] ms[s], table, kinds, cells)
                        && ms[s].subtree {
                    let s = choose|s: int|
                        0 <= s < ms.len() && is_about(#[trigger] ms[s], table, kinds, cells)
                            && ms[s].subtree;
                    if s < w.len() {
                        assert(w[s] == ms[s]);
                    }
                    assert(r.subtree);
                }
            },
            None => {
                assert forall|j: int| 0 <= j < w.len() implies !is_about(
                    #[trigger] ms[j],
                    table,
                    kinds,
                    cells,
                ) by {
                    assert(w[j] == ms[j]);
                }
                if is_about(m, table, kinds, cells) {
                    assert(is_about(ms[ms.len() - 1], table, kinds, cells));
                }
            },
        }
    }
}

/// A row that no mark is about takes its color from a row above it whose mark reaches what is
/// below: it is one that lists the row's process, and the first such.
pub proof fn lemma_inherited(
    ms: Seq<Mark<Seq<char>>>,
    table: Seq<char>,
    kinds: Seq<MarkKind>,
    rows: Seq<TableRow>,
    pid: u32,
)
    ensures
        ({
            let reaches = |r: TableRow|
                {
                    let h = hit_of(ms, table, kinds, views(r.cells@));
                    h is Some && h->0.subtree && r.descendant_pids@.contains(pid)
                };
            match inherited(ms, table, kinds, rows, pid) {
                Some(c) => exists|k: int|
                    0 <= k < rows.len() && reaches(#[trigger] rows[k]) && hit_of(
                        ms,
                        table,
                        kinds,
                        views(rows[k].cells@),
                    )->0.color == c && forall|j: int| 0 <= j < k ==> !reaches(#[trigger] rows[j]),
                None => forall|k: int| 0 <= k < rows.len() ==> !reaches(#[trigger] rows[k]),
            }
        }),
    decreases rows.len(),
{
    let reaches = |r: TableRow|
        {
            let h = hit_of(ms, table, kinds, views(r.cells@));
            h is Some && h->0.subtree && r.descendant_pids@.contains(pid)
        };
    if rows.len() > 0 {
        let t = rows.skip(1);
        lemma_inherited(ms, table, kinds, t, pid);
        if reaches(rows[0]) {
            assert(reaches(rows[0]));
        } else {
            assert forall|j: int| 0 <= j < t.len() implies #[trigger] t[j] == rows[j + 1] by {}
            match inherited(ms, table, kinds, t, pid) {
                Some(c) => {
                    let k = choose|k: int|
                        0 <= k < t.len() && reaches(#[trigger] t[k]) && hit_of(
                            ms,
                            table,
                            kinds,
                            views(t[k].cells@),
                        )->0.color == c && forall|j: int|
                            0 <= j < k ==> !reaches(#[trigger] t[j]);
                    assert(rows[k + 1] == t[k]);
                    assert forall|j: int| 0 <= j < k + 1 implies !reaches(#[trigger] rows[j]) by {
                        if j > 0 {
                            assert(t[j - 1] == rows[j]);
                        }
                    }
                },
                None => {
                    assert forall|j: int| 0 <= j < rows.len() implies !reaches(
                        #[trigger] rows[j],
                    ) by {
                        if j > 0 {
                            assert(t[j - 1] == rows[j]);
                        }
                    }
                },
            }
        }
    }
}

/// Where a value is no pattern, a mark is about the cells that hold it, whatever the case of either.
pub proof fn lemma_plain_value(said: Option<bool>, cell: Seq<char>, value: Seq<char>)
    requires
        forall|i: int|
            0 <= i < value.len() ==> !seq!['^', '$', '*', '+', '?', '[', ']', '(', ')', '|', '\\'].contains(
                #[trigger] value[i],
            ),
    ensures
        text_matches(said, cell, value) <==> holds(lowercase(cell), lowercase(value)),
{
    let p = seq!['^', '$', '*', '+', '?', '[', ']', '(', ')', '|', '\\'];
    if looks_like_pattern(value) {
        let i = choose|i: int| 0 <= i < value.len() && is_pattern_char(#[trigger] value[i]);
        assert(p[0] == '^' && p[1] == '$' && p[2] == '*' && p[3] == '+' && p[4] == '?' && p[5] == '['
            && p[6] == ']' && p[7] == '(' && p[8] == ')' && p[9] == '|' && p[10] == '\\');
        assert(p.contains(value[i]));
    }
}

} // verus!
