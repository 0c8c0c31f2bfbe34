//! The tables of the screen: rows, details, and what each destructive key would do.

use vstd::prelude::*;
use crate::text::views;
use crate::monitor::mark::MarkColor;

pub mod charts;
pub mod connections;
pub mod container_tables;
pub mod containers;
pub mod iface;
pub mod ip;
pub mod mark;
pub mod netns;
pub mod owner;
pub mod panels;
pub mod ports;
pub mod process;
pub mod process_detail;
pub mod resolve;
pub mod ssh;
pub mod steal;
pub mod summary;
pub mod summary_detail;
pub mod temperature;

verus! {

/// A row of a table.
#[derive(Clone, Debug)]
pub struct TableRow {
    pub cells: Vec<String>,
    /// The process that this row stands for, 0 for none.
    pub pid: u32,
    /// How deep in the tree this row is; 0 for a root or a flat row.
    pub depth: usize,
    /// Whether this row is the last among its siblings.
    pub is_last_sibling: bool,
    /// For each ancestor, whether it was the last among its own siblings.
    pub guides: Vec<bool>,
    /// How many children this row has.
    pub child_count: usize,
    /// Every process below this row, its own left out.
    pub descendant_pids: Vec<u32>,
    /// What tells this row from others of the same process.
    pub key: String,
    /// The colour that a mark gives this row.
    pub mark: Option<MarkColor>,
}

/// A row without any place in a tree.
pub open spec fn is_leaf(r: TableRow, cells: Seq<Seq<char>>, pid: u32, key: Seq<char>) -> bool {
    &&& views(r.cells@) == cells
    &&& r.pid == pid
    &&& r.depth == 0
    &&& r.is_last_sibling
    &&& r.guides@.len() == 0
    &&& r.child_count == 0
    &&& r.descendant_pids@.len() == 0
    &&& r.key@ == key
    &&& r.mark is None
}

impl TableRow {
    /// A flat row: no depth, no children.
    pub fn leaf(cells: Vec<String>, pid: u32) -> (r: TableRow)
        ensures
            is_leaf(r, views(cells@), pid, Seq::empty()),
            r.cells == cells,
    {
        let r = TableRow {
            cells,
            pid,
            depth: 0,
            is_last_sibling: true,
            guides: Vec::new(),
            child_count: 0,
            descendant_pids: Vec::new(),
            key: String::new(),
            mark: None,
        };
        assert(r.key@ =~= Seq::empty());
        r
    }

    /// A flat row that is told from others by a key.
    pub fn keyed(cells: Vec<String>, pid: u32, key: String) -> (r: TableRow)
        ensures
            is_leaf(r, views(cells@), pid, key@),
            r.cells == cells,
    {
        TableRow {
            cells,
            pid,
            depth: 0,
            is_last_sibling: true,
            guides: Vec::new(),
            child_count: 0,
            descendant_pids: Vec::new(),
            key,
            mark: None,
        }
    }

    /// A row that shows the same.
    pub fn copied(&self) -> (r: TableRow)
        ensures
            same_row(r, *self),
    {
        let mut cells: Vec<String> = Vec::new();
        for i in 0..self.cells.len()
            invariant
                views(cells@) =~= views(self.cells@).take(i as int),
        {
            let ghost before = views(cells@);
            cells.push(self.cells[i].clone());
            assert(views(cells@) =~= before.push(views(self.cells@)[i as int]));
        }
        assert(views(cells@) =~= views(self.cells@));
        let mut guides: Vec<bool> = Vec::new();
        for i in 0..self.guides.len()
            invariant
                guides@ =~= self.guides@.take(i as int),
        {
            guides.push(self.guides[i]);
        }
        assert(guides@ =~= self.guides@);
        let mut below: Vec<u32> = Vec::new();
        for i in 0..self.descendant_pids.len()
            invariant
                below@ =~= self.descendant_pids@.take(i as int),
        {
            below.push(self.descendant_pids[i]);
        }
        assert(below@ =~= self.descendant_pids@);
        TableRow {
            cells,
            pid: self.pid,
            depth: self.depth,
            is_last_sibling: self.is_last_sibling,
            guides,
            child_count: self.child_count,
            descendant_pids: below,
            key: self.key.clone(),
            mark: self.mark,
        }
    }
}

/// Two rows show the same.
pub open spec fn same_row(a: TableRow, b: TableRow) -> bool {
    &&& views(a.cells@) == views(b.cells@)
    &&& a.pid == b.pid
    &&& a.depth == b.depth
    &&& a.is_last_sibling == b.is_last_sibling
    &&& a.guides@ == b.guides@
    &&& a.child_count == b.child_count
    &&& a.descendant_pids@ == b.descendant_pids@
    &&& a.key@ == b.key@
    &&& a.mark == b.mark
}

/// The fields of a detail, in contracts.
pub open spec fn fields_of(v: Seq<(String, String)>) -> Seq<(Seq<char>, Seq<char>)> {
    Seq::new(v.len(), |i: int| (v[i].0@, v[i].1@))
}

/// Fields with one more, unless its value is empty: a detail shows only what could be read.
pub open spec fn with_field(f: Seq<(Seq<char>, Seq<char>)>, label: Seq<char>, value: Seq<char>) -> Seq<
    (Seq<char>, Seq<char>),
> {
    if value.len() == 0 {
        f
    } else {
        f.push((label, value))
    }
}

/// Fields with one more, where there is a value for it.
pub open spec fn with_some(
    f: Seq<(Seq<char>, Seq<char>)>,
    label: Seq<char>,
    value: Option<Seq<char>>,
) -> Seq<(Seq<char>, Seq<char>)> {
    match value {
        Some(v) => with_field(f, label, v),
        None => f,
    }
}

/// Lines with one for each text, under one name.
pub open spec fn with_each(f: Seq<(Seq<char>, Seq<char>)>, label: Seq<char>, v: Seq<Seq<char>>) -> Seq<
    (Seq<char>, Seq<char>),
>
    decreases v.len(),
{
    if v.len() == 0 {
        f
    } else {
        with_field(with_each(f, label, v.drop_last()), label, v.last())
    }
}

/// A titled group of `label: value` lines.
#[derive(Debug)]
pub struct DetailSection {
    pub title: &'static str,
    pub fields: Vec<(String, String)>,
}

/// A group of lines, in contracts.
pub struct SectionV {
    pub title: Seq<char>,
    pub fields: Seq<(Seq<char>, Seq<char>)>,
}

impl View for DetailSection {
    type V = SectionV;

    open spec fn view(&self) -> SectionV {
        SectionV { title: self.title@, fields: fields_of(self.fields@) }
    }
}

/// Groups of lines, in contracts.
pub open spec fn sections_of(v: Seq<DetailSection>) -> Seq<SectionV> {
    Seq::new(v.len(), |i: int| v[i]@)
}

impl DetailSection {
    /// A group without any line.
    pub fn new(title: &'static str) -> (r: DetailSection)
        ensures
            r@.title == title@,
            r@.fields == Seq::<(Seq<char>, Seq<char>)>::empty(),
    {
        let r = DetailSection { title, fields: Vec::new() };
        assert(r@.fields =~= Seq::empty());
        r
    }

    /// Appends a line, unless its value is empty.
    pub fn push(&mut self, label: &str, value: String)
        ensures
            final(self)@.title == old(self)@.title,
            final(self)@.fields == with_field(old(self)@.fields, label@, value@),
    {
        if !value.as_str().is_empty() {
            let ghost f = fields_of(self.fields@);
            let ghost v = value@;
            self.fields.push((label.to_owned(), value));
            assert(fields_of(self.fields@) =~= f.push((label@, v)));
        }
    }

    /// Appends a line, where there is a value for it.
    pub fn push_some(&mut self, label: &str, value: Option<String>)
        ensures
            final(self)@.title == old(self)@.title,
            final(self)@.fields == with_some(
                old(self)@.fields,
                label@,
                crate::text::maybe(value),
            ),
    {
        match value {
            Some(v) => {
                self.push(label, v);
            },
            None => {},
        }
    }

    /// Appends a line for each text, all under one name.
    pub fn push_each(&mut self, label: &str, v: &Vec<String>)
        ensures
            final(self)@.title == old(self)@.title,
            final(self)@.fields == with_each(old(self)@.fields, label@, views(v@)),
    {
        let ghost f = self@.fields;
        let ghost vs = views(v@);
        assert(vs.take(0) =~= Seq::empty());
        for i in 0..v.len()
            invariant
                vs == views(v@),
                self@.title == old(self)@.title,
                self@.fields == with_each(f, label@, vs.take(i as int)),
        {
            assert(vs.take(i + 1).drop_last() =~= vs.take(i as int));
            self.push(label, v[i].clone());
        }
        assert(vs.take(vs.len() as int) =~= vs);
    }
}

/// The pair of byte rates that a detail draws: what they are rates of, and their values as bit
/// patterns of doubles.
#[derive(Debug)]
pub struct Rates {
    pub labels: (&'static str, &'static str),
    pub values: (u64, u64),
}

/// Work for another tool of the program, that a row suggests.
#[derive(Debug)]
pub struct Handoff {
    pub label: String,
    pub tool: &'static str,
    pub params: Vec<(&'static str, String)>,
}

/// Work for another tool, in contracts.
pub struct HandoffV {
    pub label: Seq<char>,
    pub tool: Seq<char>,
    pub params: Seq<(Seq<char>, Seq<char>)>,
}

impl View for Handoff {
    type V = HandoffV;

    open spec fn view(&self) -> HandoffV {
        HandoffV {
            label: self.label@,
            tool: self.tool@,
            params: Seq::new(
                self.params@.len(),
                |i: int| (self.params@[i].0@, self.params@[i].1@),
            ),
        }
    }
}

/// Offers, in contracts.
pub open spec fn offers_of(v: Seq<Handoff>) -> Seq<HandoffV> {
    Seq::new(v.len(), |i: int| v[i]@)
}

/// All that is known about a row.
#[derive(Debug)]
pub struct Detail {
    pub title: String,
    /// What the title gains once the subject is gone.
    pub gone_note: &'static str,
    pub sections: Vec<DetailSection>,
    pub rates: Option<Rates>,
    pub handoffs: Vec<Handoff>,
    pub handoff_title: &'static str,
}

/// What a destructive key would do, said before it does it.
#[derive(Debug)]
pub struct Danger {
    /// The verb for the footer.
    pub action: &'static str,
    /// The exact subject.
    pub title: String,
    /// What will happen, one consequence for each line.
    pub lines: Vec<String>,
}

} // verus!
