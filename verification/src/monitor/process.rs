//! The processes that use the most: flat, or as a tree, and all that is known about one.

use vstd::prelude::*;
use crate::number::decimal;
use crate::order::{
    goes_before, is_order, lemma_order_distinct, lemma_order_exists, lemma_sorted, sorted_by,
    stable_order,
};
use crate::text::{lines, views};
use crate::monitor::{is_leaf, Danger, TableRow};
use crate::monitor::owner::{
    danger_lines, find_proc, kill_danger, lemma_place_of, place_of, victims, Proc,
};
use crate::monitor::ports::{capped, set_cell, with_cell};

verus! {

/// The headers of the table.
pub const HEADERS: [&'static str; 3] = ["Command", "Time", "Usage"];

// --- flat ------------------------------------------------------------------------------------------------

/// The cells of a process.
pub open spec fn cells_of(p: Proc) -> Seq<Seq<char>> {
    seq![p.command@, p.age@, p.usage@]
}

fn write_cells(p: &Proc) -> (r: Vec<String>)
    ensures
        views(r@) == cells_of(*p),
{
    let mut r: Vec<String> = Vec::new();
    r.push(p.command.clone());
    r.push(p.age.clone());
    r.push(p.usage.clone());
    assert(views(r@) =~= cells_of(*p));
    r
}

/// The places of the processes that are not threads.
pub open spec fn own(ps: Seq<Proc>, n: int) -> Seq<int>
    decreases n,
{
    if n <= 0 {
        Seq::empty()
    } else {
        let v = own(ps, n - 1);
        if ps[n - 1].thread {
            v
        } else {
            v.push(n - 1)
        }
    }
}

/// The places of processes, those that weigh the most first.
pub open spec fn by_weight(ps: Seq<Proc>, v: Seq<int>) -> Seq<int> {
    sorted_by(v, Seq::new(v.len(), |i: int| (-ps[v[i]].weight) as i128))
}

/// The places of the processes that are not threads.
fn own_places(ps: &Vec<Proc>) -> (r: Vec<usize>)
    ensures
        Seq::new(r@.len(), |i: int| r@[i] as int) == own(ps@, ps@.len() as int),
        forall|i: int| 0 <= i < r@.len() ==> #[trigger] r@[i] < ps@.len(),
{
    let mut r: Vec<usize> = Vec::new();
    for k in 0..ps.len()
        invariant
            Seq::new(r@.len(), |i: int| r@[i] as int) =~= own(ps@, k as int),
            forall|i: int| 0 <= i < r@.len() ==> #[trigger] r@[i] < k,
    {
        if !ps[k].thread {
            r.push(k);
        }
    }
    r
}

/// The processes that weigh the most by themselves, as flat rows.
pub fn build_flat_top(ps: &Vec<Proc>, limit: usize) -> (r: Vec<TableRow>)
    ensures
        ({
            let v = by_weight(ps@, own(ps@, ps@.len() as int));
            r@.len() == capped(v.len(), Some(limit)) && forall|i: int|
                0 <= i < r@.len() ==> is_leaf(
                    #[trigger] r@[i],
                    cells_of(ps@[v[i]]),
                    ps@[v[i]].pid,
                    Seq::empty(),
                )
        }),
{
    let places = own_places(ps);
    let ghost v = own(ps@, ps@.len() as int);
    let mut keys: Vec<i128> = Vec::new();
    for i in 0..places.len()
        invariant
            v == Seq::new(places@.len(), |i: int| places@[i] as int),
            forall|i: int| 0 <= i < places@.len() ==> #[trigger] places@[i] < ps@.len(),
            keys@ =~= Seq::new(i as nat, |k: int| (-ps@[v[k]].weight) as i128),
    {
        keys.push(-(ps[places[i]].weight as i128));
    }
    let o = stable_order(keys.as_slice());
    let ghost sorted = by_weight(ps@, v);
    proof {
        assert(keys@ =~= Seq::new(v.len(), |k: int| (-ps@[v[k]].weight) as i128));
        lemma_sorted(v, keys@, o@);
    }
    let n: usize = if limit < o.len() {
        limit
    } else {
        o.len()
    };
    let mut r: Vec<TableRow> = Vec::new();
    for i in 0..n
        invariant
            is_order(keys@, o@),
            keys@.len() == places@.len(),
            n <= o@.len(),
            v == Seq::new(places@.len(), |i: int| places@[i] as int),
            forall|i: int| 0 <= i < places@.len() ==> #[trigger] places@[i] < ps@.len(),
            sorted == Seq::new(v.len(), |i: int| v[o@[i] as int]),
            r@.len() == i,
            forall|k: int|
                0 <= k < i ==> is_leaf(
                    #[trigger] r@[k],
                    cells_of(ps@[sorted[k]]),
                    ps@[sorted[k]].pid,
                    Seq::empty(),
                ),
    {
        let p = &ps[places[o[i]]];
        assert(ps@[sorted[i as int]] == *p);
        r.push(TableRow::leaf(write_cells(p), p.pid));
    }
    r
}

// --- the tree --------------------------------------------------------------------------------------------

/// The parent of a process: the process with its parent's pid, threads left out.
pub open spec fn up(ps: Seq<Proc>, i: int) -> Option<int> {
    match ps[i].parent {
        None => None,
        Some(pid) => match place_of(ps, pid) {
            Some(j) => if ps[j].thread {
                None
            } else {
                Some(j)
            },
            None => None,
        },
    }
}

/// Within so many steps up from `q` stands `a`.
pub open spec fn above(ps: Seq<Proc>, a: int, q: int, steps: nat) -> bool
    decreases steps,
{
    a == q || (steps > 0 && match up(ps, q) {
        Some(p) => above(ps, a, p, (steps - 1) as nat),
        None => false,
    })
}

/// A process is in the subtree of another, or is that one.
pub open spec fn inside(ps: Seq<Proc>, a: int, q: int) -> bool {
    !ps[q].thread && above(ps, a, q, ps.len())
}

/// What a process and all below it weigh together, among the first `n`.
pub open spec fn weight_below(ps: Seq<Proc>, a: int, n: int) -> nat
    decreases n,
{
    if n <= 0 {
        0
    } else {
        weight_below(ps, a, n - 1) + (if inside(ps, a, n - 1) {
            ps[n - 1].weight as nat
        } else {
            0
        })
    }
}

/// The processes below one, among the first `n`.
pub open spec fn pids_below(ps: Seq<Proc>, a: int, n: int) -> Seq<u32>
    decreases n,
{
    if n <= 0 {
        Seq::empty()
    } else {
        let v = pids_below(ps, a, n - 1);
        if n - 1 != a && inside(ps, a, n - 1) {
            v.push(ps[n - 1].pid)
        } else {
            v
        }
    }
}

/// The children of a process among the first `n`; the roots where no process is given.
pub open spec fn children(ps: Seq<Proc>, a: Option<int>, n: int) -> Seq<int>
    decreases n,
{
    if n <= 0 {
        Seq::empty()
    } else {
        let v = children(ps, a, n - 1);
        if !ps[n - 1].thread && up(ps, n - 1) == a {
            v.push(n - 1)
        } else {
            v
        }
    }
}

/// Siblings in their order: those whose subtrees weigh the most first, equal ones by pid.
pub open spec fn ranked(ps: Seq<Proc>, v: Seq<int>) -> Seq<int> {
    let by_pid = sorted_by(v, Seq::new(v.len(), |i: int| ps[v[i]].pid as i128));
    sorted_by(
        by_pid,
        Seq::new(
            by_pid.len(),
            |i: int| (-(weight_below(ps, by_pid[i], ps.len() as int) as int)) as i128,
        ),
    )
}

/// The children of a process in their order; the roots where no process is given.
pub open spec fn kids(ps: Seq<Proc>, a: Option<int>) -> Seq<int> {
    ranked(ps, children(ps, a, ps.len() as int))
}

/// A row of the tree, in contracts.
pub struct Node {
    pub place: int,
    pub depth: nat,
    pub last: bool,
    pub guides: Seq<bool>,
}

/// The subtrees of the first `n` of some siblings, each before those that follow it.
pub open spec fn walk(
    ps: Seq<Proc>,
    siblings: Seq<int>,
    n: int,
    depth: nat,
    guides: Seq<bool>,
    levels: nat,
) -> Seq<Node>
    decreases levels, n,
{
    if n <= 0 || levels == 0 {
        Seq::empty()
    } else {
        let i = siblings[n - 1];
        let last = n == siblings.len();
        let k = kids(ps, Some(i));
        walk(ps, siblings, n - 1, depth, guides, levels).push(
            Node { place: i, depth, last, guides },
        ) + walk(ps, k, k.len() as int, depth + 1, guides.push(last), (levels - 1) as nat)
    }
}

/// The whole tree: each process before what is below it.
pub open spec fn tree(ps: Seq<Proc>) -> Seq<Node> {
    let roots = kids(ps, None);
    walk(ps, roots, roots.len() as int, 0, Seq::empty(), ps.len())
}

/// The row of a place in the tree.
pub open spec fn node_row(r: TableRow, ps: Seq<Proc>, n: Node) -> bool {
    &&& views(r.cells@) == cells_of(ps[n.place])
    &&& r.pid == ps[n.place].pid
    &&& r.depth == n.depth
    &&& r.is_last_sibling == n.last
    &&& r.guides@ == n.guides
    &&& r.child_count == kids(ps, Some(n.place)).len()
    &&& r.descendant_pids@ == pids_below(ps, n.place, ps.len() as int)
    &&& r.key@.len() == 0
    &&& r.mark is None
}

/// No more processes than there are pids.
pub open spec fn countable(ps: Seq<Proc>) -> bool {
    ps.len() <= 0x1_0000_0000
}

/// What the tree is built from: the parent of each process, and the weight of its subtree.
struct Frame {
    up: Vec<Option<usize>>,
    weight: Vec<i128>,
}

/// An optional place as a number.
pub open spec fn as_place(i: Option<usize>) -> Option<int> {
    match i {
        Some(k) => Some(k as int),
        None => None,
    }
}

impl Frame {
    spec fn of(self, ps: Seq<Proc>) -> bool {
        &&& self.up@.len() == ps.len()
        &&& self.weight@.len() == ps.len()
        &&& forall|i: int| 0 <= i < ps.len() ==> as_place(#[trigger] self.up@[i]) == up(ps, i)
        &&& forall|i: int|
            0 <= i < ps.len() ==> #[trigger] self.weight@[i] == weight_below(
                ps,
                i,
                ps.len() as int,
            )
    }
}

proof fn lemma_up(ps: Seq<Proc>, i: int)
    ensures
        up(ps, i) is Some ==> 0 <= up(ps, i)->0 < ps.len() && !ps[up(ps, i)->0].thread,
{
    match ps[i].parent {
        Some(pid) => {
            lemma_place_of(ps, pid);
        },
        None => {},
    }
}

fn find_parents(ps: &Vec<Proc>) -> (r: Vec<Option<usize>>)
    ensures
        r@.len() == ps@.len(),
        forall|i: int| 0 <= i < ps@.len() ==> as_place(#[trigger] r@[i]) == up(ps@, i),
{
    let mut r: Vec<Option<usize>> = Vec::new();
    for i in 0..ps.len()
        invariant
            r@.len() == i,
            forall|k: int| 0 <= k < i ==> as_place(#[trigger] r@[k]) == up(ps@, k),
    {
        let p = match ps[i].parent {
            None => None,
            Some(pid) => match find_proc(ps, pid) {
                Some(j) => if ps[j].thread {
                    None
                } else {
                    Some(j)
                },
                None => None,
            },
        };
        r.push(p);
    }
    r
}

/// Whether a process is in the subtree of another, or is that one.
fn is_inside(ps: &Vec<Proc>, ups: &Vec<Option<usize>>, a: usize, q: usize) -> (r: bool)
    requires
        ups@.len() == ps@.len(),
        forall|i: int| 0 <= i < ps@.len() ==> as_place(#[trigger] ups@[i]) == up(ps@, i),
        a < ps@.len(),
        q < ps@.len(),
    ensures
        r == inside(ps@, a as int, q as int),
{
    if ps[q].thread {
        return false;
    }
    let n: usize = ps.len();
    let mut left: usize = n;
    let mut at: usize = q;
    loop
        invariant
            ups@.len() == ps@.len(),
            forall|i: int| 0 <= i < ps@.len() ==> as_place(#[trigger] ups@[i]) == up(ps@, i),
            n == ps@.len(),
            at < n,
            left <= n,
            above(ps@, a as int, at as int, left as nat) == above(
                ps@,
                a as int,
                q as int,
                n as nat,
            ),
            !ps@[q as int].thread,
        decreases left,
    {
        if at == a {
            return true;
        }
        if left == 0 {
            return false;
        }
        proof {
            lemma_up(ps@, at as int);
        }
        assert(as_place(ups@[at as int]) == up(ps@, at as int));
        match ups[at] {
            Some(p) => {
                at = p;
                left = left - 1;
            },
            None => {
                return false;
            },
        }
    }
}

proof fn lemma_weight_bound(ps: Seq<Proc>, a: int, n: int)
    requires
        0 <= n,
    ensures
        weight_below(ps, a, n) <= n * 0xffff_ffff_ffff_ffff,
    decreases n,
{
    if n > 0 {
        lemma_weight_bound(ps, a, n - 1);
        assert((n - 1) * 0xffff_ffff_ffff_ffff + 0xffff_ffff_ffff_ffff == n
            * 0xffff_ffff_ffff_ffff) by (nonlinear_arith);
    }
}

fn weigh(ps: &Vec<Proc>, ups: &Vec<Option<usize>>, a: usize) -> (r: i128)
    requires
        countable(ps@),
        ups@.len() == ps@.len(),
        forall|i: int| 0 <= i < ps@.len() ==> as_place(#[trigger] ups@[i]) == up(ps@, i),
        a < ps@.len(),
    ensures
        r == weight_below(ps@, a as int, ps@.len() as int),
{
    let mut r: i128 = 0;
    for q in 0..ps.len()
        invariant
            countable(ps@),
            ups@.len() == ps@.len(),
            forall|i: int| 0 <= i < ps@.len() ==> as_place(#[trigger] ups@[i]) == up(ps@, i),
            a < ps@.len(),
            r == weight_below(ps@, a as int, q as int),
    {
        proof {
            lemma_weight_bound(ps@, a as int, q as int);
            assert(q * 0xffff_ffff_ffff_ffff <= 0x1_0000_0000 * 0xffff_ffff_ffff_ffff)
                by (nonlinear_arith)
                requires
                    q <= 0x1_0000_0000,
            ;
        }
        if is_inside(ps, ups, a, q) {
            r = r + ps[q].weight as i128;
        }
    }
    r
}

fn list_below(ps: &Vec<Proc>, ups: &Vec<Option<usize>>, a: usize) -> (r: Vec<u32>)
    requires
        ups@.len() == ps@.len(),
        forall|i: int| 0 <= i < ps@.len() ==> as_place(#[trigger] ups@[i]) == up(ps@, i),
        a < ps@.len(),
    ensures
        r@ == pids_below(ps@, a as int, ps@.len() as int),
{
    let mut r: Vec<u32> = Vec::new();
    for q in 0..ps.len()
        invariant
            ups@.len() == ps@.len(),
            forall|i: int| 0 <= i < ps@.len() ==> as_place(#[trigger] ups@[i]) == up(ps@, i),
            a < ps@.len(),
            r@ == pids_below(ps@, a as int, q as int),
    {
        if q != a && is_inside(ps, ups, a, q) {
            r.push(ps[q].pid);
        }
    }
    r
}

fn build_frame(ps: &Vec<Proc>) -> (r: Frame)
    requires
        countable(ps@),
    ensures
        r.of(ps@),
{
    let ups = find_parents(ps);
    let mut weight: Vec<i128> = Vec::new();
    for i in 0..ps.len()
        invariant
            countable(ps@),
            ups@.len() == ps@.len(),
            forall|i: int| 0 <= i < ps@.len() ==> as_place(#[trigger] ups@[i]) == up(ps@, i),
            weight@.len() == i,
            forall|k: int|
                0 <= k < i ==> #[trigger] weight@[k] == weight_below(ps@, k, ps@.len() as int),
    {
        weight.push(weigh(ps, &ups, i));
    }
    Frame { up: ups, weight }
}

/// Places as numbers.
pub open spec fn ints(v: Seq<usize>) -> Seq<int> {
    Seq::new(v.len(), |i: int| v[i] as int)
}

/// The children of a process in their order; the roots where no process is given.
fn list_kids(ps: &Vec<Proc>, f: &Frame, a: Option<usize>) -> (r: Vec<usize>)
    requires
        countable(ps@),
        f.of(ps@),
    ensures
        ints(r@) == kids(ps@, as_place(a)),
        forall|i: int|
            0 <= i < r@.len() ==> #[trigger] r@[i] < ps@.len() && !ps@[r@[i] as int].thread && up(
                ps@,
                r@[i] as int,
            ) == as_place(a),
{
    let ghost all = children(ps@, as_place(a), ps@.len() as int);
    let mut v: Vec<usize> = Vec::new();
    for i in 0..ps.len()
        invariant
            f.of(ps@),
            ints(v@) =~= children(ps@, as_place(a), i as int),
            forall|k: int|
                0 <= k < v@.len() ==> #[trigger] v@[k] < ps@.len() && !ps@[v@[k] as int].thread
                    && up(ps@, v@[k] as int) == as_place(a),
    {
        assert(as_place(f.up@[i as int]) == up(ps@, i as int));
        let mine = match (f.up[i], a) {
            (Some(x), Some(y)) => x == y,
            (None, None) => true,
            _ => false,
        };
        if !ps[i].thread && mine {
            v.push(i);
        }
    }
    let mut pids: Vec<i128> = Vec::new();
    for i in 0..v.len()
        invariant
            all == ints(v@),
            forall|k: int| 0 <= k < v@.len() ==> #[trigger] v@[k] < ps@.len(),
            pids@ =~= Seq::new(i as nat, |k: int| ps@[all[k]].pid as i128),
    {
        pids.push(ps[v[i]].pid as i128);
    }
    let o = stable_order(pids.as_slice());
    let ghost by_pid = sorted_by(all, pids@);
    proof {
        assert(pids@ =~= Seq::new(all.len(), |k: int| ps@[all[k]].pid as i128));
        lemma_sorted(all, pids@, o@);
    }
    let mut keys: Vec<i128> = Vec::new();
    for i in 0..o.len()
        invariant
            f.of(ps@),
            countable(ps@),
            is_order(pids@, o@),
            pids@.len() == v@.len(),
            all == ints(v@),
            forall|k: int| 0 <= k < v@.len() ==> #[trigger] v@[k] < ps@.len(),
            by_pid == Seq::new(all.len(), |k: int| all[o@[k] as int]),
            keys@ =~= Seq::new(
                i as nat,
                |k: int| (-(weight_below(ps@, by_pid[k], ps@.len() as int) as int)) as i128,
            ),
    {
        let w: i128 = f.weight[v[o[i]]];
        proof {
            let b = by_pid[i as int];
            assert(b == v@[o@[i as int] as int]);
            assert(w == weight_below(ps@, b, ps@.len() as int));
            lemma_weight_bound(ps@, b, ps@.len() as int);
            assert(ps@.len() * 0xffff_ffff_ffff_ffff <= 0x1_0000_0000 * 0xffff_ffff_ffff_ffff)
                by (nonlinear_arith)
                requires
                    ps@.len() <= 0x1_0000_0000,
            ;
        }
        keys.push(-w);
    }
    let q = stable_order(keys.as_slice());
    proof {
        assert(keys@ =~= Seq::new(
            by_pid.len(),
            |k: int| (-(weight_below(ps@, by_pid[k], ps@.len() as int) as int)) as i128,
        ));
        lemma_sorted(by_pid, keys@, q@);
    }
    let mut r: Vec<usize> = Vec::new();
    for i in 0..q.len()
        invariant
            is_order(pids@, o@),
            is_order(keys@, q@),
            pids@.len() == v@.len(),
            keys@.len() == v@.len(),
            all == ints(v@),
            forall|k: int|
                0 <= k < v@.len() ==> #[trigger] v@[k] < ps@.len() && !ps@[v@[k] as int].thread
                    && up(ps@, v@[k] as int) == as_place(a),
            by_pid == Seq::new(all.len(), |k: int| all[o@[k] as int]),
            ints(r@) =~= Seq::new(i as nat, |k: int| by_pid[q@[k] as int]),
            forall|k: int|
                0 <= k < r@.len() ==> #[trigger] r@[k] < ps@.len() && !ps@[r@[k] as int].thread
                    && up(ps@, r@[k] as int) == as_place(a),
    {
        let x: usize = v[o[q[i]]];
        let ghost before = ints(r@);
        r.push(x);
        assert(ints(r@) =~= before.push(by_pid[q@[i as int] as int]));
    }
    assert(ints(r@) =~= kids(ps@, as_place(a)));
    r
}

/// Rows of the tree, each for its place.
pub open spec fn rows_of(rows: Seq<TableRow>, ps: Seq<Proc>, nodes: Seq<Node>) -> bool {
    rows.len() == nodes.len() && forall|i: int|
        0 <= i < rows.len() ==> node_row(#[trigger] rows[i], ps, nodes[i])
}

fn copy_guides(v: &Vec<bool>) -> (r: Vec<bool>)
    ensures
        r@ == v@,
{
    let mut r: Vec<bool> = Vec::new();
    for i in 0..v.len()
        invariant
            r@ =~= v@.take(i as int),
    {
        r.push(v[i]);
    }
    assert(r@ =~= v@);
    r
}

/// Writes the subtrees of some siblings.
fn flatten(
    ps: &Vec<Proc>,
    f: &Frame,
    siblings: &Vec<usize>,
    depth: usize,
    guides: &Vec<bool>,
    levels: usize,
    out: &mut Vec<TableRow>,
    Ghost(done): Ghost<Seq<Node>>,
)
    requires
        countable(ps@),
        f.of(ps@),
        forall|i: int| 0 <= i < siblings@.len() ==> #[trigger] siblings@[i] < ps@.len(),
        depth + levels <= ps.len(),
        rows_of(old(out)@, ps@, done),
    ensures
        rows_of(
            final(out)@,
            ps@,
            done + walk(
                ps@,
                ints(siblings@),
                siblings@.len() as int,
                depth as nat,
                guides@,
                levels as nat,
            ),
        ),
    decreases levels,
{
    let ghost s = ints(siblings@);
    let n: usize = siblings.len();
    if levels == 0 {
        assert(done + walk(ps@, s, n as int, depth as nat, guides@, 0) =~= done);
        return;
    }
    proof {
        assert(done + walk(ps@, s, 0, depth as nat, guides@, levels as nat) =~= done);
    }
    for i in 0..n
        invariant
            countable(ps@),
            f.of(ps@),
            n == siblings@.len(),
            s == ints(siblings@),
            forall|i: int| 0 <= i < siblings@.len() ==> #[trigger] siblings@[i] < ps@.len(),
            depth + levels <= ps.len(),
            levels > 0,
            rows_of(
                out@,
                ps@,
                done + walk(ps@, s, i as int, depth as nat, guides@, levels as nat),
            ),
    {
        let place: usize = siblings[i];
        let last = i + 1 == n;
        let kids = list_kids(ps, f, Some(place));
        let ghost so_far = done + walk(ps@, s, i as int, depth as nat, guides@, levels as nat);
        let ghost node = Node { place: place as int, depth: depth as nat, last, guides: guides@ };
        let row = TableRow {
            cells: write_cells(&ps[place]),
            pid: ps[place].pid,
            depth,
            is_last_sibling: last,
            guides: copy_guides(guides),
            child_count: kids.len(),
            descendant_pids: list_below(ps, &f.up, place),
            key: String::new(),
            mark: None,
        };
        proof {
            assert(ints(kids@).len() == kids@.len());
            assert(node_row(row, ps@, node));
        }
        let ghost before = out@;
        out.push(row);
        proof {
            let nodes = so_far.push(node);
            assert forall|k: int| 0 <= k < out@.len() implies node_row(
                #[trigger] out@[k],
                ps@,
                nodes[k],
            ) by {
                if k < before.len() {
                    assert(out@[k] == before[k]);
                    assert(node_row(before[k], ps@, so_far[k]));
                }
            }
        }
        let mut below = copy_guides(guides);
        below.push(last);
        flatten(ps, f, &kids, depth + 1, &below, levels - 1, out, Ghost(so_far.push(node)));
        proof {
            let k = crate::monitor::process::kids(ps@, Some(place as int));
            let deeper = walk(
                ps@,
                k,
                k.len() as int,
                (depth + 1) as nat,
                guides@.push(last),
                (levels - 1) as nat,
            );
            let w = walk(ps@, s, i as int, depth as nat, guides@, levels as nat);
            assert(s[i as int] == place as int);
            assert(walk(ps@, s, i + 1, depth as nat, guides@, levels as nat) == w.push(node)
                + deeper);
            assert(done + (w.push(node) + deeper) =~= so_far.push(node) + deeper);
        }
    }
}

/// The whole tree of processes, ranked by what their subtrees weigh, each row before those
/// below it.
pub fn build_tree(ps: &Vec<Proc>) -> (r: Vec<TableRow>)
    requires
        countable(ps@),
    ensures
        rows_of(r@, ps@, tree(ps@)),
{
    let f = build_frame(ps);
    let roots = list_kids(ps, &f, None);
    let guides: Vec<bool> = Vec::new();
    let mut out: Vec<TableRow> = Vec::new();
    proof {
        assert(rows_of(out@, ps@, Seq::empty()));
        assert(guides@ =~= Seq::empty());
        assert(ints(roots@).len() == roots@.len());
    }
    flatten(ps, &f, &roots, 0, &guides, ps.len(), &mut out, Ghost(Seq::empty()));
    assert(Seq::<Node>::empty() + tree(ps@) =~= tree(ps@));
    out
}

/// The process so many steps up from another.
pub open spec fn ancestor(ps: Seq<Proc>, q: int, steps: nat) -> Option<int>
    decreases steps,
{
    if steps == 0 {
        Some(q)
    } else {
        match up(ps, q) {
            Some(p) => ancestor(ps, p, (steps - 1) as nat),
            None => None,
        }
    }
}

/// The parents of a process end after so many steps, at a root.
pub open spec fn rooted(ps: Seq<Proc>, q: int, steps: nat) -> bool {
    ancestor(ps, q, steps) is Some && up(ps, ancestor(ps, q, steps)->0) is None
}

proof fn lemma_ancestor_step(ps: Seq<Proc>, q: int, steps: nat)
    requires
        ancestor(ps, q, steps) is Some,
    ensures
        ancestor(ps, q, steps + 1) == up(ps, ancestor(ps, q, steps)->0),
    decreases steps,
{
    if steps > 0 {
        lemma_ancestor_step(ps, up(ps, q)->0, (steps - 1) as nat);
    } else {
        match up(ps, q) {
            Some(p) => {
                assert(ancestor(ps, p, 0) == Some(p));
            },
            None => {},
        }
    }
}

proof fn lemma_ancestor_place(ps: Seq<Proc>, q: int, steps: nat)
    requires
        0 <= q < ps.len(),
        !ps[q].thread,
    ensures
        (match ancestor(ps, q, steps) {
            Some(a) => 0 <= a < ps.len() && !ps[a].thread,
            None => true,
        }),
    decreases steps,
{
    if steps > 0 {
        lemma_up(ps, q);
        match up(ps, q) {
            Some(p) => {
                lemma_ancestor_place(ps, p, (steps - 1) as nat);
            },
            None => {},
        }
    }
}

/// A chain that has an end has one end.
proof fn lemma_one_root(ps: Seq<Proc>, q: int, a: nat, b: nat)
    requires
        rooted(ps, q, a),
        rooted(ps, q, b),
    ensures
        a == b,
    decreases a,
{
    if a > 0 && b > 0 {
        lemma_one_root(ps, up(ps, q)->0, (a - 1) as nat, (b - 1) as nat);
    }
}

proof fn lemma_sorted_keeps(v: Seq<int>, keys: Seq<i128>)
    requires
        keys.len() == v.len(),
        v.len() <= usize::MAX,
    ensures
        sorted_by(v, keys).len() == v.len(),
        forall|x: int| v.contains(x) <==> #[trigger] sorted_by(v, keys).contains(x),
        v.no_duplicates() ==> sorted_by(v, keys).no_duplicates(),
{
    lemma_order_exists(keys);
    let o = choose|o: Seq<usize>| is_order(keys, o);
    lemma_sorted(v, keys, o);
    let s = sorted_by(v, keys);
    assert forall|x: int| v.contains(x) <==> #[trigger] s.contains(x) by {
        if v.contains(x) {
            let i = choose|i: int| 0 <= i < v.len() && v[i] == x;
            assert(o.contains(i as usize));
            let k = choose|k: int| 0 <= k < o.len() && o[k] == i as usize;
            assert(s[k] == x);
        }
        if s.contains(x) {
            let k = choose|k: int| 0 <= k < s.len() && s[k] == x;
            assert(v[o[k] as int] == x);
        }
    }
    if v.no_duplicates() {
        assert forall|i: int, j: int| 0 <= i < s.len() && 0 <= j < s.len() && i != j implies s[i]
            != s[j] by {
            lemma_order_distinct(keys, o, i, j);
            assert(v[o[i] as int] != v[o[j] as int]);
        }
    }
}

proof fn lemma_children(ps: Seq<Proc>, a: Option<int>, n: int)
    requires
        0 <= n <= ps.len(),
    ensures
        children(ps, a, n).len() <= n,
        children(ps, a, n).no_duplicates(),
        forall|x: int| #[trigger]
            children(ps, a, n).contains(x) <==> (0 <= x < n && !ps[x].thread && up(ps, x) == a),
    decreases n,
{
    let c = children(ps, a, n);
    if n > 0 {
        lemma_children(ps, a, n - 1);
        let b = children(ps, a, n - 1);
        assert forall|x: int| #[trigger] c.contains(x) <==> (0 <= x < n && !ps[x].thread && up(
            ps,
            x,
        ) == a) by {
            if c.contains(x) && x != n - 1 {
                let k = choose|k: int| 0 <= k < c.len() && c[k] == x;
                assert(b[k] == x);
                assert(b.contains(x));
            }
            if 0 <= x < n && !ps[x].thread && up(ps, x) == a {
                if x == n - 1 {
                    assert(c[c.len() - 1] == x);
                } else {
                    assert(b.contains(x));
                    let k = choose|k: int| 0 <= k < b.len() && b[k] == x;
                    assert(c[k] == x);
                }
            }
        }
        assert(!b.contains(n - 1));
        assert forall|i: int, j: int| 0 <= i < c.len() && 0 <= j < c.len() && i != j implies c[i]
            != c[j] by {
            if i < b.len() && j == b.len() {
                assert(b.contains(b[i]));
            }
            if j < b.len() && i == b.len() {
                assert(b.contains(b[j]));
            }
        }
    } else {
        assert forall|x: int| #[trigger] c.contains(x) <==> (0 <= x < n && !ps[x].thread && up(
            ps,
            x,
        ) == a) by {}
    }
}

/// Who the children of a process are.
pub proof fn lemma_kids(ps: Seq<Proc>, a: Option<int>)
    requires
        ps.len() <= usize::MAX,
    ensures
        kids(ps, a).no_duplicates(),
        forall|x: int| #[trigger]
            kids(ps, a).contains(x) <==> (0 <= x < ps.len() && !ps[x].thread && up(ps, x) == a),
{
    let v = children(ps, a, ps.len() as int);
    lemma_children(ps, a, ps.len() as int);
    let pids = Seq::new(v.len(), |i: int| ps[v[i]].pid as i128);
    lemma_sorted_keeps(v, pids);
    let by_pid = sorted_by(v, pids);
    let keys = Seq::new(
        by_pid.len(),
        |i: int| (-(weight_below(ps, by_pid[i], ps.len() as int) as int)) as i128,
    );
    lemma_sorted_keeps(by_pid, keys);
    assert(kids(ps, a) == sorted_by(by_pid, keys));
    assert forall|x: int| #[trigger] kids(ps, a).contains(x) <==> (0 <= x < ps.len()
        && !ps[x].thread && up(ps, x) == a) by {
        assert(by_pid.contains(x) <==> kids(ps, a).contains(x));
        assert(v.contains(x) <==> by_pid.contains(x));
    }
}

/// A list of places in the tree has a process.
pub open spec fn stands(nodes: Seq<Node>, q: int) -> bool {
    exists|i: int| 0 <= i < nodes.len() && (#[trigger] nodes[i]).place == q
}

/// What a sibling brings into the list: itself, and all below it.
proof fn lemma_walk_has(
    ps: Seq<Proc>,
    siblings: Seq<int>,
    n: int,
    j: int,
    depth: nat,
    guides: Seq<bool>,
    levels: nat,
    q: int,
)
    requires
        0 <= j < n <= siblings.len(),
        levels > 0,
        siblings[j] == q || ({
            let k = kids(ps, Some(siblings[j]));
            stands(
                walk(
                    ps,
                    k,
                    k.len() as int,
                    depth + 1,
                    guides.push(j + 1 == siblings.len()),
                    (levels - 1) as nat,
                ),
                q,
            )
        }),
    ensures
        stands(walk(ps, siblings, n, depth, guides, levels), q),
    decreases n,
{
    let w = walk(ps, siblings, n, depth, guides, levels);
    let before = walk(ps, siblings, n - 1, depth, guides, levels);
    let last = n == siblings.len();
    let k = kids(ps, Some(siblings[n - 1]));
    let below = walk(ps, k, k.len() as int, depth + 1, guides.push(last), (levels - 1) as nat);
    assert(w == before.push(Node { place: siblings[n - 1], depth, last, guides }) + below);
    if j == n - 1 {
        if siblings[j] == q {
            assert(w[before.len() as int].place == q);
        } else {
            let i = choose|i: int| 0 <= i < below.len() && (#[trigger] below[i]).place == q;
            assert(w[before.len() + 1 + i] == below[i]);
        }
    } else {
        lemma_walk_has(ps, siblings, n - 1, j, depth, guides, levels, q);
        let i = choose|i: int| 0 <= i < before.len() && (#[trigger] before[i]).place == q;
        assert(w[i] == before[i]);
    }
}

/// From the siblings of an ancestor down, the list reaches the process.
proof fn lemma_walk_reaches(
    ps: Seq<Proc>,
    q: int,
    steps: nat,
    depth: nat,
    guides: Seq<bool>,
    levels: nat,
)
    requires
        0 <= q < ps.len() <= usize::MAX,
        !ps[q].thread,
        ancestor(ps, q, steps) is Some,
        levels > steps,
    ensures
        ({
            let s = kids(ps, up(ps, ancestor(ps, q, steps)->0));
            stands(walk(ps, s, s.len() as int, depth, guides, levels), q)
        }),
    decreases steps,
{
    let a = ancestor(ps, q, steps)->0;
    let s = kids(ps, up(ps, a));
    lemma_ancestor_place(ps, q, steps);
    lemma_kids(ps, up(ps, a));
    assert(s.contains(a));
    let j = choose|j: int| 0 <= j < s.len() && s[j] == a;
    if steps > 0 {
        lemma_below(ps, q, steps);
        let b = ancestor(ps, q, (steps - 1) as nat)->0;
        lemma_walk_reaches(
            ps,
            q,
            (steps - 1) as nat,
            depth + 1,
            guides.push(j + 1 == s.len()),
            (levels - 1) as nat,
        );
        assert(up(ps, b) == Some(a));
    }
    lemma_walk_has(ps, s, s.len() as int, j, depth, guides, levels, q);
}

proof fn lemma_below(ps: Seq<Proc>, q: int, steps: nat)
    requires
        steps > 0,
        ancestor(ps, q, steps) is Some,
    ensures
        ancestor(ps, q, (steps - 1) as nat) is Some,
        up(ps, ancestor(ps, q, (steps - 1) as nat)->0) == ancestor(ps, q, steps),
    decreases steps,
{
    if steps > 1 {
        lemma_below(ps, up(ps, q)->0, (steps - 1) as nat);
    } else {
        assert(ancestor(ps, q, 0) == Some(q));
        assert(ancestor(ps, up(ps, q)->0, 0) == up(ps, q));
    }
}

/// The ancestor of a listed process that is one of the siblings it is listed under.
pub open spec fn listed_under(ps: Seq<Proc>, x: Node, siblings: Seq<int>, n: int, depth: nat) -> bool {
    x.depth >= depth && ancestor(ps, x.place, (x.depth - depth) as nat) is Some && exists|j: int|
        0 <= j < n && #[trigger] siblings[j] == ancestor(
            ps,
            x.place,
            (x.depth - depth) as nat,
        )->0
}

/// Each listed process is below one of the siblings, or is one.
proof fn lemma_walk_under(
    ps: Seq<Proc>,
    siblings: Seq<int>,
    n: int,
    depth: nat,
    guides: Seq<bool>,
    levels: nat,
)
    requires
        0 <= n <= siblings.len(),
        ps.len() <= usize::MAX,
    ensures
        forall|i: int|
            0 <= i < walk(ps, siblings, n, depth, guides, levels).len() ==> listed_under(
                ps,
                #[trigger] walk(ps, siblings, n, depth, guides, levels)[i],
                siblings,
                n,
                depth,
            ),
    decreases levels, n,
{
    if n > 0 && levels > 0 {
        let w = walk(ps, siblings, n, depth, guides, levels);
        let before = walk(ps, siblings, n - 1, depth, guides, levels);
        let top = siblings[n - 1];
        let last = n == siblings.len();
        let k = kids(ps, Some(top));
        let m = k.len() as int;
        let below = walk(ps, k, m, depth + 1, guides.push(last), (levels - 1) as nat);
        lemma_walk_under(ps, siblings, n - 1, depth, guides, levels);
        lemma_walk_under(ps, k, m, depth + 1, guides.push(last), (levels - 1) as nat);
        lemma_kids(ps, Some(top));
        assert forall|i: int| 0 <= i < w.len() implies listed_under(
            ps,
            #[trigger] w[i],
            siblings,
            n,
            depth,
        ) by {
            if i < before.len() {
                assert(w[i] == before[i]);
                assert(listed_under(ps, before[i], siblings, n - 1, depth));
            } else if i == before.len() {
                assert(w[i].place == siblings[n - 1]);
                assert(ancestor(ps, top, 0) == Some(top));
            } else {
                let x = below[i - before.len() - 1];
                assert(w[i] == x);
                assert(listed_under(ps, x, k, m, depth + 1));
                let s = (x.depth - (depth + 1)) as nat;
                let j = choose|j: int|
                    0 <= j < m && #[trigger] k[j] == ancestor(ps, x.place, s)->0;
                assert(k.contains(k[j]));
                lemma_ancestor_step(ps, x.place, s);
                assert(ancestor(ps, x.place, s + 1) == Some(top));
                assert(s + 1 == x.depth - depth);
                assert(siblings[n - 1] == top);
            }
        }
    }
}

/// No process is listed twice at one depth.
proof fn lemma_walk_once(
    ps: Seq<Proc>,
    siblings: Seq<int>,
    n: int,
    depth: nat,
    guides: Seq<bool>,
    levels: nat,
)
    requires
        0 <= n <= siblings.len(),
        siblings.no_duplicates(),
        ps.len() <= usize::MAX,
    ensures
        forall|i: int, j: int|
            0 <= i < j < walk(ps, siblings, n, depth, guides, levels).len() ==> apart(
                #[trigger] walk(ps, siblings, n, depth, guides, levels)[i],
                #[trigger] walk(ps, siblings, n, depth, guides, levels)[j],
            ),
    decreases levels, n,
{
    if n > 0 && levels > 0 {
        let w = walk(ps, siblings, n, depth, guides, levels);
        let before = walk(ps, siblings, n - 1, depth, guides, levels);
        let top = siblings[n - 1];
        let last = n == siblings.len();
        let k = kids(ps, Some(top));
        let m = k.len() as int;
        let below = walk(ps, k, m, depth + 1, guides.push(last), (levels - 1) as nat);
        lemma_kids(ps, Some(top));
        lemma_walk_once(ps, siblings, n - 1, depth, guides, levels);
        lemma_walk_once(ps, k, m, depth + 1, guides.push(last), (levels - 1) as nat);
        lemma_walk_under(ps, siblings, n - 1, depth, guides, levels);
        lemma_walk_under(ps, k, m, depth + 1, guides.push(last), (levels - 1) as nat);
        let b = before.len() as int;
        assert forall|i: int, j: int| 0 <= i < j < w.len() implies apart(
            #[trigger] w[i],
            #[trigger] w[j],
        ) by {
            if j < b {
                assert(w[i] == before[i] && w[j] == before[j]);
            } else if i > b {
                assert(w[i] == below[i - b - 1] && w[j] == below[j - b - 1]);
            } else if i == b {
                assert(listed_under(ps, below[j - b - 1], k, m, depth + 1));
            } else {
                assert(w[i] == before[i]);
                assert(listed_under(ps, before[i], siblings, n - 1, depth));
                let s = (w[i].depth - depth) as nat;
                let t = choose|t: int|
                    0 <= t < n - 1 && #[trigger] siblings[t] == ancestor(ps, w[i].place, s)->0;
                assert(siblings[t] != top);
                if j == b {
                    assert(ancestor(ps, top, 0) == Some(top));
                } else {
                    let x = below[j - b - 1];
                    assert(w[j] == x);
                    assert(listed_under(ps, x, k, m, depth + 1));
                    let u = (x.depth - (depth + 1)) as nat;
                    let v = choose|v: int|
                        0 <= v < m && #[trigger] k[v] == ancestor(ps, x.place, u)->0;
                    assert(k.contains(k[v]));
                    lemma_ancestor_step(ps, x.place, u);
                    assert(ancestor(ps, x.place, u + 1) == Some(top));
                    assert(u + 1 == x.depth - depth);
                }
            }
        }
    }
}

/// Two places of the tree are not for one process at one depth.
pub open spec fn apart(a: Node, b: Node) -> bool {
    a.place != b.place || a.depth != b.depth
}

/// The tree holds every process whose parents end at a root, and holds it once. (Parents that
/// go around in a ring end nowhere.)
pub proof fn lemma_each_process_once(ps: Seq<Proc>)
    requires
        countable(ps),
        ps.len() <= usize::MAX,
    ensures
        forall|q: int, steps: nat|
            0 <= q < ps.len() && !(#[trigger] ps[q]).thread && steps < ps.len() && #[trigger] rooted(
                ps,
                q,
                steps,
            ) ==> stands(tree(ps), q),
        forall|i: int, j: int|
            0 <= i < j < tree(ps).len() ==> (#[trigger] tree(ps)[i]).place != (
            #[trigger] tree(ps)[j]).place,
        forall|i: int|
            0 <= i < tree(ps).len() ==> 0 <= (#[trigger] tree(ps)[i]).place < ps.len()
                && !ps[tree(ps)[i].place].thread,
{
    let roots = kids(ps, None);
    let n = roots.len() as int;
    let e = Seq::<bool>::empty();
    let t = tree(ps);
    lemma_kids(ps, None);
    assert forall|q: int, steps: nat|
        0 <= q < ps.len() && !(#[trigger] ps[q]).thread && steps < ps.len() && #[trigger] rooted(
            ps,
            q,
            steps,
        ) implies stands(t, q) by {
        lemma_walk_reaches(ps, q, steps, 0, e, ps.len());
    }
    lemma_walk_under(ps, roots, n, 0, e, ps.len());
    lemma_walk_once(ps, roots, n, 0, e, ps.len());
    assert forall|i: int, j: int| 0 <= i < j < t.len() implies (#[trigger] t[i]).place != (
    #[trigger] t[j]).place by {
        assert(apart(t[i], t[j]));
        if t[i].place == t[j].place {
            lemma_root_of(ps, t[i], roots, n);
            lemma_root_of(ps, t[j], roots, n);
            lemma_one_root(ps, t[i].place, t[i].depth, t[j].depth);
        }
    }
    lemma_walk_places(ps, roots, n, 0, e, ps.len());
}

proof fn lemma_root_of(ps: Seq<Proc>, x: Node, roots: Seq<int>, n: int)
    requires
        ps.len() <= usize::MAX,
        roots == kids(ps, None),
        n == roots.len(),
        listed_under(ps, x, roots, n, 0),
    ensures
        rooted(ps, x.place, x.depth),
{
    lemma_kids(ps, None);
    let j = choose|j: int|
        0 <= j < n && #[trigger] roots[j] == ancestor(ps, x.place, (x.depth - 0) as nat)->0;
    assert(roots.contains(roots[j]));
}

proof fn lemma_walk_places(
    ps: Seq<Proc>,
    siblings: Seq<int>,
    n: int,
    depth: nat,
    guides: Seq<bool>,
    levels: nat,
)
    requires
        0 <= n <= siblings.len(),
        ps.len() <= usize::MAX,
        forall|x: int| #[trigger]
            siblings.contains(x) ==> 0 <= x < ps.len() && !ps[x].thread,
    ensures
        forall|i: int|
            0 <= i < walk(ps, siblings, n, depth, guides, levels).len() ==> 0 <= (#[trigger] walk(
                ps,
                siblings,
                n,
                depth,
                guides,
                levels,
            )[i]).place < ps.len() && !ps[walk(
                ps,
                siblings,
                n,
                depth,
                guides,
                levels,
            )[i].place].thread,
    decreases levels, n,
{
    if n > 0 && levels > 0 {
        let last = n == siblings.len();
        let k = kids(ps, Some(siblings[n - 1]));
        lemma_kids(ps, Some(siblings[n - 1]));
        lemma_walk_places(ps, siblings, n - 1, depth, guides, levels);
        lemma_walk_places(
            ps,
            k,
            k.len() as int,
            depth + 1,
            guides.push(last),
            (levels - 1) as nat,
        );
        assert(siblings.contains(siblings[n - 1]));
    }
}

// --- what the tree keeps -----------------------------------------------------------------------------------

/// The parent of a process is the process that its parent's pid names.
pub proof fn lemma_parent(ps: Seq<Proc>, i: int, j: int)
    requires
        0 <= i < ps.len(),
        0 <= j < ps.len(),
        forall|a: int, b: int|
            0 <= a < b < ps.len() ==> (#[trigger] ps[a]).pid != (#[trigger] ps[b]).pid,
    ensures
        up(ps, i) == Some(j) <==> !ps[j].thread && ps[i].parent == Some(ps[j].pid),
{
    lemma_up(ps, i);
    match ps[i].parent {
        Some(pid) => {
            lemma_place_of(ps, pid);
            match place_of(ps, pid) {
                Some(k) => {
                    if ps[j].pid == pid && k != j {
                        assert(ps[k].pid != ps[j].pid);
                    }
                },
                None => {},
            }
        },
        None => {},
    }
}

proof fn lemma_ancestor_of_ancestor(ps: Seq<Proc>, q: int, s: nat, t: nat)
    requires
        ancestor(ps, q, s) is Some,
    ensures
        ancestor(ps, q, s + t) == ancestor(ps, ancestor(ps, q, s)->0, t),
    decreases s,
{
    if s > 0 {
        lemma_ancestor_of_ancestor(ps, up(ps, q)->0, (s - 1) as nat, t);
    }
}

/// An ancestor of a process whose parents end ends as many steps sooner.
proof fn lemma_rooted_above(ps: Seq<Proc>, q: int, s: nat, d: nat)
    requires
        ancestor(ps, q, s) is Some,
    ensures
        rooted(ps, ancestor(ps, q, s)->0, d) <==> rooted(ps, q, s + d),
{
    lemma_ancestor_of_ancestor(ps, q, s, d);
}

proof fn lemma_ancestors_before(ps: Seq<Proc>, q: int, d: nat, s: nat)
    requires
        ancestor(ps, q, d) is Some,
        s <= d,
    ensures
        ancestor(ps, q, s) is Some,
    decreases d - s,
{
    if s < d {
        lemma_ancestors_before(ps, q, d, s + 1);
        lemma_below(ps, q, s + 1);
    }
}

/// Parents that end, end in fewer steps than there are processes.
pub proof fn lemma_depth_bound(ps: Seq<Proc>, q: int, d: nat)
    requires
        0 <= q < ps.len(),
        !ps[q].thread,
        rooted(ps, q, d),
    ensures
        d < ps.len(),
{
    let line = Seq::new(d + 1, |i: int| ancestor(ps, q, i as nat)->0);
    assert forall|i: int, j: int| 0 <= i < line.len() && 0 <= j < line.len() && i != j implies line[i]
        != line[j] by {
        lemma_ancestors_before(ps, q, d, i as nat);
        lemma_ancestors_before(ps, q, d, j as nat);
        lemma_rooted_above(ps, q, i as nat, (d - i) as nat);
        lemma_rooted_above(ps, q, j as nat, (d - j) as nat);
        if line[i] == line[j] {
            lemma_one_root(ps, line[i], (d - i) as nat, (d - j) as nat);
        }
    }
    line.unique_seq_to_set();
    let all = vstd::set_lib::set_int_range(0, ps.len() as int);
    vstd::set_lib::lemma_int_range(0, ps.len() as int);
    assert forall|x: int| #[trigger] line.to_set().contains(x) implies all.contains(x) by {
        let i = choose|i: int| 0 <= i < line.len() && line[i] == x;
        lemma_ancestors_before(ps, q, d, i as nat);
        lemma_ancestor_place(ps, q, i as nat);
    }
    vstd::set_lib::lemma_len_subset(line.to_set(), all);
}

proof fn lemma_above_gives(ps: Seq<Proc>, a: int, q: int, steps: nat) -> (s: nat)
    requires
        above(ps, a, q, steps),
    ensures
        s <= steps,
        ancestor(ps, q, s) == Some(a),
    decreases steps,
{
    if a == q {
        0
    } else {
        lemma_above_gives(ps, a, up(ps, q)->0, (steps - 1) as nat) + 1
    }
}

proof fn lemma_above_from(ps: Seq<Proc>, a: int, q: int, s: nat, steps: nat)
    requires
        ancestor(ps, q, s) == Some(a),
        s <= steps,
    ensures
        above(ps, a, q, steps),
    decreases s,
{
    if s > 0 {
        lemma_above_from(ps, a, up(ps, q)->0, (s - 1) as nat, (steps - 1) as nat);
    }
}

/// The subtree of a process whose parents end: itself, and the processes that have it as an
/// ancestor, however many steps up.
pub proof fn lemma_subtree(ps: Seq<Proc>, a: int, k: nat, q: int)
    requires
        0 <= a < ps.len(),
        0 <= q < ps.len(),
        !ps[q].thread,
        rooted(ps, a, k),
    ensures
        inside(ps, a, q) <==> exists|s: nat| #[trigger] ancestor(ps, q, s) == Some(a),
{
    if inside(ps, a, q) {
        let s = lemma_above_gives(ps, a, q, ps.len());
    }
    if exists|s: nat| #[trigger] ancestor(ps, q, s) == Some(a) {
        let s = choose|s: nat| #[trigger] ancestor(ps, q, s) == Some(a);
        lemma_rooted_above(ps, q, s, k);
        lemma_depth_bound(ps, q, s + k);
        lemma_above_from(ps, a, q, s, ps.len());
    }
}

/// Another process is below one exactly when its parent is in that one's subtree.
pub proof fn lemma_subtree_step(ps: Seq<Proc>, a: int, k: nat, q: int)
    requires
        0 <= a < ps.len(),
        0 <= q < ps.len(),
        !ps[q].thread,
        rooted(ps, a, k),
        q != a,
    ensures
        inside(ps, a, q) <==> up(ps, q) is Some && inside(ps, a, up(ps, q)->0),
{
    lemma_subtree(ps, a, k, q);
    lemma_up(ps, q);
    if up(ps, q) is Some {
        let p = up(ps, q)->0;
        lemma_subtree(ps, a, k, p);
        if exists|s: nat| #[trigger] ancestor(ps, q, s) == Some(a) {
            let s = choose|s: nat| #[trigger] ancestor(ps, q, s) == Some(a);
            assert(ancestor(ps, p, (s - 1) as nat) == Some(a));
        }
        if exists|s: nat| #[trigger] ancestor(ps, p, s) == Some(a) {
            let s = choose|s: nat| #[trigger] ancestor(ps, p, s) == Some(a);
            assert(ancestor(ps, q, s + 1) == Some(a));
        }
    } else if exists|s: nat| #[trigger] ancestor(ps, q, s) == Some(a) {
        let s = choose|s: nat| #[trigger] ancestor(ps, q, s) == Some(a);
        assert(s > 0);
    }
}

/// The sum of the numbers that rank some processes.
pub open spec fn together(ps: Seq<Proc>, v: Seq<int>, n: int) -> nat
    decreases v.len(),
{
    if v.len() == 0 {
        0
    } else {
        together(ps, v.drop_last(), n) + weight_below(ps, v.last(), n)
    }
}

/// In how many of some subtrees a process is.
spec fn held_by(ps: Seq<Proc>, v: Seq<int>, q: int) -> nat
    decreases v.len(),
{
    if v.len() == 0 {
        0
    } else {
        held_by(ps, v.drop_last(), q) + (if inside(ps, v.last(), q) {
            1nat
        } else {
            0nat
        })
    }
}

proof fn lemma_held(ps: Seq<Proc>, v: Seq<int>, q: int)
    requires
        forall|i: int, j: int|
            0 <= i < j < v.len() ==> !(inside(ps, #[trigger] v[i], q) && inside(
                ps,
                #[trigger] v[j],
                q,
            )),
    ensures
        held_by(ps, v, q) == if exists|i: int| 0 <= i < v.len() && inside(ps, #[trigger] v[i], q) {
            1nat
        } else {
            0nat
        },
    decreases v.len(),
{
    if v.len() > 0 {
        let b = v.drop_last();
        lemma_held(ps, b, q);
        if exists|i: int| 0 <= i < b.len() && inside(ps, #[trigger] b[i], q) {
            let i = choose|i: int| 0 <= i < b.len() && inside(ps, #[trigger] b[i], q);
            assert(v[i] == b[i]);
            assert(v[v.len() - 1] == v.last());
        } else if exists|i: int| 0 <= i < v.len() && inside(ps, #[trigger] v[i], q) {
            let i = choose|i: int| 0 <= i < v.len() && inside(ps, #[trigger] v[i], q);
            if i < b.len() {
                assert(b[i] == v[i]);
            }
        } else {
            assert(!inside(ps, v[v.len() - 1], q));
        }
    }
}

proof fn lemma_together_step(ps: Seq<Proc>, v: Seq<int>, n: int)
    requires
        0 < n <= ps.len(),
    ensures
        together(ps, v, n) == together(ps, v, n - 1) + held_by(ps, v, n - 1) * ps[n - 1].weight,
    decreases v.len(),
{
    if v.len() > 0 {
        lemma_together_step(ps, v.drop_last(), n);
        let h = held_by(ps, v.drop_last(), n - 1);
        let w = ps[n - 1].weight as int;
        assert((h + 1) * w == h * w + w) by (nonlinear_arith);
    } else {
        assert(0 * ps[n - 1].weight == 0);
    }
}

proof fn lemma_together_none(ps: Seq<Proc>, v: Seq<int>)
    ensures
        together(ps, v, 0) == 0,
    decreases v.len(),
{
    if v.len() > 0 {
        lemma_together_none(ps, v.drop_last());
    }
}

/// A process below another is in the subtree of one of its children, and of only one.
proof fn lemma_one_child_holds(ps: Seq<Proc>, a: int, k: nat, v: Seq<int>, q: int)
    requires
        0 <= a < ps.len(),
        0 <= q < ps.len(),
        rooted(ps, a, k),
        v.no_duplicates(),
        forall|x: int| #[trigger]
            v.contains(x) <==> (0 <= x < ps.len() && !ps[x].thread && up(ps, x) == Some(a)),
    ensures
        held_by(ps, v, q) == if q != a && inside(ps, a, q) {
            1nat
        } else {
            0nat
        },
{
    assert forall|i: int, j: int| 0 <= i < j < v.len() implies !(inside(ps, #[trigger] v[i], q)
        && inside(ps, #[trigger] v[j], q)) by {
        if inside(ps, v[i], q) && inside(ps, v[j], q) {
            assert(v.contains(v[i]) && v.contains(v[j]));
            let s = lemma_above_gives(ps, v[i], q, ps.len());
            let t = lemma_above_gives(ps, v[j], q, ps.len());
            lemma_ancestor_step(ps, q, s);
            lemma_ancestor_step(ps, q, t);
            lemma_rooted_above(ps, q, s + 1, k);
            lemma_rooted_above(ps, q, t + 1, k);
            lemma_one_root(ps, q, s + 1 + k, t + 1 + k);
        }
    }
    lemma_held(ps, v, q);
    if exists|i: int| 0 <= i < v.len() && inside(ps, #[trigger] v[i], q) {
        let i = choose|i: int| 0 <= i < v.len() && inside(ps, #[trigger] v[i], q);
        assert(v.contains(v[i]));
        let s = lemma_above_gives(ps, v[i], q, ps.len());
        lemma_ancestor_step(ps, q, s);
        lemma_rooted_above(ps, q, s + 1, k);
        lemma_subtree(ps, a, k, q);
        if q == a {
            lemma_one_root(ps, q, s + 1 + k, k);
        }
    }
    if q != a && inside(ps, a, q) {
        let s = lemma_above_gives(ps, a, q, ps.len());
        lemma_below(ps, q, s);
        let c = ancestor(ps, q, (s - 1) as nat)->0;
        lemma_ancestor_place(ps, q, (s - 1) as nat);
        lemma_above_from(ps, c, q, (s - 1) as nat, ps.len());
        assert(v.contains(c));
        let i = choose|i: int| 0 <= i < v.len() && v[i] == c;
        assert(inside(ps, v[i], q));
    }
}

proof fn lemma_weight_adds_up(ps: Seq<Proc>, a: int, k: nat, v: Seq<int>, n: int)
    requires
        0 <= a < ps.len(),
        0 <= n <= ps.len(),
        !ps[a].thread,
        rooted(ps, a, k),
        v.no_duplicates(),
        forall|x: int| #[trigger]
            v.contains(x) <==> (0 <= x < ps.len() && !ps[x].thread && up(ps, x) == Some(a)),
    ensures
        weight_below(ps, a, n) == together(ps, v, n) + (if a < n {
            ps[a].weight as int
        } else {
            0
        }),
    decreases n,
{
    if n > 0 {
        lemma_weight_adds_up(ps, a, k, v, n - 1);
        lemma_together_step(ps, v, n);
        lemma_one_child_holds(ps, a, k, v, n - 1);
        let w = ps[n - 1].weight as int;
        assert(1 * w == w && 0 * w == 0);
        if n - 1 == a {
            assert(above(ps, a, a, ps.len()));
        }
    } else {
        lemma_together_none(ps, v);
    }
}

/// The number that ranks a process is its own weight and the numbers of its children, added up.
/// (Parents that go around in a ring end nowhere, and the tree does not have them.)
pub proof fn lemma_weight_is_additive(ps: Seq<Proc>, a: int, k: nat)
    requires
        0 <= a < ps.len() <= usize::MAX,
        !ps[a].thread,
        rooted(ps, a, k),
    ensures
        weight_below(ps, a, ps.len() as int) == ps[a].weight + together(
            ps,
            kids(ps, Some(a)),
            ps.len() as int,
        ),
{
    lemma_kids(ps, Some(a));
    lemma_weight_adds_up(ps, a, k, kids(ps, Some(a)), ps.len() as int);
}

/// One of two siblings comes first: what weighs more with all below it, and of equal ones the
/// smaller pid.
pub open spec fn comes_first(ps: Seq<Proc>, x: int, y: int) -> bool {
    let a = weight_below(ps, x, ps.len() as int);
    let b = weight_below(ps, y, ps.len() as int);
    a > b || (a == b && ps[x].pid <= ps[y].pid)
}

/// The children of a process are in the order of what they weigh with all below them.
pub proof fn lemma_kids_in_order(ps: Seq<Proc>, a: Option<int>)
    requires
        countable(ps),
        ps.len() <= usize::MAX,
    ensures
        forall|i: int, j: int|
            0 <= i < j < kids(ps, a).len() ==> comes_first(
                ps,
                #[trigger] kids(ps, a)[i],
                #[trigger] kids(ps, a)[j],
            ),
{
    let n = ps.len() as int;
    let v = children(ps, a, n);
    lemma_children(ps, a, n);
    let pids = Seq::new(v.len(), |i: int| ps[v[i]].pid as i128);
    lemma_order_exists(pids);
    let o = choose|o: Seq<usize>| is_order(pids, o);
    lemma_sorted(v, pids, o);
    let by_pid = sorted_by(v, pids);
    let keys = Seq::new(by_pid.len(), |i: int| (-(weight_below(ps, by_pid[i], n) as int)) as i128);
    lemma_order_exists(keys);
    let q = choose|q: Seq<usize>| is_order(keys, q);
    lemma_sorted(by_pid, keys, q);
    let s = kids(ps, a);
    assert(s == sorted_by(by_pid, keys));
    assert forall|i: int, j: int| 0 <= i < j < s.len() implies comes_first(
        ps,
        #[trigger] s[i],
        #[trigger] s[j],
    ) by {
        let x = q[i] as int;
        let y = q[j] as int;
        assert(goes_before(keys, x, y));
        lemma_weight_bound(ps, s[i], n);
        lemma_weight_bound(ps, s[j], n);
        assert(n * 0xffff_ffff_ffff_ffff <= 0x1_0000_0000 * 0xffff_ffff_ffff_ffff)
            by (nonlinear_arith)
            requires
                n <= 0x1_0000_0000,
        ;
        assert(s[i] == by_pid[x] && s[j] == by_pid[y]);
        if keys[x] == keys[y] {
            assert(goes_before(pids, o[x] as int, o[y] as int));
        }
    }
}

/// Among the children of their parent one process stands before another.
spec fn earlier(ps: Seq<Proc>, x: int, y: int) -> bool {
    let s = kids(ps, up(ps, x));
    exists|u: int, v: int| 0 <= u < v < s.len() && #[trigger] s[u] == x && #[trigger] s[v] == y
}

/// Two places of a list at one depth and with one parent are as among its children.
spec fn in_turn(ps: Seq<Proc>, x: Node, y: Node) -> bool {
    x.depth == y.depth && up(ps, x.place) == up(ps, y.place) ==> earlier(ps, x.place, y.place)
}

proof fn lemma_walk_in_turn(
    ps: Seq<Proc>,
    p: Option<int>,
    siblings: Seq<int>,
    n: int,
    depth: nat,
    guides: Seq<bool>,
    levels: nat,
)
    requires
        siblings == kids(ps, p),
        0 <= n <= siblings.len(),
        ps.len() <= usize::MAX,
    ensures
        forall|i: int, j: int|
            0 <= i < j < walk(ps, siblings, n, depth, guides, levels).len() ==> in_turn(
                ps,
                #[trigger] walk(ps, siblings, n, depth, guides, levels)[i],
                #[trigger] walk(ps, siblings, n, depth, guides, levels)[j],
            ),
    decreases levels, n,
{
    if n > 0 && levels > 0 {
        let w = walk(ps, siblings, n, depth, guides, levels);
        let before = walk(ps, siblings, n - 1, depth, guides, levels);
        let top = siblings[n - 1];
        let last = n == siblings.len();
        let k = kids(ps, Some(top));
        let m = k.len() as int;
        let below = walk(ps, k, m, depth + 1, guides.push(last), (levels - 1) as nat);
        lemma_kids(ps, p);
        assert(siblings.contains(top));
        lemma_kids(ps, Some(top));
        lemma_walk_in_turn(ps, p, siblings, n - 1, depth, guides, levels);
        lemma_walk_in_turn(ps, Some(top), k, m, depth + 1, guides.push(last), (levels - 1) as nat);
        lemma_walk_under(ps, siblings, n - 1, depth, guides, levels);
        lemma_walk_under(ps, k, m, depth + 1, guides.push(last), (levels - 1) as nat);
        let b = before.len() as int;
        assert forall|i: int, j: int| 0 <= i < j < w.len() implies in_turn(
            ps,
            #[trigger] w[i],
            #[trigger] w[j],
        ) by {
            if j < b {
                assert(w[i] == before[i] && w[j] == before[j]);
            } else if i > b {
                assert(w[i] == below[i - b - 1] && w[j] == below[j - b - 1]);
            } else if i == b {
                assert(listed_under(ps, below[j - b - 1], k, m, depth + 1));
            } else {
                assert(w[i] == before[i]);
                assert(listed_under(ps, before[i], siblings, n - 1, depth));
                let s = (w[i].depth - depth) as nat;
                let t = choose|t: int|
                    0 <= t < n - 1 && #[trigger] siblings[t] == ancestor(ps, w[i].place, s)->0;
                assert(siblings[t] != top);
                if j == b {
                    if s == 0 {
                        assert(w[i].place == siblings[t]);
                        assert(w[j].place == siblings[n - 1]);
                        assert(siblings.contains(siblings[t]));
                        assert(earlier(ps, w[i].place, w[j].place));
                    }
                } else {
                    let x = below[j - b - 1];
                    assert(w[j] == x);
                    assert(listed_under(ps, x, k, m, depth + 1));
                    let u = (x.depth - (depth + 1)) as nat;
                    let c = choose|c: int|
                        0 <= c < m && #[trigger] k[c] == ancestor(ps, x.place, u)->0;
                    assert(k.contains(k[c]));
                    lemma_ancestor_step(ps, x.place, u);
                    assert(ancestor(ps, x.place, u + 1) == Some(top));
                    if x.depth == w[i].depth {
                        assert(u + 1 == s);
                        assert(ancestor(ps, x.place, s) == match up(ps, x.place) {
                            Some(p) => ancestor(ps, p, u),
                            None => None,
                        });
                        assert(ancestor(ps, w[i].place, s) == match up(ps, w[i].place) {
                            Some(p) => ancestor(ps, p, u),
                            None => None,
                        });
                    }
                }
            }
        }
    }
}

/// Siblings stand in the tree as they do among the children of their parent.
proof fn lemma_tree_in_turn(ps: Seq<Proc>, i: int, j: int)
    requires
        countable(ps),
        ps.len() <= usize::MAX,
        0 <= i < j < tree(ps).len(),
        up(ps, tree(ps)[i].place) == up(ps, tree(ps)[j].place),
    ensures
        earlier(ps, tree(ps)[i].place, tree(ps)[j].place),
{
    let roots = kids(ps, None);
    let n = roots.len() as int;
    let e = Seq::<bool>::empty();
    let t = tree(ps);
    lemma_walk_in_turn(ps, None, roots, n, 0, e, ps.len());
    lemma_walk_under(ps, roots, n, 0, e, ps.len());
    lemma_root_of(ps, t[i], roots, n);
    lemma_root_of(ps, t[j], roots, n);
    let x = t[i];
    let y = t[j];
    match up(ps, x.place) {
        Some(p) => {
            assert(x.depth > 0 && y.depth > 0);
            lemma_one_root(ps, p, (x.depth - 1) as nat, (y.depth - 1) as nat);
        },
        None => {
            lemma_one_root(ps, x.place, x.depth, 0);
            lemma_one_root(ps, y.place, y.depth, 0);
        },
    }
    assert(in_turn(ps, t[i], t[j]));
}

/// In the tree no process comes before a sibling that weighs more with all below it; siblings
/// that weigh the same go by pid.
pub proof fn lemma_siblings_in_order(ps: Seq<Proc>, i: int, j: int)
    requires
        countable(ps),
        ps.len() <= usize::MAX,
        0 <= i < j < tree(ps).len(),
        up(ps, tree(ps)[i].place) == up(ps, tree(ps)[j].place),
    ensures
        comes_first(ps, tree(ps)[i].place, tree(ps)[j].place),
{
    let x = tree(ps)[i].place;
    let y = tree(ps)[j].place;
    let s = kids(ps, up(ps, x));
    lemma_tree_in_turn(ps, i, j);
    lemma_kids_in_order(ps, up(ps, x));
    let (u, v) = choose|u: int, v: int|
        0 <= u < v < s.len() && #[trigger] s[u] == x && #[trigger] s[v] == y;
    assert(comes_first(ps, s[u], s[v]));
}

/// Each number of the tree is the process' own weight and the numbers of its children.
pub proof fn lemma_tree_weights(ps: Seq<Proc>, i: int)
    requires
        countable(ps),
        ps.len() <= usize::MAX,
        0 <= i < tree(ps).len(),
    ensures
        weight_below(ps, tree(ps)[i].place, ps.len() as int) == ps[tree(ps)[i].place].weight
            + together(ps, kids(ps, Some(tree(ps)[i].place)), ps.len() as int),
{
    let roots = kids(ps, None);
    let n = roots.len() as int;
    lemma_each_process_once(ps);
    lemma_walk_under(ps, roots, n, 0, Seq::empty(), ps.len());
    lemma_root_of(ps, tree(ps)[i], roots, n);
    lemma_weight_is_additive(ps, tree(ps)[i].place, tree(ps)[i].depth);
}

/// Who is listed as below a process: the pids of the processes that have it as an ancestor.
pub proof fn lemma_pids_below(ps: Seq<Proc>, a: int, k: nat, pid: u32)
    requires
        0 <= a < ps.len(),
        rooted(ps, a, k),
    ensures
        pids_below(ps, a, ps.len() as int).contains(pid) <==> exists|q: int, s: nat|
            0 <= q < ps.len() && !ps[q].thread && ps[q].pid == pid && s > 0
                && #[trigger] ancestor(ps, q, s) == Some(a),
{
    let n = ps.len() as int;
    lemma_pids_held(ps, a, n, pid);
    if pids_below(ps, a, n).contains(pid) {
        let q = choose|q: int|
            0 <= q < n && q != a && inside(ps, a, q) && (#[trigger] ps[q]).pid == pid;
        let s = lemma_above_gives(ps, a, q, ps.len());
        assert(s > 0);
        assert(ancestor(ps, q, s) == Some(a));
    }
    if exists|q: int, s: nat|
        0 <= q < ps.len() && !ps[q].thread && ps[q].pid == pid && s > 0 && #[trigger] ancestor(
            ps,
            q,
            s,
        ) == Some(a) {
        let (q, s) = choose|q: int, s: nat|
            0 <= q < ps.len() && !ps[q].thread && ps[q].pid == pid && s > 0 && #[trigger] ancestor(
                ps,
                q,
                s,
            ) == Some(a);
        lemma_subtree(ps, a, k, q);
        if q == a {
            lemma_rooted_above(ps, q, s, k);
            lemma_one_root(ps, q, s + k, k);
        }
        assert(ps[q].pid == pid);
    }
}

proof fn lemma_pids_held(ps: Seq<Proc>, a: int, n: int, pid: u32)
    requires
        0 <= n <= ps.len(),
    ensures
        pids_below(ps, a, n).contains(pid) <==> exists|q: int|
            0 <= q < n && q != a && inside(ps, a, q) && (#[trigger] ps[q]).pid == pid,
    decreases n,
{
    let v = pids_below(ps, a, n);
    if n > 0 {
        lemma_pids_held(ps, a, n - 1, pid);
        let b = pids_below(ps, a, n - 1);
        if n - 1 != a && inside(ps, a, n - 1) {
            if v.contains(pid) && ps[n - 1].pid != pid {
                let i = choose|i: int| 0 <= i < v.len() && v[i] == pid;
                assert(b[i] == pid);
            }
            if ps[n - 1].pid == pid {
                assert(v[v.len() - 1] == pid);
            }
            if b.contains(pid) {
                let i = choose|i: int| 0 <= i < b.len() && b[i] == pid;
                assert(v[i] == pid);
            }
        }
    }
}

/// The row of a child, and that of its parent: the parent comes first, one step less deep, with
/// nothing between them that is not below the parent; the child's lines are the parent's and
/// one more, which says whether the parent was the last of its siblings.
pub open spec fn hangs_from(ps: Seq<Proc>, nodes: Seq<Node>, i: int, k: int) -> bool {
    &&& 0 <= k < i < nodes.len()
    &&& up(ps, nodes[i].place) == Some(nodes[k].place)
    &&& nodes[i].depth == nodes[k].depth + 1
    &&& nodes[i].guides == nodes[k].guides.push(nodes[k].last)
    &&& forall|j: int| k < j < i ==> (#[trigger] nodes[j]).depth > nodes[k].depth
}

spec fn placed(
    ps: Seq<Proc>,
    nodes: Seq<Node>,
    i: int,
    siblings: Seq<int>,
    n: int,
    depth: nat,
    guides: Seq<bool>,
) -> bool {
    let x = nodes[i];
    &&& x.depth >= depth
    &&& x.depth == depth ==> x.guides == guides && (exists|t: int|
        0 <= t < n && #[trigger] siblings[t] == x.place && x.last == (t == siblings.len() - 1))
    &&& x.depth > depth ==> (exists|k: int| #[trigger] hangs_from(ps, nodes, i, k)) && x.last == (
    x.place == kids(ps, up(ps, x.place)).last())
}

proof fn lemma_walk_placed(
    ps: Seq<Proc>,
    siblings: Seq<int>,
    n: int,
    depth: nat,
    guides: Seq<bool>,
    levels: nat,
)
    requires
        0 <= n <= siblings.len(),
        ps.len() <= usize::MAX,
    ensures
        forall|i: int|
            0 <= i < walk(ps, siblings, n, depth, guides, levels).len() ==> #[trigger] placed(
                ps,
                walk(ps, siblings, n, depth, guides, levels),
                i,
                siblings,
                n,
                depth,
                guides,
            ),
    decreases levels, n,
{
    if n > 0 && levels > 0 {
        let w = walk(ps, siblings, n, depth, guides, levels);
        let before = walk(ps, siblings, n - 1, depth, guides, levels);
        let top = siblings[n - 1];
        let last = n == siblings.len();
        let k = kids(ps, Some(top));
        let m = k.len() as int;
        let more = guides.push(last);
        let below = walk(ps, k, m, depth + 1, more, (levels - 1) as nat);
        lemma_kids(ps, Some(top));
        lemma_walk_placed(ps, siblings, n - 1, depth, guides, levels);
        lemma_walk_placed(ps, k, m, depth + 1, more, (levels - 1) as nat);
        let b = before.len() as int;
        assert(w[b] == (Node { place: top, depth, last, guides }));
        assert forall|i: int| 0 <= i < w.len() implies #[trigger] placed(
            ps,
            w,
            i,
            siblings,
            n,
            depth,
            guides,
        ) by {
            if i < b {
                assert(placed(ps, before, i, siblings, n - 1, depth, guides));
                assert(w[i] == before[i]);
                if w[i].depth > depth {
                    let c = choose|c: int| #[trigger] hangs_from(ps, before, i, c);
                    assert(w[c] == before[c]);
                    assert forall|j: int| c < j < i implies (#[trigger] w[j]).depth > w[c].depth by {
                        assert(w[j] == before[j]);
                    }
                    assert(hangs_from(ps, w, i, c));
                }
            } else if i == b {
                assert(siblings[n - 1] == w[i].place);
            } else {
                let p = i - b - 1;
                assert(placed(ps, below, p, k, m, depth + 1, more));
                assert(w[i] == below[p]);
                if below[p].depth == depth + 1 {
                    let t = choose|t: int|
                        0 <= t < m && #[trigger] k[t] == below[p].place && below[p].last == (t
                            == m - 1);
                    assert(k.contains(k[t]));
                    assert forall|j: int| b < j < i implies (#[trigger] w[j]).depth > w[b].depth by {
                        assert(placed(ps, below, j - b - 1, k, m, depth + 1, more));
                        assert(w[j] == below[j - b - 1]);
                    }
                    assert(hangs_from(ps, w, i, b));
                    assert(k.last() == k[m - 1]);
                } else {
                    let c = choose|c: int| #[trigger] hangs_from(ps, below, p, c);
                    let d = c + b + 1;
                    assert(w[d] == below[c]);
                    assert forall|j: int| d < j < i implies (#[trigger] w[j]).depth > w[d].depth by {
                        assert(w[j] == below[j - b - 1]);
                    }
                    assert(hangs_from(ps, w, i, d));
                }
            }
        }
    }
}

proof fn lemma_sibling_rooted(ps: Seq<Proc>, x: int, y: int, d: nat)
    requires
        rooted(ps, x, d),
        up(ps, x) == up(ps, y),
    ensures
        rooted(ps, y, d),
{
    if up(ps, x) is None {
        assert(ancestor(ps, x, 0) == Some(x));
        lemma_one_root(ps, x, d, 0);
        assert(ancestor(ps, y, 0) == Some(y));
    } else {
        assert(d > 0);
    }
}

/// How the rows of the tree hang together. A root is not indented and has no lines; every other
/// row hangs from its parent's. The last of its siblings is marked as the last, and no other:
/// no sibling of it follows.
pub proof fn lemma_tree_shape(ps: Seq<Proc>, i: int)
    requires
        countable(ps),
        ps.len() <= usize::MAX,
        0 <= i < tree(ps).len(),
    ensures
        up(ps, tree(ps)[i].place) is None <==> tree(ps)[i].depth == 0,
        tree(ps)[i].guides.len() == tree(ps)[i].depth,
        tree(ps)[i].depth > 0 ==> exists|k: int| #[trigger] hangs_from(ps, tree(ps), i, k),
        tree(ps)[i].last ==> forall|j: int|
            i < j < tree(ps).len() ==> up(ps, (#[trigger] tree(ps)[j]).place) != up(
                ps,
                tree(ps)[i].place,
            ),
        !tree(ps)[i].last ==> exists|j: int|
            i < j < tree(ps).len() && up(ps, (#[trigger] tree(ps)[j]).place) == up(
                ps,
                tree(ps)[i].place,
            ),
    decreases i,
{
    let roots = kids(ps, None);
    let n = roots.len() as int;
    let e = Seq::<bool>::empty();
    let t = tree(ps);
    let x = t[i];
    lemma_kids(ps, None);
    lemma_each_process_once(ps);
    lemma_walk_placed(ps, roots, n, 0, e, ps.len());
    lemma_walk_under(ps, roots, n, 0, e, ps.len());
    lemma_root_of(ps, x, roots, n);
    assert(placed(ps, t, i, roots, n, 0, e));
    let s = kids(ps, up(ps, x.place));
    lemma_kids(ps, up(ps, x.place));
    assert(s.contains(x.place));
    if x.depth == 0 {
        assert(ancestor(ps, x.place, 0) == Some(x.place));
        let u = choose|u: int|
            0 <= u < n && #[trigger] roots[u] == x.place && x.last == (u == roots.len() - 1);
        assert(x.last == (x.place == s.last())) by {
            if roots[u] == roots[n - 1] {
                assert(u == n - 1);
            }
        }
    } else {
        let k = choose|k: int| #[trigger] hangs_from(ps, t, i, k);
        lemma_tree_shape(ps, k);
    }
    let mine = choose|u: int| 0 <= u < s.len() && s[u] == x.place;
    if x.last {
        assert forall|j: int| i < j < t.len() implies up(ps, (#[trigger] t[j]).place) != up(
            ps,
            x.place,
        ) by {
            if up(ps, t[j].place) == up(ps, x.place) {
                lemma_tree_in_turn(ps, i, j);
                let (u, v) = choose|u: int, v: int|
                    0 <= u < v < s.len() && #[trigger] s[u] == x.place && #[trigger] s[v]
                        == t[j].place;
                assert(s[u] == s[s.len() - 1]);
            }
        }
    } else {
        assert(mine < s.len() - 1);
        let y = s[mine + 1];
        assert(s.contains(y));
        lemma_sibling_rooted(ps, x.place, y, x.depth);
        lemma_depth_bound(ps, y, x.depth);
        assert(!ps[y].thread);
        assert(stands(t, y));
        let j = choose|j: int| 0 <= j < t.len() && (#[trigger] t[j]).place == y;
        if j < i {
            lemma_tree_in_turn(ps, j, i);
            let (u, v) = choose|u: int, v: int|
                0 <= u < v < s.len() && #[trigger] s[u] == y && #[trigger] s[v] == x.place;
            assert(u == mine + 1 && v == mine);
        }
    }
}

proof fn lemma_own(ps: Seq<Proc>, n: int)
    requires
        0 <= n <= ps.len(),
    ensures
        own(ps, n).len() <= n,
        own(ps, n).no_duplicates(),
        forall|x: int| #[trigger] own(ps, n).contains(x) <==> 0 <= x < n && !ps[x].thread,
    decreases n,
{
    let v = own(ps, n);
    if n > 0 {
        lemma_own(ps, n - 1);
        let b = own(ps, n - 1);
        assert(!b.contains(n - 1));
        assert forall|x: int| #[trigger] v.contains(x) <==> 0 <= x < n && !ps[x].thread by {
            if v.contains(x) && x != n - 1 {
                let i = choose|i: int| 0 <= i < v.len() && v[i] == x;
                assert(b[i] == x);
                assert(b.contains(x));
            }
            if 0 <= x < n - 1 && !ps[x].thread {
                assert(b.contains(x));
                let i = choose|i: int| 0 <= i < b.len() && b[i] == x;
                assert(v[i] == x);
            }
            if x == n - 1 && !ps[x].thread {
                assert(v[v.len() - 1] == x);
            }
            if v.contains(n - 1) && ps[n - 1].thread {
                assert(b.contains(n - 1));
            }
        }
        assert forall|i: int, j: int| 0 <= i < v.len() && 0 <= j < v.len() && i != j implies v[i]
            != v[j] by {
            if i < b.len() {
                assert(b.contains(b[i]));
            }
            if j < b.len() {
                assert(b.contains(b[j]));
            }
        }
    } else {
        assert forall|x: int| #[trigger] v.contains(x) <==> 0 <= x < n && !ps[x].thread by {}
    }
}

/// The flat list has every process that is not a thread once, and none weighs less by itself
/// than one that follows it: so none that is cut off weighs more than one that is shown.
pub proof fn lemma_flat_top(ps: Seq<Proc>)
    requires
        ps.len() <= usize::MAX,
    ensures
        ({
            let v = by_weight(ps, own(ps, ps.len() as int));
            &&& v.no_duplicates()
            &&& forall|x: int| #[trigger]
                v.contains(x) <==> 0 <= x < ps.len() && !ps[x].thread
            &&& forall|i: int, j: int|
                0 <= i < j < v.len() ==> ps[#[trigger] v[i]].weight >= ps[#[trigger] v[j]].weight
        }),
{
    let n = ps.len() as int;
    let all = own(ps, n);
    lemma_own(ps, n);
    let keys = Seq::new(all.len(), |i: int| (-ps[all[i]].weight) as i128);
    lemma_sorted_keeps(all, keys);
    lemma_order_exists(keys);
    let o = choose|o: Seq<usize>| is_order(keys, o);
    lemma_sorted(all, keys, o);
    let v = by_weight(ps, all);
    assert(v == sorted_by(all, keys));
    assert forall|x: int| #[trigger] v.contains(x) <==> 0 <= x < ps.len() && !ps[x].thread by {
        assert(all.contains(x) <==> v.contains(x));
    }
    assert forall|i: int, j: int| 0 <= i < j < v.len() implies ps[#[trigger] v[i]].weight
        >= ps[#[trigger] v[j]].weight by {
        assert(goes_before(keys, o[i] as int, o[j] as int));
    }
}

/// The rows of a table of processes: those that use the most where there is room for a few, and
/// the whole tree where there is room for all.
pub fn sample_processes(ps: &Vec<Proc>, limit: Option<usize>) -> (r: Vec<TableRow>)
    requires
        countable(ps@),
    ensures
        (match limit {
            Some(n) => ({
                let v = by_weight(ps@, own(ps@, ps@.len() as int));
                r@.len() == capped(v.len(), Some(n)) && forall|i: int|
                    0 <= i < r@.len() ==> is_leaf(
                        #[trigger] r@[i],
                        cells_of(ps@[v[i]]),
                        ps@[v[i]].pid,
                        Seq::empty(),
                    )
            }),
            None => rows_of(r@, ps@, tree(ps@)),
        }),
{
    match limit {
        Some(n) => build_flat_top(ps, n),
        None => build_tree(ps),
    }
}

/// The cells of a row with what its process says now.
pub open spec fn renewed(row: TableRow, ps: Seq<Proc>) -> Seq<Seq<char>> {
    match place_of(ps, row.pid) {
        Some(i) => with_cell(with_cell(views(row.cells@), 1, ps[i].age@), 2, ps[i].usage@),
        None => views(row.cells@),
    }
}

/// Renews the age and the usage of rows in place, by pid: the order of the rows and what is
/// unfolded stay as they were left.
pub fn refresh_rows(ps: &Vec<Proc>, rows: &mut Vec<TableRow>)
    ensures
        final(rows)@.len() == old(rows)@.len(),
        forall|i: int|
            0 <= i < old(rows)@.len() ==> views((#[trigger] final(rows)@[i]).cells@) == renewed(
                old(rows)@[i],
                ps@,
            ) && final(rows)@[i] == (TableRow { cells: final(rows)@[i].cells, ..old(rows)@[i] }),
{
    let n: usize = rows.len();
    for i in 0..n
        invariant
            n == rows@.len(),
            rows@.len() == old(rows)@.len(),
            forall|k: int|
                0 <= k < i ==> views((#[trigger] rows@[k]).cells@) == renewed(old(rows)@[k], ps@)
                    && rows@[k] == (TableRow { cells: rows@[k].cells, ..old(rows)@[k] }),
            forall|k: int| i <= k < rows@.len() ==> #[trigger] rows@[k] == old(rows)@[k],
    {
        match find_proc(ps, rows[i].pid) {
            Some(k) => {
                let row = &mut rows[i];
                set_cell(&mut row.cells, 1, ps[k].age.clone());
                set_cell(&mut row.cells, 2, ps[k].usage.clone());
            },
            None => {},
        }
    }
}

/// What killing the process of a row would do.
pub fn danger(ps: &Vec<Proc>, row: &TableRow) -> (r: Option<Danger>)
    ensures
        (match r {
            None => place_of(ps@, row.pid) is None,
            Some(d) => place_of(ps@, row.pid) is Some && d.action@ == "matar processo"@ && d.title@
                == "Matar este processo"@ + ": "@ + ps@[place_of(ps@, row.pid)->0].name@
                + " (pid "@ + decimal(row.pid as nat) + ")?"@ && views(d.lines@) == danger_lines(
                Seq::empty(),
                ps@[place_of(ps@, row.pid)->0].command@,
                victims(ps@, row.descendant_pids@),
            ),
        }),
{
    let none: Vec<String> = Vec::new();
    assert(views(none@) =~= Seq::empty());
    kill_danger(ps, row, "matar processo", "Matar este processo", none)
}

} // verus!
