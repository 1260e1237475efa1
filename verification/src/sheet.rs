//! The grid of cells and its update engine.

use crate::expr::{
    eval, lemma_eval_reads_refs, lemma_refs_in_grid, refs, Expr, ExprResult, ExprTree, Value,
};
use crate::graph::{
    count_false, cyclic, depends_on, edge, is_dag, lemma_closed_holds_dependents,
    lemma_count_false_falls, lemma_dag_has_no_cycle, lemma_depends_on_itself,
    lemma_depends_through, lemma_rewired_is_cyclic, lemma_rewired_is_dag, ranked, rewired,
    sorted_dependents, topological,
};
use crate::parser::spec_parse;
use std::collections::HashMap;
use std::collections::HashSet;
use vstd::prelude::*;
use vstd::string::*;

verus! {

/// One slot of the grid.
#[derive(Debug)]
pub struct Cell {
    raw: String,
    out: ExprResult,
    expr: ExprTree,
    outbound: HashSet<usize>,
    inbound: HashSet<usize>,
}

/// The mathematical value of a [`Cell`].
pub struct CellView {
    /// The text that was entered.
    pub raw: Seq<char>,
    /// The last computed value.
    pub out: Value,
    /// What `raw` parses to.
    pub expr: Expr,
    /// The indices of the cells that this cell reads.
    pub outbound: Set<usize>,
    /// The indices of the cells that read this cell.
    pub inbound: Set<usize>,
}

/// A cell that was never set: no text, the empty tree, the empty text as
/// value, and no edges.
pub open spec fn blank_cell() -> CellView {
    CellView {
        raw: Seq::empty(),
        out: Value::Text(Seq::empty()),
        expr: Expr::Empty,
        outbound: Set::empty(),
        inbound: Set::empty(),
    }
}

impl View for Cell {
    type V = CellView;

    closed spec fn view(&self) -> CellView {
        CellView {
            raw: self.raw@,
            out: self.out@,
            expr: self.expr@,
            outbound: self.outbound@,
            inbound: self.inbound@,
        }
    }
}

impl Default for Cell {
    fn default() -> (c: Self)
        ensures
            c@ == blank_cell(),
    {
        Cell {
            raw: String::new(),
            expr: ExprTree::Empty,
            out: ExprResult::Text(String::new()),
            outbound: HashSet::new(),
            inbound: HashSet::new(),
        }
    }
}

impl Clone for Cell {
    fn clone(&self) -> (c: Self)
        ensures
            c@ == self@,
    {
        Cell {
            raw: self.raw.clone(),
            out: self.out.clone(),
            expr: self.expr.clone(),
            outbound: copy_set(&self.outbound),
            inbound: copy_set(&self.inbound),
        }
    }
}

impl Cell {
    fn new() -> (c: Cell)
        ensures
            c@ == blank_cell(),
    {
        Default::default()
    }

    /// The last computed value of the cell.
    pub fn out(&self) -> (out: &ExprResult)
        ensures
            out@ == self@.out,
    {
        &self.out
    }

    /// The text that was entered into the cell.
    pub fn raw(&self) -> (raw: &str)
        ensures
            raw@ == self@.raw,
    {
        self.raw.as_str()
    }

    /// What the text of the cell parses to.
    pub fn expr(&self) -> (expr: &ExprTree)
        ensures
            expr@ == self@.expr,
    {
        &self.expr
    }

    /// The indices of the cells that this cell reads, each once.
    pub fn outbound(&self) -> (list: Vec<usize>)
        ensures
            list@.no_duplicates(),
            forall|j: usize| list@.contains(j) <==> self@.outbound.contains(j),
    {
        members(&self.outbound)
    }

    /// The indices of the cells that read this cell, each once.
    pub fn inbound(&self) -> (list: Vec<usize>)
        ensures
            list@.no_duplicates(),
            forall|i: usize| list@.contains(i) <==> self@.inbound.contains(i),
    {
        members(&self.inbound)
    }
}

/// Why an update was refused.
#[derive(Clone, Copy, Debug, PartialEq, Eq, Structural)]
pub enum SetError {
    /// The coordinate names no cell of the grid.
    OutOfBounds,
    /// The new text would make a cell depend on itself.
    CycleDetected,
}

/// A grid of fixed width and height, stored row by row.
#[derive(Debug)]
pub struct Spreadsheet {
    width: usize,
    height: usize,
    cells: Vec<Cell>,
}

/// The mathematical value of a [`Spreadsheet`].
pub struct SheetView {
    pub width: usize,
    pub height: usize,
    /// The cells, row by row: the cell at `(row, col)` is at `row * width + col`.
    pub cells: Seq<CellView>,
}

impl SheetView {
    /// Whether `(row, col)` names a cell of the grid.
    pub open spec fn in_grid(self, row: usize, col: usize) -> bool {
        row < self.height && col < self.width
    }

    /// The flat index of the cell at `(row, col)`.
    pub open spec fn index_of(self, row: usize, col: usize) -> int {
        row * self.width + col
    }

    /// There is one cell for each coordinate, and their number fits the
    /// machine's word.
    pub open spec fn is_grid(self) -> bool {
        self.cells.len() == self.width * self.height <= usize::MAX
    }

    /// The graph of references: the successors of a cell are the cells that
    /// it reads.
    pub open spec fn graph(self) -> Seq<Set<usize>> {
        Seq::new(self.cells.len(), |i: int| self.cells[i].outbound)
    }

    /// The tree of every cell is what its text parses to.
    pub open spec fn parsed(self) -> bool {
        forall|i: int|
            0 <= i < self.cells.len() ==> (#[trigger] self.cells[i]).expr == spec_parse(
                self.cells[i].raw,
            )
    }

    /// Every cell reads exactly the cells that its tree refers to.
    pub open spec fn linked(self) -> bool {
        forall|i: int|
            0 <= i < self.cells.len() ==> (#[trigger] self.cells[i]).outbound == refs(
                self.cells[i].expr,
                self.width,
                self.height,
            )
    }

    /// The two directions of the edges agree: `i` is among the readers of
    /// `j` exactly if `i` reads `j`.
    pub open spec fn mirrored(self) -> bool {
        forall|i: usize, j: usize|
            j < self.cells.len() ==> (#[trigger] self.cells[j as int].inbound.contains(i) <==> edge(
                self.graph(),
                i,
                j,
            ))
    }

    /// The graph of references has no cycle.
    pub open spec fn acyclic(self) -> bool {
        is_dag(self.graph())
    }

    /// The value of every cell is what its tree evaluates to over the grid.
    pub open spec fn evaluated(self) -> bool {
        forall|i: int|
            0 <= i < self.cells.len() ==> (#[trigger] self.cells[i]).out == eval(
                self.cells[i].expr,
                self,
            )
    }

    /// The state of a grid between two updates.
    pub open spec fn wf(self) -> bool {
        &&& self.is_grid()
        &&& self.parsed()
        &&& self.linked()
        &&& self.mirrored()
        &&& self.acyclic()
        &&& self.evaluated()
    }

    /// The texts of the cells.
    pub open spec fn raws(self) -> Seq<Seq<char>> {
        Seq::new(self.cells.len(), |i: int| self.cells[i].raw)
    }

    /// The graph of references once the cell at `idx` holds the text `raw`.
    pub open spec fn graph_with(self, idx: int, raw: Seq<char>) -> Seq<Set<usize>> {
        rewired(self.graph(), idx as usize, refs(spec_parse(raw), self.width, self.height))
    }
}

impl View for Spreadsheet {
    type V = SheetView;

    closed spec fn view(&self) -> SheetView {
        SheetView {
            width: self.width,
            height: self.height,
            cells: self.cells@.map_values(|c: Cell| c@),
        }
    }
}

/// The two grids have the same size.
pub open spec fn same_size(a: SheetView, b: SheetView) -> bool {
    a.width == b.width && a.height == b.height && a.cells.len() == b.cells.len()
}

/// The two grids have the same size and their cells the same texts, trees
/// and edges; the values may differ.
pub open spec fn same_but_values(a: SheetView, b: SheetView) -> bool {
    &&& a.width == b.width
    &&& a.height == b.height
    &&& a.cells.len() == b.cells.len()
    &&& forall|x: int|
        0 <= x < a.cells.len() ==> {
            &&& (#[trigger] a.cells[x]).raw == b.cells[x].raw
            &&& a.cells[x].expr == b.cells[x].expr
            &&& a.cells[x].outbound == b.cells[x].outbound
            &&& a.cells[x].inbound == b.cells[x].inbound
        }
}

/// The value of the cell `x` is what its tree evaluates to over the grid.
pub open spec fn evaluated_at(s: SheetView, x: int) -> bool {
    s.cells[x].out == eval(s.cells[x].expr, s)
}

/// The cells whose values differ between two grids of one size.
pub open spec fn changed(before: SheetView, after: SheetView) -> Set<usize> {
    Set::new(
        |x: usize| x < before.cells.len() && after.cells[x as int].out != before.cells[x as int].out,
    )
}

/// In a grid, the flat index of a coordinate of the grid is the index of a cell.
pub proof fn lemma_index_in_range(grid: SheetView, row: usize, col: usize)
    requires
        grid.is_grid(),
        grid.in_grid(row, col),
    ensures
        0 <= grid.index_of(row, col) < grid.cells.len(),
{
    assert(row * grid.width + col < grid.width * grid.height) by (nonlinear_arith)
        requires
            row < grid.height,
            col < grid.width,
    ;
}

/// A grid of blank cells is well-formed.
pub proof fn lemma_blank_grid_is_well_formed(grid: SheetView)
    requires
        grid.is_grid(),
        forall|i: int| 0 <= i < grid.cells.len() ==> grid.cells[i] == blank_cell(),
    ensures
        grid.wf(),
{
    let rank = Seq::new(grid.cells.len(), |i: int| 0nat);
    assert(ranked(grid.graph(), rank));
    assert(grid.linked()) by {
        assert forall|i: int| 0 <= i < grid.cells.len() implies (#[trigger] grid.cells[i]).outbound
            == refs(grid.cells[i].expr, grid.width, grid.height) by {
            assert(refs(Expr::Empty, grid.width, grid.height) =~= Set::<usize>::empty());
        }
    }
}

impl Spreadsheet {
    /// A grid of blank cells.
    pub fn new(width: usize, height: usize) -> (ss: Spreadsheet)
        requires
            width * height <= usize::MAX,
        ensures
            ss@.width == width,
            ss@.height == height,
            ss@.cells == Seq::new((width * height) as nat, |i: int| blank_cell()),
            ss@.wf(),
    {
        let n = width * height;
        let mut cells: Vec<Cell> = Vec::new();
        let mut i: usize = 0;
        while i < n
            invariant
                i <= n,
                cells@.len() == i,
                forall|k: int| 0 <= k < i ==> (#[trigger] cells@[k])@ == blank_cell(),
            decreases n - i,
        {
            cells.push(Cell::new());
            i += 1;
        }
        let ss = Spreadsheet { width, height, cells };
        assert(ss@.cells =~= Seq::new((width * height) as nat, |i: int| blank_cell()));
        proof {
            lemma_blank_grid_is_well_formed(ss@);
        }
        ss
    }

    /// The number of columns.
    pub fn width(&self) -> (w: usize)
        ensures
            w == self@.width,
    {
        self.width
    }

    /// The number of rows.
    pub fn height(&self) -> (h: usize)
        ensures
            h == self@.height,
    {
        self.height
    }

    /// A copy of every cell, row by row.
    pub fn cells(&self) -> (all: Vec<Cell>)
        ensures
            all@.len() == self@.cells.len(),
            forall|i: int| 0 <= i < all@.len() ==> (#[trigger] all@[i])@ == self@.cells[i],
    {
        let mut all: Vec<Cell> = Vec::new();
        let mut i: usize = 0;
        while i < self.cells.len()
            invariant
                i <= self.cells.len(),
                all@.len() == i,
                forall|k: int| 0 <= k < i ==> (#[trigger] all@[k])@ == self@.cells[k],
            decreases self.cells.len() - i,
        {
            all.push(self.cells[i].clone());
            i += 1;
        }
        all
    }

    /// The flat index of the cell at `(row, col)`.
    pub fn get_index(&self, row: usize, col: usize) -> (idx: usize)
        requires
            self@.is_grid(),
            self@.in_grid(row, col),
        ensures
            idx == self@.index_of(row, col),
            idx < self@.cells.len(),
    {
        let n = self.cells.len();
        proof {
            lemma_index_in_range(self@, row, col);
            assert(self@.cells.len() == n);
            assert(0 <= row * self.width) by (nonlinear_arith);
        }
        row * self.width + col
    }

    /// The cell at `(row, col)`.
    pub fn get(&self, row: usize, col: usize) -> (cell: &Cell)
        requires
            self@.is_grid(),
            self@.in_grid(row, col),
        ensures
            cell@ == self@.cells[self@.index_of(row, col)],
    {
        let idx = self.get_index(row, col);
        &self.cells[idx]
    }

    /// Sets the text of the cell at `(row, col)`, and evaluates anew that
    /// cell and every cell that depends on it, each after the cells that it
    /// reads.
    ///
    /// The update is refused, and the grid left as it was, where the
    /// coordinate names no cell of the grid, and where the new text would
    /// close a cycle of references. A text that does not parse is no
    /// failure: the cell then holds an error. On success the grid is the
    /// well-formed grid of the new texts, and the result holds, under its
    /// index, each cell whose value is another than before the call.
    pub fn set(&mut self, row: usize, col: usize, raw: &str) -> (r: Result<
        HashMap<usize, Cell>,
        SetError,
    >)
        requires
            old(self)@.wf(),
        ensures
            final(self)@.wf(),
            same_size(old(self)@, final(self)@),
            match r {
                Ok(changes) => {
                    &&& old(self)@.in_grid(row, col)
                    &&& !cyclic(old(self)@.graph_with(old(self)@.index_of(row, col), raw@))
                    &&& final(self)@.raws() == old(self)@.raws().update(
                        old(self)@.index_of(row, col),
                        raw@,
                    )
                    &&& forall|x: usize|
                        x < old(self)@.cells.len() && !depends_on(
                            old(self)@.graph(),
                            x,
                            old(self)@.index_of(row, col) as usize,
                        ) ==> (#[trigger] final(self)@.cells[x as int]).out
                            == old(self)@.cells[x as int].out
                    &&& changes@.dom() == changed(old(self)@, final(self)@)
                    &&& forall|x: usize| #[trigger]
                        changes@.contains_key(x) ==> changes@[x]@ == final(self)@.cells[x as int]
                },
                Err(SetError::OutOfBounds) => {
                    &&& !old(self)@.in_grid(row, col)
                    &&& final(self)@ == old(self)@
                },
                Err(SetError::CycleDetected) => {
                    &&& old(self)@.in_grid(row, col)
                    &&& cyclic(old(self)@.graph_with(old(self)@.index_of(row, col), raw@))
                    &&& final(self)@ == old(self)@
                },
            },
    {
        if col >= self.width || row >= self.height {
            return Err(SetError::OutOfBounds);
        }
        let ghost s0 = self@;
        let ghost g0 = self@.graph();
        let cur = self.get_index(row, col);
        let expr = ExprTree::new(raw);
        let mut outbound: HashSet<usize> = HashSet::new();
        expr.fill_outbound(self, &mut outbound);
        proof {
            assert(outbound@ =~= refs(expr@, s0.width, s0.height));
            assert forall|j: usize| outbound@.contains(j) implies j < s0.cells.len() by {
                lemma_refs_in_grid(expr@, s0.width, s0.height, j);
            }
        }
        // The references of a directed acyclic graph can be sorted: this
        // is the order in which the cells are evaluated anew.
        let eval_order = self.toposort_inbound(cur);
        if self.has_cycle(cur, &outbound, &eval_order) {
            return Err(SetError::CycleDetected);
        }
        self.install(cur, raw, expr, outbound);
        let ghost s1 = self@;
        proof {
            let g1 = s1.graph();
            lemma_depends_on_itself(g0, cur);
            assert forall|k: int| 0 <= k < eval_order@.len() implies #[trigger] eval_order@[k]
                < s1.cells.len() by {
                assert(eval_order@.contains(eval_order@[k]));
                let p = choose|p: Seq<usize>| #[trigger]
                    crate::graph::leads_to(g0, p, cur) && p[0] == eval_order@[k];
            }
            assert forall|a: usize, b: usize| #[trigger]
                edge(g1, a, b) && eval_order@.contains(b) implies eval_order@.contains(a) by {
                if a != cur {
                    assert(edge(g0, a, b));
                    lemma_depends_through(g0, a, b, cur);
                }
            }
            assert forall|x: usize|
                x < s1.cells.len() && !eval_order@.contains(x) implies evaluated_at(s1, x as int) by {
                assert(s0.cells[x as int].out == eval(s0.cells[x as int].expr, s0));
                assert(s1.cells[x as int].out == s0.cells[x as int].out);
                assert(s1.cells[x as int].expr == s0.cells[x as int].expr);
                assert forall|j: usize| #[trigger]
                    refs(s0.cells[x as int].expr, s0.width, s0.height).contains(
                        j,
                    ) implies s0.cells[j as int].out == s1.cells[j as int].out by {
                    lemma_refs_in_grid(s0.cells[x as int].expr, s0.width, s0.height, j);
                    assert(s1.cells[j as int].out == s0.cells[j as int].out);
                }
                lemma_eval_reads_refs(s0.cells[x as int].expr, s0, s1);
            }
        }
        let changes = self.recompute(&eval_order);
        proof {
            let s2 = self@;
            assert(s2.graph() =~= s1.graph());
            assert(s2.raws() =~= s1.raws());
            assert(s2.parsed()) by {
                assert forall|i: int| 0 <= i < s2.cells.len() implies (#[trigger] s2.cells[i]).expr
                    == spec_parse(s2.cells[i].raw) by {
                    assert(s1.cells[i].expr == spec_parse(s1.cells[i].raw));
                }
            }
            assert(s2.linked()) by {
                assert forall|i: int| 0 <= i < s2.cells.len() implies (#[trigger] s2.cells[i]).outbound
                    == refs(s2.cells[i].expr, s2.width, s2.height) by {
                    assert(s1.cells[i].outbound == refs(s1.cells[i].expr, s1.width, s1.height));
                }
            }
            assert(s2.mirrored()) by {
                assert forall|i: usize, j: usize| j < s2.cells.len() implies (#[trigger] s2.cells[j as int]
                    .inbound.contains(i) <==> edge(s2.graph(), i, j)) by {
                    assert(s1.cells[j as int].inbound.contains(i) <==> edge(s1.graph(), i, j));
                }
            }
            assert forall|x: usize|
                x < s0.cells.len() && !depends_on(g0, x, cur) implies (#[trigger] s2.cells[x as int]).out
                == s0.cells[x as int].out by {
                assert(!eval_order@.contains(x));
                assert(s1.cells[x as int].out == s0.cells[x as int].out);
            }
            assert(changed(s1, s2) =~= changed(s0, s2)) by {
                assert forall|x: usize| changed(s1, s2).contains(x) <==> changed(s0, s2).contains(
                    x,
                ) by {
                    if x < s0.cells.len() {
                        assert(s1.cells[x as int].out == s0.cells[x as int].out);
                    }
                }
            }
        }
        Ok(changes)
    }
}

impl Default for Spreadsheet {
    /// A grid of 26 columns and 100 rows.
    fn default() -> (ss: Self)
        ensures
            ss@.width == 26,
            ss@.height == 100,
            ss@.cells == Seq::new(2600, |i: int| blank_cell()),
            ss@.wf(),
    {
        Spreadsheet::new(26, 100)
    }
}

/// The members of a set, each once, in the order in which the set hands
/// them out.
fn members(set: &HashSet<usize>) -> (list: Vec<usize>)
    ensures
        list@.no_duplicates(),
        forall|x: usize| list@.contains(x) <==> set@.contains(x),
{
    broadcast use vstd::std_specs::hash::group_hash_axioms;
    let mut list: Vec<usize> = Vec::new();
    for x in it: set.iter()
        invariant
            list@.len() == it.index(),
            forall|k: int| 0 <= k < list@.len() ==> list@[k] == *it.seq()[k],
            it.seq().unref().to_set() == set@,
            it.seq().no_duplicates(),
        ensures
            list@ =~= it.seq().unref(),
    {
        list.push(*x);
    }
    assert(list@.to_set() == set@);
    assert forall|x: usize| list@.contains(x) <==> set@.contains(x) by {
        assert(list@.to_set().contains(x) <==> list@.contains(x));
    }
    list
}

/// A set with the same members.
fn copy_set(set: &HashSet<usize>) -> (copy: HashSet<usize>)
    ensures
        copy@ == set@,
{
    broadcast use vstd::std_specs::hash::group_hash_axioms;
    let list = members(set);
    let mut copy: HashSet<usize> = HashSet::new();
    let mut i: usize = 0;
    while i < list.len()
        invariant
            i <= list.len(),
            forall|x: usize| copy@.contains(x) <==> exists|k: int| 0 <= k < i && list@[k] == x,
        decreases list.len() - i,
    {
        let ghost before = copy@;
        copy.insert(list[i]);
        proof {
            assert forall|x: usize| copy@.contains(x) <==> exists|k: int|
                0 <= k < i + 1 && list@[k] == x by {
                if before.contains(x) {
                    let k = choose|k: int| 0 <= k < i && list@[k] == x;
                    assert(0 <= k < i + 1 && list@[k] == x);
                }
                if x == list@[i as int] {
                    assert(0 <= i < i + 1 && list@[i as int] == x);
                }
            }
        }
        i += 1;
    }
    proof {
        assert forall|x: usize| copy@.contains(x) <==> set@.contains(x) by {
            if set@.contains(x) {
                assert(list@.contains(x));
                let k = choose|k: int| 0 <= k < list@.len() && list@[k] == x;
                assert(0 <= k < i && list@[k] == x);
            }
            if copy@.contains(x) {
                let k = choose|k: int| 0 <= k < i && list@[k] == x;
                assert(list@.contains(x));
            }
        }
        assert(copy@ =~= set@);
    }
    copy
}

/// The cell with other readers.
pub open spec fn with_inbound(c: CellView, inbound: Set<usize>) -> CellView {
    CellView { raw: c.raw, out: c.out, expr: c.expr, outbound: c.outbound, inbound }
}

/// The readers of a cell once `cur` reads other cells than before: `cur`
/// leaves them if it read the cell, and joins them if it reads the cell now.
pub open spec fn relinked(inbound: Set<usize>, cur: usize, was_read: bool, is_read: bool) -> Set<
    usize,
> {
    let without = if was_read {
        inbound.remove(cur)
    } else {
        inbound
    };
    if is_read {
        without.insert(cur)
    } else {
        without
    }
}

/// Storing a value in the cell `idx` leaves every cell that does not read
/// `idx` evaluated, and leaves `idx` evaluated if the value is what its
/// tree evaluates to.
proof fn lemma_store_keeps_values(a: SheetView, b: SheetView, idx: usize, y: usize)
    requires
        a.is_grid(),
        a.linked(),
        same_but_values(a, b),
        idx < a.cells.len(),
        y < a.cells.len(),
        forall|x: int| 0 <= x < a.cells.len() && x != idx ==> a.cells[x].out == b.cells[x].out,
        !edge(a.graph(), y, idx),
        y != idx ==> evaluated_at(a, y as int),
        y == idx ==> b.cells[y as int].out == eval(a.cells[y as int].expr, a),
    ensures
        evaluated_at(b, y as int),
{
    let e = a.cells[y as int].expr;
    assert forall|j: usize| #[trigger] refs(e, a.width, a.height).contains(j) implies a.cells[j as int].out
        == b.cells[j as int].out by {
        lemma_refs_in_grid(e, a.width, a.height, j);
        assert(a.cells[y as int].outbound.contains(j));
        assert(a.graph()[y as int].contains(j));
    }
    lemma_eval_reads_refs(e, a, b);
}

impl Spreadsheet {
    /// Gives the cell `cur` a new text with its tree and the cells that it
    /// reads, and brings the readers of the cells that it read and reads up
    /// to date. The readers of `cur` stay, and so do all values.
    fn install(&mut self, cur: usize, raw: &str, expr: ExprTree, outbound: HashSet<usize>)
        requires
            old(self)@.is_grid(),
            old(self)@.parsed(),
            old(self)@.linked(),
            old(self)@.mirrored(),
            cur < old(self)@.cells.len(),
            expr@ == spec_parse(raw@),
            outbound@ == refs(expr@, old(self)@.width, old(self)@.height),
        ensures
            same_size(old(self)@, final(self)@),
            final(self)@.is_grid(),
            final(self)@.parsed(),
            final(self)@.linked(),
            final(self)@.mirrored(),
            final(self)@.graph() == old(self)@.graph_with(cur as int, raw@),
            final(self)@.raws() == old(self)@.raws().update(cur as int, raw@),
            forall|x: int|
                0 <= x < old(self)@.cells.len() ==> (#[trigger] final(self)@.cells[x]).out == old(
                    self,
                )@.cells[x].out,
            forall|x: int|
                0 <= x < old(self)@.cells.len() && x != cur ==> (#[trigger] final(self)@.cells[x]).expr
                    == old(self)@.cells[x].expr,
    {
        let ghost s0 = self@;
        let ghost n = self@.cells.len();
        let ghost old_out = self@.cells[cur as int].outbound;
        let ghost new_out = outbound@;
        let old_reads = members(&self.cells[cur].outbound);
        let new_reads = members(&outbound);
        proof {
            assert(self.cells@[cur as int].outbound@ == old_out);
            assert forall|k: int| 0 <= k < old_reads@.len() implies #[trigger] old_reads@[k] < n by {
                assert(old_reads@.contains(old_reads@[k]));
                lemma_refs_in_grid(s0.cells[cur as int].expr, s0.width, s0.height, old_reads@[k]);
            }
            assert forall|k: int| 0 <= k < new_reads@.len() implies #[trigger] new_reads@[k] < n by {
                assert(new_reads@.contains(new_reads@[k]));
                lemma_refs_in_grid(expr@, s0.width, s0.height, new_reads@[k]);
            }
        }
        self.unlink(cur, &old_reads);
        let ghost s1 = self@;
        self.cells[cur].raw = String::from_str(raw);
        self.cells[cur].expr = expr;
        self.cells[cur].outbound = outbound;
        let ghost s2 = self@;
        proof {
            assert(same_size(s1, s2));
            assert forall|x: usize| x < n implies #[trigger] s2.cells[x as int] == (if x == cur {
                CellView {
                    raw: raw@,
                    out: s1.cells[x as int].out,
                    expr: spec_parse(raw@),
                    outbound: new_out,
                    inbound: s1.cells[x as int].inbound,
                }
            } else {
                s1.cells[x as int]
            }) by {}
        }
        self.link(cur, &new_reads);
        proof {
            let s3 = self@;
            assert forall|x: usize| x < n implies {
                &&& (#[trigger] s3.cells[x as int]).out == s0.cells[x as int].out
                &&& s3.cells[x as int].raw == (if x == cur {
                    raw@
                } else {
                    s0.cells[x as int].raw
                })
                &&& s3.cells[x as int].expr == (if x == cur {
                    spec_parse(raw@)
                } else {
                    s0.cells[x as int].expr
                })
                &&& s3.cells[x as int].outbound == (if x == cur {
                    new_out
                } else {
                    s0.cells[x as int].outbound
                })
                &&& s3.cells[x as int].inbound == relinked(
                    s0.cells[x as int].inbound,
                    cur,
                    old_out.contains(x),
                    new_out.contains(x),
                )
            } by {
                assert(s1.cells[x as int] == with_inbound(
                    s0.cells[x as int],
                    if old_reads@.contains(x) {
                        s0.cells[x as int].inbound.remove(cur)
                    } else {
                        s0.cells[x as int].inbound
                    },
                ));
                assert(s3.cells[x as int] == with_inbound(
                    s2.cells[x as int],
                    if new_reads@.contains(x) {
                        s2.cells[x as int].inbound.insert(cur)
                    } else {
                        s2.cells[x as int].inbound
                    },
                ));
            }
            assert(s3.graph() =~= s0.graph_with(cur as int, raw@));
            assert(s3.raws() =~= s0.raws().update(cur as int, raw@));
            assert forall|i: int| 0 <= i < s3.cells.len() implies (#[trigger] s3.cells[i]).expr
                == spec_parse(s3.cells[i].raw) by {
                let x = i as usize;
                assert(s3.cells[x as int].raw == (if x == cur {
                    raw@
                } else {
                    s0.cells[x as int].raw
                }));
                assert(s0.cells[i].expr == spec_parse(s0.cells[i].raw));
            }
            assert forall|i: int| 0 <= i < s3.cells.len() implies (#[trigger] s3.cells[i]).outbound
                == refs(s3.cells[i].expr, s3.width, s3.height) by {
                let x = i as usize;
                assert(s3.cells[x as int].out == s0.cells[x as int].out);
                assert(s0.cells[i].outbound == refs(s0.cells[i].expr, s0.width, s0.height));
            }
            assert forall|i: usize, j: usize| j < s3.cells.len() implies (#[trigger] s3.cells[j as int]
                .inbound.contains(i) <==> edge(s3.graph(), i, j)) by {
                assert(s3.cells[j as int].out == s0.cells[j as int].out);
                assert(s0.cells[j as int].inbound.contains(i) <==> edge(s0.graph(), i, j));
                if i == cur {
                    assert(new_out.contains(j) ==> j < n);
                } else if i < n {
                    assert(s3.cells[i as int].out == s0.cells[i as int].out);
                }
            }
            assert forall|x: int| 0 <= x < n implies (#[trigger] s3.cells[x]).out
                == s0.cells[x].out by {
                let y = x as usize;
                assert(s3.cells[y as int].out == s0.cells[y as int].out);
            }
            assert forall|x: int| 0 <= x < n && x != cur implies (#[trigger] s3.cells[x]).expr
                == s0.cells[x].expr by {
                let y = x as usize;
                assert(s3.cells[y as int].out == s0.cells[y as int].out);
            }
        }
    }

    /// Takes `cur` out of the readers of each of the cells of `targets`.
    fn unlink(&mut self, cur: usize, targets: &Vec<usize>)
        requires
            forall|k: int| 0 <= k < targets@.len() ==> #[trigger] targets@[k] < old(self)@.cells.len(),
        ensures
            same_size(old(self)@, final(self)@),
            forall|x: usize|
                x < old(self)@.cells.len() ==> (#[trigger] final(self)@.cells[x as int]) == with_inbound(
                    old(self)@.cells[x as int],
                    if targets@.contains(x) {
                        old(self)@.cells[x as int].inbound.remove(cur)
                    } else {
                        old(self)@.cells[x as int].inbound
                    },
                ),
    {
        broadcast use vstd::std_specs::hash::group_hash_axioms;
        let ghost before = self@;
        let mut i: usize = 0;
        while i < targets.len()
            invariant
                i <= targets.len(),
                same_size(before, self@),
                forall|k: int| 0 <= k < targets@.len() ==> #[trigger] targets@[k] < before.cells.len(),
                forall|x: usize|
                    x < before.cells.len() ==> (#[trigger] self@.cells[x as int]) == with_inbound(
                        before.cells[x as int],
                        if targets@.take(i as int).contains(x) {
                            before.cells[x as int].inbound.remove(cur)
                        } else {
                            before.cells[x as int].inbound
                        },
                    ),
            decreases targets.len() - i,
        {
            let j = targets[i];
            let ghost mid = self@;
            let ghost taken = targets@.take(i as int);
            self.cells[j].inbound.remove(&cur);
            proof {
                let now = targets@.take(i + 1);
                assert(now =~= taken.push(j));
                assert forall|x: usize| x < before.cells.len() implies (#[trigger] self@.cells[x as int])
                    == with_inbound(
                    before.cells[x as int],
                    if now.contains(x) {
                        before.cells[x as int].inbound.remove(cur)
                    } else {
                        before.cells[x as int].inbound
                    },
                ) by {
                    assert(self@.cells[x as int] == if x == j {
                        with_inbound(mid.cells[x as int], mid.cells[x as int].inbound.remove(cur))
                    } else {
                        mid.cells[x as int]
                    });
                    if taken.contains(x) {
                        let k = choose|k: int| 0 <= k < taken.len() && taken[k] == x;
                        assert(now[k] == x);
                    }
                    if x == j {
                        assert(now[i as int] == j);
                        assert(before.cells[x as int].inbound.remove(cur).remove(cur)
                            =~= before.cells[x as int].inbound.remove(cur));
                    }
                    if now.contains(x) && x != j {
                        let k = choose|k: int| 0 <= k < now.len() && now[k] == x;
                        assert(k < taken.len());
                        assert(taken[k] == x);
                    }
                }
            }
            i += 1;
        }
        assert(targets@.take(targets@.len() as int) =~= targets@);
    }

    /// Puts `cur` among the readers of each of the cells of `targets`.
    fn link(&mut self, cur: usize, targets: &Vec<usize>)
        requires
            forall|k: int| 0 <= k < targets@.len() ==> #[trigger] targets@[k] < old(self)@.cells.len(),
        ensures
            same_size(old(self)@, final(self)@),
            forall|x: usize|
                x < old(self)@.cells.len() ==> (#[trigger] final(self)@.cells[x as int]) == with_inbound(
                    old(self)@.cells[x as int],
                    if targets@.contains(x) {
                        old(self)@.cells[x as int].inbound.insert(cur)
                    } else {
                        old(self)@.cells[x as int].inbound
                    },
                ),
    {
        broadcast use vstd::std_specs::hash::group_hash_axioms;
        let ghost before = self@;
        let mut i: usize = 0;
        while i < targets.len()
            invariant
                i <= targets.len(),
                same_size(before, self@),
                forall|k: int| 0 <= k < targets@.len() ==> #[trigger] targets@[k] < before.cells.len(),
                forall|x: usize|
                    x < before.cells.len() ==> (#[trigger] self@.cells[x as int]) == with_inbound(
                        before.cells[x as int],
                        if targets@.take(i as int).contains(x) {
                            before.cells[x as int].inbound.insert(cur)
                        } else {
                            before.cells[x as int].inbound
                        },
                    ),
            decreases targets.len() - i,
        {
            let j = targets[i];
            let ghost mid = self@;
            let ghost taken = targets@.take(i as int);
            self.cells[j].inbound.insert(cur);
            proof {
                let now = targets@.take(i + 1);
                assert(now =~= taken.push(j));
                assert forall|x: usize| x < before.cells.len() implies (#[trigger] self@.cells[x as int])
                    == with_inbound(
                    before.cells[x as int],
                    if now.contains(x) {
                        before.cells[x as int].inbound.insert(cur)
                    } else {
                        before.cells[x as int].inbound
                    },
                ) by {
                    assert(self@.cells[x as int] == if x == j {
                        with_inbound(mid.cells[x as int], mid.cells[x as int].inbound.insert(cur))
                    } else {
                        mid.cells[x as int]
                    });
                    if taken.contains(x) {
                        let k = choose|k: int| 0 <= k < taken.len() && taken[k] == x;
                        assert(now[k] == x);
                    }
                    if x == j {
                        assert(now[i as int] == j);
                        assert(before.cells[x as int].inbound.insert(cur).insert(cur)
                            =~= before.cells[x as int].inbound.insert(cur));
                    }
                    if now.contains(x) && x != j {
                        let k = choose|k: int| 0 <= k < now.len() && now[k] == x;
                        assert(k < taken.len());
                        assert(taken[k] == x);
                    }
                }
            }
            i += 1;
        }
        assert(targets@.take(targets@.len() as int) =~= targets@);
    }

    /// Evaluates the cells of `order` one after the other and stores their
    /// values. Returns the cells whose value is another than before.
    fn recompute(&mut self, order: &Vec<usize>) -> (changes: HashMap<usize, Cell>)
        requires
            old(self)@.is_grid(),
            old(self)@.linked(),
            order@.no_duplicates(),
            forall|k: int| 0 <= k < order@.len() ==> #[trigger] order@[k] < old(self)@.cells.len(),
            topological(old(self)@.graph(), order@),
            forall|a: usize, b: usize| #[trigger]
                edge(old(self)@.graph(), a, b) && order@.contains(b) ==> order@.contains(a),
            forall|x: usize|
                x < old(self)@.cells.len() && !order@.contains(x) ==> evaluated_at(
                    old(self)@,
                    x as int,
                ),
        ensures
            same_but_values(old(self)@, final(self)@),
            final(self)@.evaluated(),
            forall|x: usize|
                x < old(self)@.cells.len() && !order@.contains(x) ==> (#[trigger] final(self)@.cells[x as int]).out
                    == old(self)@.cells[x as int].out,
            changes@.dom() =~= changed(old(self)@, final(self)@),
            forall|x: usize| #[trigger]
                changes@.contains_key(x) ==> changes@[x]@ == final(self)@.cells[x as int],
    {
        broadcast use vstd::std_specs::hash::group_hash_axioms;
        let ghost before = self@;
        let ghost g = self@.graph();
        let ghost n = self@.cells.len();
        let mut changes: HashMap<usize, Cell> = HashMap::new();
        let mut k: usize = 0;
        while k < order.len()
            invariant
                k <= order.len(),
                before.is_grid(),
                before.linked(),
                n == before.cells.len(),
                g == before.graph(),
                order@.no_duplicates(),
                forall|i: int| 0 <= i < order@.len() ==> #[trigger] order@[i] < n,
                topological(g, order@),
                forall|a: usize, b: usize| #[trigger]
                    edge(g, a, b) && order@.contains(b) ==> order@.contains(a),
                same_but_values(before, self@),
                forall|x: usize|
                    x < n && !order@.contains(x) ==> (#[trigger] self@.cells[x as int]).out
                        == before.cells[x as int].out,
                forall|i: int|
                    k <= i < order@.len() ==> self@.cells[#[trigger] order@[i] as int].out
                        == before.cells[order@[i] as int].out,
                forall|x: usize| x < n && !order@.contains(x) ==> evaluated_at(self@, x as int),
                forall|i: int| 0 <= i < k ==> evaluated_at(self@, #[trigger] order@[i] as int),
                forall|x: usize|
                    changes@.contains_key(x) <==> x < n && (exists|i: int|
                        0 <= i < k && order@[i] == x) && self@.cells[x as int].out
                        != before.cells[x as int].out,
                forall|x: usize| #[trigger]
                    changes@.contains_key(x) ==> changes@[x]@ == self@.cells[x as int],
            decreases order.len() - k,
        {
            let idx = order[k];
            let ghost mid = self@;
            let ghost mid_changes = changes@;
            assert(mid.is_grid());
            let value = self.cells[idx].expr.eval(self);
            let same = value == self.cells[idx].out;
            self.cells[idx].out = value;
            if !same {
                let copy = self.cells[idx].clone();
                changes.insert(idx, copy);
            }
            proof {
                let now = self@;
                assert(same_but_values(before, now));
                assert(now.graph() =~= g);
                assert(mid.graph() =~= g);
                assert(mid.linked()) by {
                    assert forall|i: int| 0 <= i < mid.cells.len() implies (#[trigger] mid.cells[i]).outbound
                        == refs(mid.cells[i].expr, mid.width, mid.height) by {
                        assert(before.cells[i].outbound == refs(
                            before.cells[i].expr,
                            before.width,
                            before.height,
                        ));
                    }
                }
                assert forall|x: int| 0 <= x < mid.cells.len() && x != idx implies mid.cells[x].out
                    == now.cells[x].out by {}
                assert forall|x: usize| x < n && !order@.contains(x) implies evaluated_at(
                    now,
                    x as int,
                ) by {
                    assert(order@.contains(idx));
                    lemma_store_keeps_values(mid, now, idx, x);
                }
                assert forall|i: int| 0 <= i < k + 1 implies evaluated_at(
                    now,
                    #[trigger] order@[i] as int,
                ) by {
                    assert(!edge(g, order@[i], order@[k as int]));
                    lemma_store_keeps_values(mid, now, idx, order@[i]);
                }
                assert forall|i: int| k + 1 <= i < order@.len() implies now.cells[#[trigger] order@[i] as int].out
                    == before.cells[order@[i] as int].out by {
                    assert(order@[i] != order@[k as int]);
                }
                assert forall|x: usize|
                    changes@.contains_key(x) <==> x < n && (exists|i: int|
                        0 <= i < k + 1 && order@[i] == x) && now.cells[x as int].out
                        != before.cells[x as int].out by {
                    if x == idx {
                        assert(0 <= k < k + 1 && order@[k as int] == x);
                        assert(mid.cells[idx as int].out == before.cells[idx as int].out);
                        assert(!mid_changes.contains_key(idx)) by {
                            if mid_changes.contains_key(idx) {
                                let i = choose|i: int| 0 <= i < k && order@[i] == idx;
                                assert(order@[i] == order@[k as int]);
                            }
                        }
                    } else {
                        if mid_changes.contains_key(x) {
                            let i = choose|i: int| 0 <= i < k && order@[i] == x;
                            assert(0 <= i < k + 1 && order@[i] == x);
                        }
                        if exists|i: int| 0 <= i < k + 1 && order@[i] == x {
                            let i = choose|i: int| 0 <= i < k + 1 && order@[i] == x;
                            assert(i < k);
                        }
                    }
                }
                assert forall|x: usize| #[trigger] changes@.contains_key(x) implies changes@[x]@
                    == now.cells[x as int] by {
                    if x != idx {
                        assert(mid_changes.contains_key(x));
                        assert(changes@[x] == mid_changes[x]);
                    }
                }
            }
            k += 1;
        }
        proof {
            let now = self@;
            assert forall|i: int| 0 <= i < now.cells.len() implies (#[trigger] now.cells[i]).out
                == eval(now.cells[i].expr, now) by {
                let x = i as usize;
                if order@.contains(x) {
                    let j = choose|j: int| 0 <= j < order@.len() && order@[j] == x;
                    assert(evaluated_at(now, order@[j] as int));
                } else {
                    assert(evaluated_at(now, x as int));
                }
            }
            assert forall|x: usize| changes@.dom().contains(x) <==> changed(before, now).contains(
                x,
            ) by {
                if changed(before, now).contains(x) {
                    if !order@.contains(x) {
                        assert(now.cells[x as int].out == before.cells[x as int].out);
                    } else {
                        let j = choose|j: int| 0 <= j < order@.len() && order@[j] == x;
                        assert(0 <= j < k && order@[j] == x);
                    }
                }
            }
        }
        changes
    }
}

/// What is known while the dependents of `start` are searched for: the
/// marked nodes are those of `found`, each depends on `start`, the stack
/// holds marked nodes, and every predecessor of a marked node is marked
/// unless the node is in `open`.
spec fn marking(
    g: Seq<Set<usize>>,
    start: usize,
    marked: Seq<bool>,
    found: Seq<usize>,
    stack: Seq<usize>,
    open: Set<usize>,
) -> bool {
    &&& marked.len() == g.len()
    &&& start < g.len()
    &&& marked[start as int]
    &&& found.no_duplicates()
    &&& forall|x: usize| found.contains(x) <==> x < g.len() && marked[x as int]
    &&& forall|k: int| 0 <= k < stack.len() ==> #[trigger] stack[k] < g.len() && marked[stack[k] as int]
    &&& forall|x: usize| x < g.len() && #[trigger] marked[x as int] ==> depends_on(g, x, start)
    &&& forall|a: usize, b: usize| #[trigger]
        edge(g, a, b) && marked[b as int] && !open.contains(b) ==> marked[a as int]
}

impl Spreadsheet {
    /// Marks the unmarked readers of `x` and puts them on the stack.
    fn mark_readers(
        &self,
        x: usize,
        marked: &mut Vec<bool>,
        found: &mut Vec<usize>,
        stack: &mut Vec<usize>,
        Ghost(start): Ghost<usize>,
    )
        requires
            self@.is_grid(),
            self@.mirrored(),
            x < self@.cells.len(),
            old(marked)@.len() == self@.cells.len(),
            old(marked)@[x as int],
            marking(
                self@.graph(),
                start,
                old(marked)@,
                old(found)@,
                old(stack)@,
                old(stack)@.to_set().insert(x),
            ),
        ensures
            marking(
                self@.graph(),
                start,
                final(marked)@,
                final(found)@,
                final(stack)@,
                final(stack)@.to_set(),
            ),
            count_false(final(marked)@) <= count_false(old(marked)@),
            count_false(final(marked)@) == count_false(old(marked)@) ==> final(stack)@ == old(
                stack,
            )@,
    {
        let ghost g = self@.graph();
        let readers = members(&self.cells[x].inbound);
        assert forall|r: usize| readers@.contains(r) <==> edge(g, r, x) by {
            assert(self@.cells[x as int].inbound == self.cells@[x as int].inbound@);
            assert(self@.cells[x as int].inbound.contains(r) <==> edge(g, r, x));
        }
        let mut i: usize = 0;
        while i < readers.len()
            invariant
                i <= readers.len(),
                g == self@.graph(),
                x < g.len(),
                forall|r: usize| readers@.contains(r) <==> edge(g, r, x),
                marking(g, start, marked@, found@, stack@, stack@.to_set().insert(x)),
                marked@[x as int],
                forall|k: int| 0 <= k < i ==> marked@[#[trigger] readers@[k] as int],
                count_false(marked@) <= count_false(old(marked)@),
                count_false(marked@) == count_false(old(marked)@) ==> stack@ == old(stack)@,
            decreases readers.len() - i,
        {
            let r = readers[i];
            assert(readers@.contains(r));
            assert(edge(g, r, x));
            if !marked[r] {
                let ghost marked0 = marked@;
                let ghost found0 = found@;
                let ghost stack0 = stack@;
                marked[r] = true;
                found.push(r);
                stack.push(r);
                proof {
                    lemma_count_false_falls(marked0, r as int);
                    lemma_depends_through(g, r, x, start);
                    assert(marked@ == marked0.update(r as int, true));
                    assert forall|k: int| 0 <= k < i + 1 implies marked@[#[trigger] readers@[k] as int] by {
                        assert(readers@.contains(readers@[k]));
                        if k < i {
                            assert(marked0[readers@[k] as int]);
                        }
                    }
                    assert forall|y: usize| found@.contains(y) <==> y < g.len() && marked@[y as int] by {
                        if found@.contains(y) {
                            let k = choose|k: int| 0 <= k < found@.len() && found@[k] == y;
                            if k < found0.len() {
                                assert(found0[k] == y);
                                assert(found0.contains(y));
                            }
                        }
                        if y < g.len() && marked@[y as int] {
                            if y == r {
                                assert(found@[found0.len() as int] == r);
                            } else {
                                assert(found0.contains(y));
                                let k = choose|k: int| 0 <= k < found0.len() && found0[k] == y;
                                assert(found@[k] == y);
                            }
                        }
                    }
                    assert(found@.no_duplicates()) by {
                        assert(!found0.contains(r));
                        assert forall|a: int, b: int|
                            0 <= a < found@.len() && 0 <= b < found@.len() && a != b implies found@[a]
                            != found@[b] by {
                            if a < found0.len() && b < found0.len() {
                            } else if a < found0.len() {
                                assert(found0.contains(found0[a]));
                            } else if b < found0.len() {
                                assert(found0.contains(found0[b]));
                            }
                        }
                    }
                    assert forall|k: int| 0 <= k < stack@.len() implies #[trigger] stack@[k] < g.len()
                        && marked@[stack@[k] as int] by {
                        if k < stack0.len() {
                            assert(stack0[k] < g.len() && marked0[stack0[k] as int]);
                        }
                    }
                    assert forall|a: usize, b: usize| #[trigger]
                        edge(g, a, b) && marked@[b as int] && !stack@.to_set().insert(x).contains(
                            b,
                        ) implies marked@[a as int] by {
                        assert(stack@[stack0.len() as int] == r);
                        assert(stack@.contains(r));
                        assert(b != r);
                        if stack0.to_set().insert(x).contains(b) {
                            if b != x {
                                assert(stack0.contains(b));
                                let k = choose|k: int| 0 <= k < stack0.len() && stack0[k] == b;
                                assert(stack@[k] == b);
                                assert(stack@.contains(b));
                            }
                        }
                    }
                }
            }
            assert forall|k: int| 0 <= k < i + 1 implies marked@[#[trigger] readers@[k] as int] by {
                assert(readers@.contains(readers@[k]));
            }
            i += 1;
        }
        proof {
            assert forall|a: usize, b: usize| #[trigger]
                edge(g, a, b) && marked@[b as int] && !stack@.to_set().contains(
                    b,
                ) implies marked@[a as int] by {
                if b == x {
                    assert(readers@.contains(a));
                    let k = choose|k: int| 0 <= k < readers@.len() && readers@[k] == a;
                    assert(marked@[readers@[k] as int]);
                }
            }
        }
    }

    /// Marks the cells that depend on `start`: the cells from which a chain
    /// of references leads to it, and `start` itself. Returns the marks and
    /// the marked cells.
    fn dependents(&self, start: usize) -> (out: (Vec<bool>, Vec<usize>))
        requires
            self@.is_grid(),
            self@.mirrored(),
            start < self@.cells.len(),
        ensures
            out.0@.len() == self@.cells.len(),
            forall|x: usize|
                x < self@.cells.len() ==> (#[trigger] out.0@[x as int] <==> depends_on(
                    self@.graph(),
                    x,
                    start,
                )),
            out.1@.no_duplicates(),
            forall|x: usize| out.1@.contains(x) <==> depends_on(self@.graph(), x, start),
    {
        let ghost g = self@.graph();
        let n = self.cells.len();
        let mut marked: Vec<bool> = vec![false; n];
        let mut found: Vec<usize> = Vec::new();
        let mut stack: Vec<usize> = Vec::new();
        marked[start] = true;
        found.push(start);
        stack.push(start);
        proof {
            lemma_depends_on_itself(g, start);
            assert(found@[0] == start);
            assert(stack@[0] == start);
            assert forall|a: usize, b: usize| #[trigger]
                edge(g, a, b) && marked@[b as int] && !stack@.to_set().contains(
                    b,
                ) implies marked@[a as int] by {
                assert(stack@.contains(start));
            }
        }
        while stack.len() > 0
            invariant
                g == self@.graph(),
                self@.is_grid(),
                self@.mirrored(),
                n == self@.cells.len(),
                marking(g, start, marked@, found@, stack@, stack@.to_set()),
            decreases count_false(marked@), stack.len(),
        {
            let ghost stack0 = stack@;
            let x = stack.pop().unwrap();
            proof {
                assert(stack0[stack0.len() - 1] == x);
                assert forall|a: usize, b: usize| #[trigger]
                    edge(g, a, b) && marked@[b as int] && !stack@.to_set().insert(x).contains(
                        b,
                    ) implies marked@[a as int] by {
                    if stack0.contains(b) {
                        let k = choose|k: int| 0 <= k < stack0.len() && stack0[k] == b;
                        if k < stack@.len() {
                            assert(stack@[k] == b);
                            assert(stack@.contains(b));
                        }
                    }
                }
                assert forall|k: int| 0 <= k < stack@.len() implies #[trigger] stack@[k] < g.len()
                    && marked@[stack@[k] as int] by {
                    assert(stack0[k] == stack@[k]);
                }
            }
            self.mark_readers(x, &mut marked, &mut found, &mut stack, Ghost(start));
        }
        proof {
            let closed = Set::new(|x: usize| x < g.len() && marked@[x as int]);
            assert forall|x: usize| depends_on(g, x, start) implies x < g.len() && marked@[x as int] by {
                let p = choose|p: Seq<usize>| #[trigger] crate::graph::leads_to(g, p, start) && p[0] == x;
                assert forall|a: usize, b: usize| #[trigger]
                    edge(g, a, b) && closed.contains(b) implies closed.contains(a) by {
                    assert(!stack@.to_set().contains(b));
                }
                lemma_closed_holds_dependents(g, start, closed, p);
            }
        }
        (marked, found)
    }
}

/// Every marked successor of `x` has been put in the order.
spec fn ready(g: Seq<Set<usize>>, marked: Seq<bool>, emitted: Seq<bool>, x: usize) -> bool {
    forall|d: usize| #[trigger] edge(g, x, d) && marked[d as int] ==> emitted[d as int]
}

/// What is known while the dependents are put in order: `order` holds the
/// emitted nodes, each after its marked successors, and every marked node
/// that is ready and not emitted waits in the queue.
spec fn ordering(
    g: Seq<Set<usize>>,
    marked: Seq<bool>,
    emitted: Seq<bool>,
    order: Seq<usize>,
    queue: Seq<usize>,
) -> bool {
    &&& marked.len() == g.len()
    &&& emitted.len() == g.len()
    &&& order.no_duplicates()
    &&& forall|x: usize| order.contains(x) <==> x < g.len() && emitted[x as int]
    &&& forall|x: usize| x < g.len() && #[trigger] emitted[x as int] ==> marked[x as int]
    &&& forall|k: int| 0 <= k < queue.len() ==> #[trigger] queue[k] < g.len() && marked[queue[k] as int]
    &&& forall|i: int, d: usize|
        0 <= i < order.len() && #[trigger] edge(g, order[i], d) && marked[d as int] ==> exists|
            j: int,
        | 0 <= j < i && order[j] == d
    &&& forall|x: usize|
        x < g.len() && marked[x as int] && !emitted[x as int] && #[trigger] ready(
            g,
            marked,
            emitted,
            x,
        ) ==> queue.contains(x)
}

/// Once no marked node that is not emitted is ready, every marked node is
/// emitted: by induction on the rank.
proof fn lemma_all_emitted(
    g: Seq<Set<usize>>,
    rank: Seq<nat>,
    marked: Seq<bool>,
    emitted: Seq<bool>,
    k: nat,
)
    requires
        ranked(g, rank),
        marked.len() == g.len(),
        emitted.len() == g.len(),
        forall|x: usize|
            x < g.len() && marked[x as int] && !emitted[x as int] ==> !#[trigger] ready(
                g,
                marked,
                emitted,
                x,
            ),
    ensures
        forall|x: usize|
            x < g.len() && marked[x as int] && rank[x as int] <= k ==> #[trigger] emitted[x as int],
    decreases k,
{
    if k > 0 {
        lemma_all_emitted(g, rank, marked, emitted, (k - 1) as nat);
    }
    assert forall|x: usize|
        x < g.len() && marked[x as int] && rank[x as int] <= k implies #[trigger] emitted[x as int] by {
        if !emitted[x as int] {
            assert(!ready(g, marked, emitted, x));
            let d = choose|d: usize| #[trigger] edge(g, x, d) && marked[d as int] && !emitted[d as int];
            assert(rank[d as int] < rank[x as int]);
        }
    }
}

impl Spreadsheet {
    /// Whether every marked cell that `x` reads has been put in the order.
    fn is_ready(&self, x: usize, marked: &Vec<bool>, emitted: &Vec<bool>) -> (r: bool)
        requires
            self@.is_grid(),
            self@.linked(),
            x < self@.cells.len(),
            marked@.len() == self@.cells.len(),
            emitted@.len() == self@.cells.len(),
        ensures
            r == ready(self@.graph(), marked@, emitted@, x),
    {
        let ghost g = self@.graph();
        let reads = members(&self.cells[x].outbound);
        proof {
            assert(self@.cells[x as int].outbound == self.cells@[x as int].outbound@);
            assert forall|d: usize| reads@.contains(d) implies d < g.len() by {
                lemma_refs_in_grid(self@.cells[x as int].expr, self@.width, self@.height, d);
            }
        }
        let mut i: usize = 0;
        while i < reads.len()
            invariant
                i <= reads.len(),
                g == self@.graph(),
                x < g.len(),
                marked@.len() == g.len(),
                emitted@.len() == g.len(),
                forall|d: usize| reads@.contains(d) <==> g[x as int].contains(d),
                forall|d: usize| reads@.contains(d) ==> d < g.len(),
                forall|k: int|
                    0 <= k < i ==> !marked@[#[trigger] reads@[k] as int] || emitted@[reads@[k] as int],
            decreases reads.len() - i,
        {
            let d = reads[i];
            assert(reads@.contains(d));
            if marked[d] && !emitted[d] {
                assert(edge(g, x, d));
                return false;
            }
            i += 1;
        }
        proof {
            assert forall|d: usize| #[trigger] edge(g, x, d) && marked@[d as int] implies emitted@[d as int] by {
                assert(reads@.contains(d));
                let k = choose|k: int| 0 <= k < reads@.len() && reads@[k] == d;
                assert(!marked@[reads@[k] as int] || emitted@[reads@[k] as int]);
            }
        }
        true
    }

    /// The cells that depend on `start`, `start` among them, each once, in
    /// an order in which every cell stands after the cells that it reads.
    fn toposort_inbound(&self, start: usize) -> (order: Vec<usize>)
        requires
            self@.is_grid(),
            self@.linked(),
            self@.mirrored(),
            self@.acyclic(),
            start < self@.cells.len(),
        ensures
            sorted_dependents(self@.graph(), start, order@),
    {
        let ghost g = self@.graph();
        let n = self.cells.len();
        let (marked, found) = self.dependents(start);
        let mut emitted: Vec<bool> = vec![false; n];
        let mut order: Vec<usize> = Vec::new();
        let mut queue: Vec<usize> = found;
        proof {
            assert forall|x: usize|
                x < g.len() && marked@[x as int] && !emitted@[x as int] && #[trigger] ready(
                    g,
                    marked@,
                    emitted@,
                    x,
                ) implies queue@.contains(x) by {}
            assert forall|k: int| 0 <= k < queue@.len() implies #[trigger] queue@[k] < g.len()
                && marked@[queue@[k] as int] by {
                assert(queue@.contains(queue@[k]));
                let p = choose|p: Seq<usize>| #[trigger]
                    crate::graph::leads_to(g, p, start) && p[0] == queue@[k];
            }
        }
        while queue.len() > 0
            invariant
                g == self@.graph(),
                self@.is_grid(),
                self@.linked(),
                self@.mirrored(),
                n == self@.cells.len(),
                start < n,
                forall|x: usize| x < n ==> (#[trigger] marked@[x as int] <==> depends_on(g, x, start)),
                ordering(g, marked@, emitted@, order@, queue@),
            decreases count_false(emitted@), queue.len(),
        {
            let ghost queue0 = queue@;
            let ghost order0 = order@;
            let ghost emitted0 = emitted@;
            let x = queue.pop().unwrap();
            assert(queue0[queue0.len() - 1] == x);
            assert(queue@ == queue0.drop_last());
            let go = !emitted[x] && self.is_ready(x, &marked, &emitted);
            if go {
                emitted[x] = true;
                order.push(x);
                let readers = members(&self.cells[x].inbound);
                let ghost queue1 = queue@;
                let mut i: usize = 0;
                while i < readers.len()
                    invariant
                        i <= readers.len(),
                        queue@ == queue1 + readers@.take(i as int),
                    decreases readers.len() - i,
                {
                    queue.push(readers[i]);
                    assert(readers@.take(i as int).push(readers@[i as int]) =~= readers@.take(
                        i + 1,
                    ));
                    i += 1;
                }
                proof {
                    assert(readers@.take(readers@.len() as int) =~= readers@);
                    assert(queue@ == queue1 + readers@);
                    lemma_count_false_falls(emitted0, x as int);
                    assert forall|r: usize| readers@.contains(r) <==> edge(g, r, x) by {
                        assert(self@.cells[x as int].inbound == self.cells@[x as int].inbound@);
                        assert(self@.cells[x as int].inbound.contains(r) <==> edge(g, r, x));
                    }
                    assert(order@.no_duplicates()) by {
                        assert(!order0.contains(x));
                        assert forall|a: int, b: int|
                            0 <= a < order@.len() && 0 <= b < order@.len() && a != b implies order@[a]
                            != order@[b] by {
                            if a < order0.len() && b < order0.len() {
                            } else if a < order0.len() {
                                assert(order0.contains(order0[a]));
                            } else if b < order0.len() {
                                assert(order0.contains(order0[b]));
                            }
                        }
                    }
                    assert forall|y: usize| order@.contains(y) <==> y < g.len() && emitted@[y as int] by {
                        if order@.contains(y) {
                            let k = choose|k: int| 0 <= k < order@.len() && order@[k] == y;
                            if k < order0.len() {
                                assert(order0[k] == y);
                                assert(order0.contains(y));
                            }
                        }
                        if y < g.len() && emitted@[y as int] {
                            if y == x {
                                assert(order@[order0.len() as int] == x);
                            } else {
                                assert(order0.contains(y));
                                let k = choose|k: int| 0 <= k < order0.len() && order0[k] == y;
                                assert(order@[k] == y);
                            }
                        }
                    }
                    assert forall|k: int| 0 <= k < queue@.len() implies #[trigger] queue@[k] < g.len()
                        && marked@[queue@[k] as int] by {
                        if k < queue1.len() {
                            assert(queue0[k] == queue@[k]);
                        } else {
                            let r = readers@[k - queue1.len()];
                            assert(queue@[k] == r);
                            assert(readers@.contains(r));
                            lemma_depends_through(g, r, x, start);
                        }
                    }
                    assert forall|i: int, d: usize|
                        0 <= i < order@.len() && #[trigger] edge(g, order@[i], d) && marked@[d as int]
                        implies exists|j: int| 0 <= j < i && order@[j] == d by {
                        if i < order0.len() {
                            assert(order0[i] == order@[i]);
                            assert(edge(g, order0[i], d));
                            let j = choose|j: int| 0 <= j < i && order0[j] == d;
                            assert(order@[j] == d);
                        } else {
                            assert(ready(g, marked@, emitted0, x));
                            assert(emitted0[d as int]);
                            assert(order0.contains(d));
                            let j = choose|j: int| 0 <= j < order0.len() && order0[j] == d;
                            assert(order@[j] == d);
                        }
                    }
                    assert forall|y: usize|
                        y < g.len() && marked@[y as int] && !emitted@[y as int] && #[trigger] ready(
                            g,
                            marked@,
                            emitted@,
                            y,
                        ) implies queue@.contains(y) by {
                        if ready(g, marked@, emitted0, y) {
                            assert(queue0.contains(y));
                            let k = choose|k: int| 0 <= k < queue0.len() && queue0[k] == y;
                            assert(k < queue0.len() - 1);
                            assert(queue@[k] == y);
                        } else {
                            let d = choose|d: usize| #[trigger]
                                edge(g, y, d) && marked@[d as int] && !emitted0[d as int];
                            assert(emitted@[d as int]);
                            assert(d == x);
                            assert(readers@.contains(y));
                            let k = choose|k: int| 0 <= k < readers@.len() && readers@[k] == y;
                            assert(queue@[queue1.len() + k] == y);
                        }
                    }
                }
            } else {
                proof {
                    assert forall|k: int| 0 <= k < queue@.len() implies #[trigger] queue@[k] < g.len()
                        && marked@[queue@[k] as int] by {
                        assert(queue0[k] == queue@[k]);
                    }
                    assert forall|y: usize|
                        y < g.len() && marked@[y as int] && !emitted@[y as int] && #[trigger] ready(
                            g,
                            marked@,
                            emitted@,
                            y,
                        ) implies queue@.contains(y) by {
                        assert(queue0.contains(y));
                        let k = choose|k: int| 0 <= k < queue0.len() && queue0[k] == y;
                        assert(y != x);
                        assert(queue@[k] == y);
                    }
                }
            }
        }
        proof {
            let rank = choose|rank: Seq<nat>| ranked(g, rank);
            assert forall|x: usize|
                x < g.len() && marked@[x as int] && !emitted@[x as int] implies !#[trigger] ready(
                    g,
                    marked@,
                    emitted@,
                    x,
                ) by {
                if ready(g, marked@, emitted@, x) {
                    assert(queue@.contains(x));
                }
            }
            assert forall|x: usize| order@.contains(x) <==> depends_on(g, x, start) by {
                if depends_on(g, x, start) {
                    let p = choose|p: Seq<usize>| #[trigger]
                        crate::graph::leads_to(g, p, start) && p[0] == x;
                    assert(x < g.len());
                    lemma_all_emitted(g, rank, marked@, emitted@, rank[x as int]);
                }
            }
            assert forall|i: int, j: int| 0 <= i <= j < order@.len() implies !edge(
                g,
                #[trigger] order@[i],
                #[trigger] order@[j],
            ) by {
                if edge(g, order@[i], order@[j]) {
                    assert(order@.contains(order@[j]));
                    let k = choose|k: int| 0 <= k < i && order@[k] == order@[j];
                }
            }
        }
        order
    }

    /// Whether the graph of references has a cycle once the cell `start`
    /// reads the cells of `outbound` in place of those that it reads now.
    /// `dependents` are the cells that depend on `start`.
    fn has_cycle(&self, start: usize, outbound: &HashSet<usize>, dependents: &Vec<usize>) -> (cycle:
        bool)
        requires
            self@.is_grid(),
            self@.acyclic(),
            start < self@.cells.len(),
            sorted_dependents(self@.graph(), start, dependents@),
            forall|j: usize| outbound@.contains(j) ==> j < self@.cells.len(),
        ensures
            cycle == cyclic(rewired(self@.graph(), start, outbound@)),
            !cycle ==> is_dag(rewired(self@.graph(), start, outbound@)) && topological(
                rewired(self@.graph(), start, outbound@),
                dependents@,
            ),
            !cycle ==> forall|j: usize| outbound@.contains(j) ==> !dependents@.contains(j),
    {
        let ghost g = self@.graph();
        let n = self.cells.len();
        let mut marked: Vec<bool> = vec![false; n];
        let mut i: usize = 0;
        while i < dependents.len()
            invariant
                i <= dependents.len(),
                marked@.len() == n,
                n == g.len(),
                sorted_dependents(g, start, dependents@),
                forall|x: usize|
                    x < n ==> (#[trigger] marked@[x as int] <==> exists|k: int|
                        0 <= k < i && dependents@[k] == x),
            decreases dependents.len() - i,
        {
            let x = dependents[i];
            proof {
                assert(dependents@.contains(x));
                let p = choose|p: Seq<usize>| #[trigger]
                    crate::graph::leads_to(g, p, start) && p[0] == x;
                assert(x < n);
            }
            let ghost marked0 = marked@;
            marked[x] = true;
            proof {
                assert forall|y: usize| y < n implies (#[trigger] marked@[y as int] <==> exists|
                    k: int,
                | 0 <= k < i + 1 && dependents@[k] == y) by {
                    if marked0[y as int] {
                        let k = choose|k: int| 0 <= k < i && dependents@[k] == y;
                        assert(0 <= k < i + 1 && dependents@[k] == y);
                    }
                    if y == x {
                        assert(0 <= i < i + 1 && dependents@[i as int] == y);
                    }
                }
            }
            i += 1;
        }
        let reads = members(outbound);
        assert forall|x: usize| x < n implies (#[trigger] marked@[x as int] <==> dependents@.contains(
            x,
        )) by {
            if dependents@.contains(x) {
                let k = choose|k: int| 0 <= k < dependents@.len() && dependents@[k] == x;
                assert(0 <= k < i && dependents@[k] == x);
            }
        }
        let mut i: usize = 0;
        while i < reads.len()
            invariant
                i <= reads.len(),
                marked@.len() == n,
                n == g.len(),
                g == self@.graph(),
                start < n,
                sorted_dependents(g, start, dependents@),
                forall|x: usize| x < n ==> (#[trigger] marked@[x as int] <==> dependents@.contains(x)),
                forall|j: usize| reads@.contains(j) <==> outbound@.contains(j),
                forall|j: usize| outbound@.contains(j) ==> j < n,
                forall|k: int| 0 <= k < i ==> !marked@[#[trigger] reads@[k] as int],
            decreases reads.len() - i,
        {
            let j = reads[i];
            assert(reads@.contains(j));
            if marked[j] {
                proof {
                    assert(dependents@.contains(j));
                    lemma_rewired_is_cyclic(g, start, outbound@, j);
                }
                return true;
            }
            i += 1;
        }
        proof {
            assert forall|j: usize| outbound@.contains(j) implies j < g.len() && !depends_on(
                g,
                j,
                start,
            ) by {
                assert(reads@.contains(j));
                let k = choose|k: int| 0 <= k < reads@.len() && reads@[k] == j;
                assert(!marked@[reads@[k] as int]);
            }
            lemma_rewired_is_dag(g, start, outbound@, dependents@);
            lemma_dag_has_no_cycle(rewired(g, start, outbound@));
            assert forall|j: usize| outbound@.contains(j) implies !dependents@.contains(j) by {}
        }
        false
    }
}

} // verus!
