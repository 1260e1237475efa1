//! What holds of every well-formed grid, and of every update.

use crate::expr::{eval, lemma_eval_reads_refs, lemma_refs_in_grid, refs};
use crate::graph::{cyclic, edge, lemma_dag_has_no_cycle, ranked};
use crate::parser::spec_parse;
use crate::sheet::{changed, same_size, SheetView};
use vstd::prelude::*;

verus! {

/// The edges agree in both directions: the cell `i` reads the cell `j`
/// exactly if `i` is among the readers of `j`.
pub proof fn law_edges_agree(grid: SheetView, i: usize, j: usize)
    requires
        grid.wf(),
        i < grid.cells.len(),
        j < grid.cells.len(),
    ensures
        grid.cells[i as int].outbound.contains(j) <==> grid.cells[j as int].inbound.contains(i),
{
    assert(grid.cells[j as int].inbound.contains(i) <==> edge(grid.graph(), i, j));
}

/// The graph of references of a well-formed grid has no cycle.
pub proof fn law_no_cycle(grid: SheetView)
    requires
        grid.wf(),
    ensures
        !cyclic(grid.graph()),
{
    lemma_dag_has_no_cycle(grid.graph());
}

/// The tree of a cell is what its text parses to, and the cell reads the
/// cells that this tree refers to.
pub proof fn law_reparse(grid: SheetView, i: int)
    requires
        grid.wf(),
        0 <= i < grid.cells.len(),
    ensures
        grid.cells[i].expr == spec_parse(grid.cells[i].raw),
        grid.cells[i].outbound == refs(spec_parse(grid.cells[i].raw), grid.width, grid.height),
{
}

/// The value of a cell is what its tree evaluates to over the values of
/// the other cells.
pub proof fn law_evaluated(grid: SheetView, i: int)
    requires
        grid.wf(),
        0 <= i < grid.cells.len(),
    ensures
        grid.cells[i].out == eval(spec_parse(grid.cells[i].raw), grid),
{
}

/// Two well-formed grids with the same trees have the same values in all
/// cells of rank `k` or less.
proof fn lemma_values_agree(a: SheetView, b: SheetView, rank: Seq<nat>, k: nat)
    requires
        a.wf(),
        b.wf(),
        same_size(a, b),
        a.graph() == b.graph(),
        ranked(a.graph(), rank),
        forall|x: int| 0 <= x < a.cells.len() ==> (#[trigger] a.cells[x]).expr == b.cells[x].expr,
    ensures
        forall|x: int|
            0 <= x < a.cells.len() && rank[x] <= k ==> (#[trigger] a.cells[x]).out
                == b.cells[x].out,
    decreases k,
{
    if k > 0 {
        lemma_values_agree(a, b, rank, (k - 1) as nat);
    }
    assert forall|x: int| 0 <= x < a.cells.len() && rank[x] <= k implies (#[trigger] a.cells[x]).out
        == b.cells[x].out by {
        let e = a.cells[x].expr;
        assert(b.cells[x].expr == e);
        assert forall|j: usize| #[trigger] refs(e, a.width, a.height).contains(j) implies a.cells[j as int].out
            == b.cells[j as int].out by {
            lemma_refs_in_grid(e, a.width, a.height, j);
            assert(a.cells[x].outbound.contains(j));
            assert(edge(a.graph(), x as usize, j));
            assert(rank[j as int] < rank[x]);
        }
        lemma_eval_reads_refs(e, a, b);
    }
}

/// A well-formed grid is determined by its size and the texts of its
/// cells: the trees, the edges and the values follow from them.
pub proof fn law_texts_determine_grid(a: SheetView, b: SheetView)
    requires
        a.wf(),
        b.wf(),
        same_size(a, b),
        a.raws() == b.raws(),
    ensures
        a == b,
{
    assert forall|x: int| 0 <= x < a.cells.len() implies (#[trigger] a.cells[x]).raw
        == b.cells[x].raw by {
        assert(a.raws()[x] == b.raws()[x]);
    }
    assert forall|x: int| 0 <= x < a.cells.len() implies (#[trigger] a.cells[x]).expr
        == b.cells[x].expr by {
        assert(a.cells[x].raw == b.cells[x].raw);
    }
    assert forall|x: int| 0 <= x < a.cells.len() implies (#[trigger] a.cells[x]).outbound
        == b.cells[x].outbound by {
        assert(a.cells[x].expr == b.cells[x].expr);
    }
    assert(a.graph() =~= b.graph()) by {
        assert forall|x: int| 0 <= x < a.cells.len() implies a.graph()[x] == b.graph()[x] by {
            assert(a.cells[x].outbound == b.cells[x].outbound);
        }
    }
    let rank = choose|rank: Seq<nat>| ranked(a.graph(), rank);
    assert forall|x: int| 0 <= x < a.cells.len() implies a.cells[x] == b.cells[x] by {
        lemma_values_agree(a, b, rank, rank[x]);
        assert(a.cells[x].raw == b.cells[x].raw);
        assert(a.cells[x].expr == b.cells[x].expr);
        assert(a.cells[x].outbound == b.cells[x].outbound);
        assert(a.cells[x].out == b.cells[x].out);
        assert(a.cells[x].inbound =~= b.cells[x].inbound) by {
            assert forall|i: usize|
                a.cells[x].inbound.contains(i) <==> b.cells[x].inbound.contains(i) by {
                let j = x as usize;
                assert(a.cells[j as int].inbound.contains(i) <==> edge(a.graph(), i, j));
                assert(b.cells[j as int].inbound.contains(i) <==> edge(b.graph(), i, j));
            }
        }
    }
    assert(a.cells =~= b.cells);
}

/// Setting a cell to the text that it holds is accepted and changes
/// nothing: the references close no cycle, and the only well-formed grid of
/// the same texts is the grid itself, so that no value is another than
/// before.
pub proof fn law_set_again(grid: SheetView, idx: int, raw: Seq<char>, after: SheetView)
    requires
        grid.wf(),
        0 <= idx < grid.cells.len(),
        grid.cells[idx].raw == raw,
        after.wf(),
        same_size(grid, after),
        after.raws() == grid.raws().update(idx, raw),
    ensures
        !cyclic(grid.graph_with(idx, raw)),
        after == grid,
        changed(grid, after) == Set::<usize>::empty(),
{
    assert(grid.graph_with(idx, raw) =~= grid.graph()) by {
        assert(grid.cells[idx].outbound == refs(
            grid.cells[idx].expr,
            grid.width,
            grid.height,
        ));
    }
    lemma_dag_has_no_cycle(grid.graph());
    assert(grid.raws().update(idx, raw) =~= grid.raws());
    law_texts_determine_grid(after, grid);
    assert(changed(grid, after) =~= Set::<usize>::empty());
}

/// An update that is accepted gives one grid and no other: whatever two
/// grids meet what `set` promises of its result are the same grid.
pub proof fn law_set_is_determined(
    grid: SheetView,
    idx: int,
    raw: Seq<char>,
    first: SheetView,
    second: SheetView,
)
    requires
        0 <= idx < grid.cells.len(),
        first.wf(),
        second.wf(),
        same_size(grid, first),
        same_size(grid, second),
        first.raws() == grid.raws().update(idx, raw),
        second.raws() == grid.raws().update(idx, raw),
    ensures
        first == second,
{
    law_texts_determine_grid(first, second);
}

} // verus!
