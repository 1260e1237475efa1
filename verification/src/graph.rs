//! Directed graphs on the nodes `0..n`, given by the set of successors of
//! each node: walks, cycles, topological ranks.

use vstd::prelude::*;

verus! {

/// `a` and `b` are nodes and `b` is a successor of `a`.
pub open spec fn edge(g: Seq<Set<usize>>, a: usize, b: usize) -> bool {
    a < g.len() && b < g.len() && g[a as int].contains(b)
}

/// A walk: one node or more, each joined to the next by an edge.
pub open spec fn is_walk(g: Seq<Set<usize>>, p: Seq<usize>) -> bool {
    &&& p.len() >= 1
    &&& forall|k: int| 0 <= k < p.len() ==> #[trigger] p[k] < g.len()
    &&& forall|k: int| #![trigger p[k]] 0 <= k < p.len() - 1 ==> edge(g, p[k], p[k + 1])
}

/// The graph has a cycle: a walk of one edge or more that ends where it
/// starts.
pub open spec fn cyclic(g: Seq<Set<usize>>) -> bool {
    exists|p: Seq<usize>| #[trigger] is_walk(g, p) && p.len() >= 2 && p[0] == p.last()
}

/// `rank` is a topological ranking: every edge leads to a lower rank.
pub open spec fn ranked(g: Seq<Set<usize>>, rank: Seq<nat>) -> bool {
    &&& rank.len() == g.len()
    &&& forall|a: usize, b: usize| #[trigger] edge(g, a, b) ==> rank[b as int] < rank[a as int]
}

/// The graph is a directed acyclic graph: it has a topological ranking.
pub open spec fn is_dag(g: Seq<Set<usize>>) -> bool {
    exists|rank: Seq<nat>| ranked(g, rank)
}

/// Along a walk the rank falls by at least the number of edges.
proof fn lemma_walk_descends(g: Seq<Set<usize>>, rank: Seq<nat>, p: Seq<usize>)
    requires
        ranked(g, rank),
        is_walk(g, p),
    ensures
        rank[p.last() as int] + p.len() - 1 <= rank[p[0] as int],
    decreases p.len(),
{
    if p.len() >= 2 {
        let q = p.drop_last();
        assert(is_walk(g, q)) by {
            assert forall|k: int| #![trigger q[k]] 0 <= k < q.len() - 1 implies edge(
                g,
                q[k],
                q[k + 1],
            ) by {
                assert(edge(g, p[k], p[k + 1]));
            }
        }
        lemma_walk_descends(g, rank, q);
        let k = p.len() - 2;
        assert(edge(g, p[k], p[k + 1]));
    }
}

/// A graph with a topological ranking has no cycle.
pub proof fn lemma_dag_has_no_cycle(g: Seq<Set<usize>>)
    requires
        is_dag(g),
    ensures
        !cyclic(g),
{
    let rank = choose|rank: Seq<nat>| ranked(g, rank);
    assert forall|p: Seq<usize>| #[trigger] is_walk(g, p) && p.len() >= 2 implies p[0]
        != p.last() by {
        lemma_walk_descends(g, rank, p);
    }
}

/// A walk that ends in `t` and does not meet `t` before.
pub open spec fn leads_to(g: Seq<Set<usize>>, p: Seq<usize>, t: usize) -> bool {
    &&& is_walk(g, p)
    &&& p.last() == t
    &&& forall|k: int| 0 <= k < p.len() - 1 ==> #[trigger] p[k] != t
}

/// `x` depends on `t`: it is `t`, or a walk leads from it to `t`.
pub open spec fn depends_on(g: Seq<Set<usize>>, x: usize, t: usize) -> bool {
    exists|p: Seq<usize>| #[trigger] leads_to(g, p, t) && p[0] == x
}

/// A node depends on itself.
pub proof fn lemma_depends_on_itself(g: Seq<Set<usize>>, t: usize)
    requires
        t < g.len(),
    ensures
        depends_on(g, t, t),
{
    let p = seq![t];
    assert(leads_to(g, p, t));
    assert(p[0] == t);
}

/// Whoever has a successor that depends on `t` depends on `t`.
pub proof fn lemma_depends_through(g: Seq<Set<usize>>, a: usize, b: usize, t: usize)
    requires
        edge(g, a, b),
        depends_on(g, b, t),
    ensures
        depends_on(g, a, t),
{
    if a == t {
        lemma_depends_on_itself(g, t);
    } else {
        let p = choose|p: Seq<usize>| #[trigger] leads_to(g, p, t) && p[0] == b;
        let q = seq![a] + p;
        assert(is_walk(g, q)) by {
            assert forall|k: int| #![trigger q[k]] 0 <= k < q.len() - 1 implies edge(
                g,
                q[k],
                q[k + 1],
            ) by {
                if k > 0 {
                    assert(q[k] == p[k - 1]);
                    assert(edge(g, p[k - 1], p[k - 1 + 1]));
                }
            }
            assert forall|k: int| 0 <= k < q.len() implies #[trigger] q[k] < g.len() by {
                if k > 0 {
                    assert(q[k] == p[k - 1]);
                }
            }
        }
        assert(leads_to(g, q, t)) by {
            assert forall|k: int| 0 <= k < q.len() - 1 implies #[trigger] q[k] != t by {
                if k > 0 {
                    assert(q[k] == p[k - 1]);
                }
            }
        }
        assert(q[0] == a);
    }
}

/// A set of nodes that holds `t` and every predecessor of each of its
/// members holds every node that depends on `t`.
pub proof fn lemma_closed_holds_dependents(
    g: Seq<Set<usize>>,
    t: usize,
    closed: Set<usize>,
    p: Seq<usize>,
)
    requires
        closed.contains(t),
        forall|a: usize, b: usize| #[trigger] edge(g, a, b) && closed.contains(b) ==> closed.contains(a),
        leads_to(g, p, t),
    ensures
        closed.contains(p[0]),
    decreases p.len(),
{
    if p.len() >= 2 {
        let q = p.skip(1);
        assert(leads_to(g, q, t)) by {
            assert forall|k: int| #![trigger q[k]] 0 <= k < q.len() - 1 implies edge(
                g,
                q[k],
                q[k + 1],
            ) by {
                assert(edge(g, p[k + 1], p[k + 1 + 1]));
            }
            assert forall|k: int| 0 <= k < q.len() - 1 implies #[trigger] q[k] != t by {
                assert(p[k + 1] != t);
            }
        }
        lemma_closed_holds_dependents(g, t, closed, q);
        assert(edge(g, p[0], p[1]));
    }
}

/// No node of the list has a successor that stands at or after it in the
/// list.
pub open spec fn topological(g: Seq<Set<usize>>, order: Seq<usize>) -> bool {
    forall|i: int, j: int| 0 <= i <= j < order.len() ==> !edge(g, #[trigger] order[i], #[trigger] order[j])
}

/// The list holds exactly the nodes that depend on `t`, each once, every
/// node after all of its successors in the list.
pub open spec fn sorted_dependents(g: Seq<Set<usize>>, t: usize, order: Seq<usize>) -> bool {
    &&& order.no_duplicates()
    &&& forall|x: usize| order.contains(x) <==> depends_on(g, x, t)
    &&& topological(g, order)
}

/// A number that no rank exceeds.
pub open spec fn rank_bound(rank: Seq<nat>) -> nat
    decreases rank.len(),
{
    if rank.len() == 0 {
        0
    } else if rank.last() > rank_bound(rank.drop_last()) {
        rank.last()
    } else {
        rank_bound(rank.drop_last())
    }
}

proof fn lemma_rank_bound(rank: Seq<nat>, k: int)
    requires
        0 <= k < rank.len(),
    ensures
        rank[k] <= rank_bound(rank),
    decreases rank.len(),
{
    if k < rank.len() - 1 {
        lemma_rank_bound(rank.drop_last(), k);
    }
}

/// The graph in which the successors of `t` are `successors`.
pub open spec fn rewired(g: Seq<Set<usize>>, t: usize, successors: Set<usize>) -> Seq<Set<usize>> {
    g.update(t as int, successors)
}

/// Giving a node new successors, none of which depends on it, keeps a
/// directed acyclic graph one, and keeps the order of its dependents
/// topological.
pub proof fn lemma_rewired_is_dag(
    g: Seq<Set<usize>>,
    t: usize,
    successors: Set<usize>,
    order: Seq<usize>,
)
    requires
        is_dag(g),
        t < g.len(),
        sorted_dependents(g, t, order),
        forall|j: usize| successors.contains(j) ==> j < g.len() && !depends_on(g, j, t),
    ensures
        is_dag(rewired(g, t, successors)),
        topological(rewired(g, t, successors), order),
{
    let h = rewired(g, t, successors);
    let rank = choose|rank: Seq<nat>| ranked(g, rank);
    let bound = rank_bound(rank);
    let above = Seq::new(
        g.len(),
        |x: int|
            if order.contains(x as usize) {
                (bound + 1 + order.index_of(x as usize)) as nat
            } else {
                rank[x]
            },
    );
    lemma_depends_on_itself(g, t);
    assert forall|a: usize, b: usize| #[trigger] edge(h, a, b) implies above[b as int]
        < above[a as int] by {
        lemma_rank_bound(rank, b as int);
        if a == t {
            assert(successors.contains(b));
            assert(order.contains(a));
            assert(!order.contains(b));
        } else {
            assert(edge(g, a, b));
            if order.contains(b) {
                lemma_depends_through(g, a, b, t);
                assert(order.contains(a));
                let i = order.index_of(a);
                let j = order.index_of(b);
                assert(0 <= i < order.len() && order[i] == a);
                assert(0 <= j < order.len() && order[j] == b);
                if i <= j {
                    assert(!edge(g, order[i], order[j]));
                }
            }
        }
    }
    assert(ranked(h, above));
    assert forall|i: int, j: int| 0 <= i <= j < order.len() implies !edge(
        h,
        #[trigger] order[i],
        #[trigger] order[j],
    ) by {
        if order[i] == t {
            assert(order.contains(order[j]));
        } else {
            assert(!edge(g, order[i], order[j]));
        }
    }
}

/// Giving a node a successor that depends on it closes a cycle.
pub proof fn lemma_rewired_is_cyclic(
    g: Seq<Set<usize>>,
    t: usize,
    successors: Set<usize>,
    j: usize,
)
    requires
        t < g.len(),
        successors.contains(j),
        depends_on(g, j, t),
    ensures
        cyclic(rewired(g, t, successors)),
{
    let h = rewired(g, t, successors);
    let p = choose|p: Seq<usize>| #[trigger] leads_to(g, p, t) && p[0] == j;
    let q = seq![t] + p;
    assert(is_walk(h, q)) by {
        assert forall|k: int| 0 <= k < q.len() implies #[trigger] q[k] < h.len() by {
            if k > 0 {
                assert(q[k] == p[k - 1]);
            }
        }
        assert forall|k: int| #![trigger q[k]] 0 <= k < q.len() - 1 implies edge(
            h,
            q[k],
            q[k + 1],
        ) by {
            if k > 0 {
                assert(q[k] == p[k - 1]);
                assert(q[k + 1] == p[k]);
                assert(p[k - 1] != t);
                assert(edge(g, p[k - 1], p[k - 1 + 1]));
            } else {
                assert(q[1] == p[0]);
            }
        }
    }
    assert(q[0] == t);
    assert(q.last() == p.last());
}

/// The number of entries that are `false`.
pub open spec fn count_false(flags: Seq<bool>) -> nat
    decreases flags.len(),
{
    if flags.len() == 0 {
        0
    } else {
        count_false(flags.drop_last()) + if flags.last() {
            0nat
        } else {
            1nat
        }
    }
}

/// Setting an entry that was `false` leaves one `false` entry less.
pub proof fn lemma_count_false_falls(flags: Seq<bool>, k: int)
    requires
        0 <= k < flags.len(),
        !flags[k],
    ensures
        count_false(flags.update(k, true)) + 1 == count_false(flags),
    decreases flags.len(),
{
    let after = flags.update(k, true);
    if k < flags.len() - 1 {
        assert(after.drop_last() =~= flags.drop_last().update(k, true));
        lemma_count_false_falls(flags.drop_last(), k);
    } else {
        assert(after.drop_last() =~= flags.drop_last());
    }
}

} // verus!
