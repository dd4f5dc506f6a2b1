//! Elimination heuristics: `MinFill` scores a vertex by the number of missing
//! edges among its neighbors, `MinDeg` by its degree.  Scoring never mutates
//! the graph; all mutation belongs to the elimination engine.

use vstd::prelude::*;
use crate::graph::Graph;
use crate::graph::eliminated_from;
use crate::graph::lemma_degree_same;

verus! {

/// The heuristic guiding the greedy elimination order.
#[derive(Clone, Copy, Debug, PartialEq, Eq, Structural)]
pub enum TDHeuristic {
    /// Prefer the vertex whose elimination adds the fewest fill-in edges.
    MinFill,
    /// Prefer the vertex of smallest degree.
    MinDeg,
}

/// Fill-in pairs `(a, b)` of `v` with `b` ranging upward from the given bound:
/// counts `b >= lo` with `a < b`, both neighbors of `v`, not adjacent.
pub open spec fn fill_row(g: Graph, v: int, a: int, lo: int) -> nat
    decreases g.n() - lo,
{
    if lo >= g.n() || lo < 0 {
        0
    } else {
        (if a < lo && g.edge(v, a) && g.edge(v, lo) && !g.edge(a, lo) {
            1nat
        } else {
            0nat
        }) + fill_row(g, v, a, lo + 1)
    }
}

/// Fill-in pairs `(a, b)` with `a` ranging upward from the given bound.
pub open spec fn fill_from(g: Graph, v: int, lo: int) -> nat
    decreases g.n() - lo,
{
    if lo >= g.n() || lo < 0 {
        0
    } else {
        fill_row(g, v, lo, 0) + fill_from(g, v, lo + 1)
    }
}

/// The MinFill score of `v`: the number of unordered pairs of neighbors of
/// `v` that are not themselves adjacent.
pub open spec fn min_fill_score(g: Graph, v: int) -> nat {
    fill_from(g, v, 0)
}

impl TDHeuristic {
    /// The score this heuristic assigns to `v` in `g`.
    pub open spec fn spec_score(self, g: Graph, v: int) -> nat {
        match self {
            TDHeuristic::MinFill => min_fill_score(g, v),
            TDHeuristic::MinDeg => g.degree(v),
        }
    }

    /// Whether eliminating `v` may change the score of `u`: for MinDeg the
    /// direct neighbors of `v`, for MinFill everything within distance two.
    pub open spec fn affects(self, g: Graph, v: int, u: int) -> bool {
        match self {
            TDHeuristic::MinFill => g.edge(v, u) || (u != v && exists|w: int|
                0 <= w < g.n() && #[trigger] g.edge(v, w) && #[trigger] g.edge(w, u)),
            TDHeuristic::MinDeg => g.edge(v, u),
        }
    }

    /// A short lower-case name for the heuristic.
    pub fn name(&self) -> (r: &'static str)
        ensures
            self is MinFill ==> r@ == "min-fill"@,
            self is MinDeg ==> r@ == "min-deg"@,
    {
        match self {
            TDHeuristic::MinFill => "min-fill",
            TDHeuristic::MinDeg => "min-deg",
        }
    }

    /// Evaluates the heuristic score of `node` in the current graph.
    pub fn evaluate_node(&self, graph: &Graph, node: usize) -> (r: usize)
        requires
            graph.wf(),
            node < graph.n(),
        ensures
            r == self.spec_score(*graph, node as int),
    {
        match self {
            TDHeuristic::MinDeg => graph.degree_of(node),
            TDHeuristic::MinFill => {
                let n = graph.num_vertices();
                let v = node;
                proof {
                    lemma_fill_from_bound(*graph, v as int, 0);
                }
                let mut acc: usize = 0;
                let mut a: usize = 0;
                while a < n
                    invariant
                        graph.wf(),
                        v < graph.n(),
                        n == graph.n(),
                        a <= n,
                        acc + fill_from(*graph, v as int, a as int) == min_fill_score(
                            *graph,
                            v as int,
                        ),
                        acc <= graph.n() * graph.n(),
                    decreases n - a,
                {
                    proof {
                        lemma_fill_row_skip(*graph, v as int, a as int, 0);
                        lemma_fill_from_bound(*graph, v as int, a + 1);
                        lemma_fill_row_bound(*graph, v as int, a as int, a + 1);
                    }
                    let mut b: usize = a + 1;
                    while b < n
                        invariant
                            graph.wf(),
                            v < graph.n(),
                            n == graph.n(),
                            a < n,
                            a < b <= n,
                            acc + fill_row(*graph, v as int, a as int, b as int) + fill_from(
                                *graph,
                                v as int,
                                a as int + 1,
                            ) == min_fill_score(*graph, v as int),
                            acc <= graph.n() * graph.n(),
                        decreases n - b,
                    {
                        proof {
                            lemma_fill_total_bound(*graph, v as int);
                        }
                        if graph.has_edge(v, a) && graph.has_edge(v, b) && !graph.has_edge(a, b) {
                            acc += 1;
                        }
                        b += 1;
                    }
                    a += 1;
                }
                acc
            },
        }
    }

    /// Flags every vertex whose score may have changed because `node` is
    /// about to be eliminated; all other flags are left as they are.
    pub fn flag_nodes_to_update(&self, graph: &Graph, node: usize, flags: &mut Vec<bool>)
        requires
            graph.wf(),
            node < graph.n(),
            old(flags)@.len() == graph.n(),
        ensures
            final(flags)@.len() == old(flags)@.len(),
            forall|u: int|
                0 <= u < graph.n() ==> final(flags)@[u] == (old(flags)@[u] || self.affects(
                    *graph,
                    node as int,
                    u,
                )),
    {
        let ghost flags0 = flags@;
        let ns = graph.neighbors(node);
        let is_fill = match self {
            TDHeuristic::MinFill => true,
            TDHeuristic::MinDeg => false,
        };
        let mut k: usize = 0;
        while k < ns.len()
            invariant
                graph.wf(),
                node < graph.n(),
                flags@.len() == flags0.len(),
                flags0.len() == graph.n(),
                k <= ns@.len(),
                is_fill == (self is MinFill),
                forall|p: int|
                    0 <= p < ns@.len() ==> (#[trigger] ns@[p]) < graph.n() && graph.edge(
                        node as int,
                        ns@[p] as int,
                    ),
                forall|w: int|
                    0 <= w < graph.n() && graph.edge(node as int, w) ==> ns@.contains(w as usize),
                forall|u: int| 0 <= u < flags0.len() && flags0[u] ==> #[trigger] flags@[u],
                forall|u: int|
                    0 <= u < flags0.len() && #[trigger] flags@[u] ==> flags0[u] || self.affects(
                        *graph,
                        node as int,
                        u,
                    ),
                forall|p: int| 0 <= p < k ==> #[trigger] flags@[ns@[p] as int],
                is_fill ==> forall|p: int, u: int|
                    0 <= p < k && 0 <= u < graph.n() && u != node && #[trigger] graph.edge(
                        ns@[p] as int,
                        u,
                    ) ==> #[trigger] flags@[u],
            decreases ns@.len() - k,
        {
            let w = ns[k];
            flags[w] = true;
            proof {
                assert(self.affects(*graph, node as int, w as int));
            }
            if is_fill {
                let ms = graph.neighbors(w);
                let mut m: usize = 0;
                while m < ms.len()
                    invariant
                        graph.wf(),
                        node < graph.n(),
                        flags@.len() == flags0.len(),
                        flags0.len() == graph.n(),
                        k < ns@.len(),
                        m <= ms@.len(),
                        is_fill,
                        self is MinFill,
                        w == ns@[k as int],
                        w < graph.n(),
                        graph.edge(node as int, w as int),
                        forall|p: int|
                            0 <= p < ns@.len() ==> (#[trigger] ns@[p]) < graph.n() && graph.edge(
                                node as int,
                                ns@[p] as int,
                            ),
                        forall|x: int|
                            0 <= x < graph.n() && graph.edge(node as int, x) ==> ns@.contains(
                                x as usize,
                            ),
                        forall|q: int|
                            0 <= q < ms@.len() ==> (#[trigger] ms@[q]) < graph.n() && graph.edge(
                                w as int,
                                ms@[q] as int,
                            ),
                        forall|x: int|
                            0 <= x < graph.n() && graph.edge(w as int, x) ==> ms@.contains(
                                x as usize,
                            ),
                        forall|u: int|
                            0 <= u < flags0.len() && flags0[u] ==> #[trigger] flags@[u],
                        forall|u: int|
                            0 <= u < flags0.len() && #[trigger] flags@[u] ==> flags0[u]
                                || self.affects(*graph, node as int, u),
                        forall|p: int| 0 <= p < k + 1 ==> #[trigger] flags@[ns@[p] as int],
                        forall|p: int, u: int|
                            0 <= p < k && 0 <= u < graph.n() && u != node && #[trigger] graph.edge(
                                ns@[p] as int,
                                u,
                            ) ==> #[trigger] flags@[u],
                        forall|q: int|
                            0 <= q < m && ms@[q] != node ==> #[trigger] flags@[ms@[q] as int],
                    decreases ms@.len() - m,
                {
                    let u = ms[m];
                    if u != node {
                        flags[u] = true;
                        proof {
                            assert(graph.edge(node as int, w as int) && graph.edge(
                                w as int,
                                u as int,
                            ));
                            assert(self.affects(*graph, node as int, u as int));
                        }
                    }
                    m += 1;
                }
                proof {
                    assert forall|u: int|
                        0 <= u < graph.n() && u != node && graph.edge(
                            ns@[k as int] as int,
                            u,
                        ) implies #[trigger] flags@[u] by {
                        assert(ms@.contains(u as usize));
                        let q = choose|q: int| 0 <= q < ms@.len() && ms@[q] == u as usize;
                        assert(flags@[ms@[q] as int]);
                    }
                }
            }
            k += 1;
        }
        proof {
            assert forall|u: int|
                0 <= u < graph.n() && self.affects(*graph, node as int, u) implies #[trigger] flags@[u] by {
                if graph.edge(node as int, u) {
                    assert(ns@.contains(u as usize));
                    let p = choose|p: int| 0 <= p < ns@.len() && ns@[p] == u as usize;
                    assert(flags@[ns@[p] as int]);
                } else {
                    assert(self is MinFill);
                    let w = choose|w: int|
                        0 <= w < graph.n() && #[trigger] graph.edge(node as int, w)
                            && #[trigger] graph.edge(w, u);
                    assert(ns@.contains(w as usize));
                    let p = choose|p: int| 0 <= p < ns@.len() && ns@[p] == w as usize;
                    assert(graph.edge(ns@[p] as int, u));
                }
            }
        }
    }
}

/// Fill-in rows are bounded by the number of vertices.
proof fn lemma_fill_row_bound(g: Graph, v: int, a: int, lo: int)
    ensures
        fill_row(g, v, a, lo) <= g.n() - lo || fill_row(g, v, a, lo) == 0,
        lo >= 0 ==> fill_row(g, v, a, lo) + lo <= g.n() || fill_row(g, v, a, lo) == 0,
    decreases g.n() - lo,
{
    if lo >= g.n() || lo < 0 {
    } else {
        lemma_fill_row_bound(g, v, a, lo + 1);
    }
}

/// Pairs below the diagonal contribute nothing: scanning a row may start at
/// `a + 1`.
proof fn lemma_fill_row_skip(g: Graph, v: int, a: int, lo: int)
    requires
        0 <= lo <= a + 1,
    ensures
        fill_row(g, v, a, lo) == fill_row(g, v, a, a + 1),
    decreases a + 1 - lo,
{
    if lo < a + 1 {
        if lo >= g.n() {
            lemma_fill_row_out(g, v, a, a + 1);
        } else {
            lemma_fill_row_skip(g, v, a, lo + 1);
        }
    }
}

/// Beyond the last vertex a row is empty.
proof fn lemma_fill_row_out(g: Graph, v: int, a: int, lo: int)
    requires
        lo >= g.n() || lo < 0,
    ensures
        fill_row(g, v, a, lo) == 0,
{
}

/// The tail sums are bounded by `(n - lo) * n`.
proof fn lemma_fill_from_bound(g: Graph, v: int, lo: int)
    requires
        0 <= lo,
    ensures
        fill_from(g, v, lo) <= (g.n() - lo) * g.n() || fill_from(g, v, lo) == 0,
    decreases g.n() - lo,
{
    if lo >= g.n() {
    } else {
        lemma_fill_from_bound(g, v, lo + 1);
        lemma_fill_row_bound(g, v, lo, 0);
        assert((g.n() - lo - 1) * g.n() + g.n() == (g.n() - lo) * g.n()) by (nonlinear_arith);
        assert(g.n() >= 0);
    }
}

/// Any heuristic score fits comfortably in a machine word.
pub proof fn lemma_score_bound(h: TDHeuristic, g: Graph, v: int)
    requires
        g.wf(),
        0 <= v < g.n(),
    ensures
        h.spec_score(g, v) < usize::MAX,
{
    match h {
        TDHeuristic::MinFill => {
            lemma_fill_total_bound(g, v);
        },
        TDHeuristic::MinDeg => {
            crate::graph::lemma_degree_le_n(g, v);
            assert(g.n() <= g.n() * g.n()) by (nonlinear_arith)
                requires
                    g.n() >= 1,
            ;
        },
    }
}

/// The whole MinFill score is bounded by `n * n`.
proof fn lemma_fill_total_bound(g: Graph, v: int)
    ensures
        fill_from(g, v, 0) <= g.n() * g.n(),
{
    lemma_fill_from_bound(g, v, 0);
    assert(g.n() * g.n() >= 0) by (nonlinear_arith);
}

/// Rows of `u` agree and edges among `u`'s neighbors agree, so `u`'s fill
/// score agrees.
proof fn lemma_fill_row_same(g0: Graph, g1: Graph, u: int, a: int, lo: int)
    requires
        g0.n() == g1.n(),
        forall|x: int| 0 <= x < g0.n() ==> #[trigger] g0.edge(u, x) == g1.edge(u, x),
        forall|x: int, y: int|
            0 <= x < g0.n() && 0 <= y < g0.n() && g0.edge(u, x) && g0.edge(u, y)
                ==> #[trigger] g0.edge(x, y) == g1.edge(x, y),
        0 <= a < g0.n(),
    ensures
        fill_row(g0, u, a, lo) == fill_row(g1, u, a, lo),
    decreases g0.n() - lo,
{
    if lo >= g0.n() || lo < 0 {
    } else {
        lemma_fill_row_same(g0, g1, u, a, lo + 1);
    }
}

/// As the previous lemma, lifted to the full score.
proof fn lemma_fill_from_same(g0: Graph, g1: Graph, u: int, lo: int)
    requires
        g0.n() == g1.n(),
        forall|x: int| 0 <= x < g0.n() ==> #[trigger] g0.edge(u, x) == g1.edge(u, x),
        forall|x: int, y: int|
            0 <= x < g0.n() && 0 <= y < g0.n() && g0.edge(u, x) && g0.edge(u, y)
                ==> #[trigger] g0.edge(x, y) == g1.edge(x, y),
    ensures
        fill_from(g0, u, lo) == fill_from(g1, u, lo),
    decreases g0.n() - lo,
{
    if lo >= g0.n() || lo < 0 {
    } else {
        lemma_fill_from_same(g0, g1, u, lo + 1);
        lemma_fill_row_same(g0, g1, u, lo, 0);
    }
}

/// Eliminating a vertex never removes an edge between two surviving
/// vertices: it only adds edges among the eliminated vertex's neighbors.
pub proof fn lemma_surviving_edges_persist(g0: Graph, g1: Graph, v: int, a: int, b: int)
    requires
        eliminated_from(g0, g1, v),
        0 <= a < g0.n(),
        0 <= b < g0.n(),
        a != v,
        b != v,
        a != b,
        g0.edge(a, b),
    ensures
        g1.edge(a, b),
{
}

/// A vertex the heuristic does not flag as affected keeps its exact score
/// across the elimination step.  This is what makes accepting a clean vertex
/// without re-evaluation sound.
pub proof fn lemma_unaffected_score_unchanged(
    h: TDHeuristic,
    g0: Graph,
    g1: Graph,
    v: int,
    u: int,
)
    requires
        g0.wf(),
        g1.wf(),
        eliminated_from(g0, g1, v),
        0 <= v < g0.n(),
        0 <= u < g0.n(),
        u != v,
        !h.affects(g0, v, u),
    ensures
        h.spec_score(g1, u) == h.spec_score(g0, u),
{
    assert(!g0.edge(v, u));
    assert(!g0.edge(u, v));
    assert forall|x: int| 0 <= x < g0.n() implies #[trigger] g0.edge(u, x) == g1.edge(u, x) by {
        if x == v {
            assert(!g1.edge(u, v));
        } else if x == u {
            assert(!g0.edge(u, u) && !g1.edge(u, u));
        } else {
            assert(g1.edge(u, x) == (g0.edge(u, x) || (g0.edge(v, u) && g0.edge(v, x))));
        }
    }
    match h {
        TDHeuristic::MinDeg => {
            lemma_degree_same(g0, g1, u);
        },
        TDHeuristic::MinFill => {
            assert forall|x: int, y: int|
                0 <= x < g0.n() && 0 <= y < g0.n() && g0.edge(u, x) && g0.edge(
                    u,
                    y,
                ) implies #[trigger] g0.edge(x, y) == g1.edge(x, y) by {
                // x and y are neighbors of u; neither is v, else v and u would
                // share the edge v-x or the vertex itself.
                assert(x != v) by {
                    if x == v {
                        assert(g0.edge(u, v));
                    }
                }
                assert(y != v) by {
                    if y == v {
                        assert(g0.edge(u, v));
                    }
                }
                if x != y {
                    assert(!g0.edge(v, x)) by {
                        if g0.edge(v, x) {
                            assert(g0.edge(v, x) && g0.edge(x, u));
                            assert(h.affects(g0, v, u));
                        }
                    }
                    assert(g1.edge(x, y) == (g0.edge(x, y) || (g0.edge(v, x) && g0.edge(v, y))));
                } else {
                    assert(!g0.edge(x, x) && !g1.edge(x, x));
                }
            }
            lemma_fill_from_same(g0, g1, u, 0);
        },
    }
}

} // verus!
