//! The primal graph: an undirected graph over the formula's variables with an
//! edge wherever two variables co-occur in a clause.  The graph is mutated in
//! place during elimination; adjacency stays symmetric at every step.

use vstd::prelude::*;
use crate::counting::count_true;

verus! {

/// Reasons a decomposition run is refused before any work is done.
#[derive(Clone, Copy, Debug, PartialEq, Eq, Structural)]
pub enum ConfigError {
    /// The formula declares zero variables.
    NoVariables,
    /// A clause holds a literal whose variable lies outside `[1, n]`.
    LiteralOutOfRange,
}

/// The variable of a signed literal, as a 0-indexed vertex.
pub open spec fn lit_var(lit: i64) -> int {
    (if lit < 0 {
        -(lit as int)
    } else {
        lit as int
    }) - 1
}

/// Every literal of the clause names a variable in `[1, n]`.
pub open spec fn clause_ok(n: int, c: Seq<i64>) -> bool {
    forall|k: int| 0 <= k < c.len() ==> 0 <= lit_var(#[trigger] c[k]) < n
}

/// Two distinct vertices co-occur in some clause of the list.
pub open spec fn co_occur(cs: Seq<Vec<i64>>, u: int, w: int) -> bool {
    u != w && exists|i: int, a: int, b: int|
        0 <= i < cs.len() && 0 <= a < cs[i]@.len() && 0 <= b < cs[i]@.len()
            && lit_var(#[trigger] cs[i]@[a]) == u && lit_var(#[trigger] cs[i]@[b]) == w
}

/// `g1` is `g0` after eliminating vertex `v`: `v`'s neighbors are pairwise
/// connected, every edge incident to `v` is removed, and no other pair
/// changes.
pub open spec fn eliminated_from(g0: Graph, g1: Graph, v: int) -> bool {
    &&& g1.n() == g0.n()
    &&& forall|a: int| 0 <= a < g1.n() ==> !(#[trigger] g1.edge(v, a))
    &&& forall|a: int| 0 <= a < g1.n() ==> !(#[trigger] g1.edge(a, v))
    &&& forall|a: int, b: int|
        0 <= a < g1.n() && 0 <= b < g1.n() && a != v && b != v && a != b ==> #[trigger] g1.edge(
            a,
            b,
        ) == (g0.edge(a, b) || (g0.edge(v, a) && g0.edge(v, b)))
}

/// Undirected graph over the vertices `0..n`, as a symmetric boolean
/// adjacency matrix.
pub struct Graph {
    adj: Vec<Vec<bool>>,
}

impl Graph {
    /// Number of vertices.
    pub closed spec fn n(self) -> int {
        self.adj@.len() as int
    }

    /// Whether `u` and `v` are adjacent.
    pub closed spec fn edge(self, u: int, v: int) -> bool {
        self.adj@[u]@[v]
    }

    /// Number of current neighbors of `v`.
    pub closed spec fn degree(self, v: int) -> nat {
        count_true(self.adj@[v]@)
    }

    /// The stored matrix is square.
    pub closed spec fn rows_ok(self) -> bool {
        forall|u: int| 0 <= u < self.n() ==> (#[trigger] self.adj@[u])@.len() == self.n()
    }

    /// Well-formedness: a square matrix, symmetric adjacency, no self-loops,
    /// and few enough vertices that pair counts fit in a machine word.
    pub open spec fn wf(self) -> bool {
        &&& self.n() <= usize::MAX
        &&& self.rows_ok()
        &&& forall|u: int, v: int|
            0 <= u < self.n() && 0 <= v < self.n() ==> #[trigger] self.edge(u, v) == self.edge(
                v,
                u,
            )
        &&& forall|u: int| 0 <= u < self.n() ==> !(#[trigger] self.edge(u, u))
        &&& self.n() * self.n() < usize::MAX
    }

    /// Creates the edgeless graph on `n` vertices.
    pub fn new(n: usize) -> (g: Graph)
        requires
            n * n < usize::MAX,
        ensures
            g.wf(),
            g.n() == n,
            forall|u: int, v: int| 0 <= u < n && 0 <= v < n ==> !(#[trigger] g.edge(u, v)),
    {
        let mut adj: Vec<Vec<bool>> = Vec::new();
        while adj.len() < n
            invariant
                adj@.len() <= n,
                forall|u: int| 0 <= u < adj@.len() ==> (#[trigger] adj@[u])@.len() == n,
                forall|u: int, v: int|
                    0 <= u < adj@.len() && 0 <= v < n ==> !(#[trigger] adj@[u]@[v]),
            decreases n - adj@.len(),
        {
            let mut row: Vec<bool> = Vec::new();
            while row.len() < n
                invariant
                    row@.len() <= n,
                    forall|v: int| 0 <= v < row@.len() ==> !(#[trigger] row@[v]),
                decreases n - row@.len(),
            {
                row.push(false);
            }
            adj.push(row);
        }
        Graph { adj }
    }

    /// Number of vertices, as an executable value.
    pub fn num_vertices(&self) -> (r: usize)
        ensures
            r == self.n(),
    {
        self.adj.len()
    }

    /// Whether `u` and `v` are adjacent.
    pub fn has_edge(&self, u: usize, v: usize) -> (r: bool)
        requires
            self.wf(),
            u < self.n(),
            v < self.n(),
        ensures
            r == self.edge(u as int, v as int),
    {
        self.adj[u][v]
    }

    /// Adds the edge `u`–`v` (in both directions); every other pair is
    /// untouched.
    pub fn add_edge(&mut self, u: usize, v: usize)
        requires
            old(self).wf(),
            u < old(self).n(),
            v < old(self).n(),
            u != v,
        ensures
            final(self).wf(),
            final(self).n() == old(self).n(),
            final(self).edge(u as int, v as int),
            final(self).edge(v as int, u as int),
            forall|a: int, b: int|
                0 <= a < final(self).n() && 0 <= b < final(self).n() && !(a == u && b == v) && !(a
                    == v && b == u) ==> #[trigger] final(self).edge(a, b) == old(self).edge(a, b),
    {
        self.adj[u][v] = true;
        self.adj[v][u] = true;
        proof {
            let o = old(self);
            assert forall|a: int, b: int|
                0 <= a < self.n() && 0 <= b < self.n() && !(a == u && b == v) && !(a == v && b
                    == u) implies #[trigger] self.edge(a, b) == o.edge(a, b) by {}
            assert(self.edge(u as int, v as int));
            assert(self.edge(v as int, u as int));
            assert forall|a: int, b: int|
                0 <= a < self.n() && 0 <= b < self.n() implies #[trigger] self.edge(a, b)
                == self.edge(b, a) by {
                if !((a == u && b == v) || (a == v && b == u)) {
                    assert(self.edge(a, b) == o.edge(a, b));
                    assert(self.edge(b, a) == o.edge(b, a));
                }
            }
            assert forall|a: int| 0 <= a < self.n() implies !(#[trigger] self.edge(a, a)) by {
                assert(self.edge(a, a) == o.edge(a, a));
            }
        }
    }

    /// The current neighbors of `v`, in strictly increasing order.
    pub fn neighbors(&self, v: usize) -> (r: Vec<usize>)
        requires
            self.wf(),
            v < self.n(),
        ensures
            forall|k: int|
                0 <= k < r@.len() ==> (#[trigger] r@[k]) < self.n() && self.edge(
                    v as int,
                    r@[k] as int,
                ),
            forall|k1: int, k2: int| 0 <= k1 < k2 < r@.len() ==> r@[k1] < r@[k2],
            forall|w: int|
                0 <= w < self.n() && self.edge(v as int, w) ==> r@.contains(w as usize),
    {
        let n = self.adj.len();
        let mut r: Vec<usize> = Vec::new();
        let mut w: usize = 0;
        while w < n
            invariant
                self.wf(),
                v < self.n(),
                n == self.n(),
                w <= n,
                forall|k: int|
                    0 <= k < r@.len() ==> (#[trigger] r@[k]) < w && self.edge(
                        v as int,
                        r@[k] as int,
                    ),
                forall|k1: int, k2: int| 0 <= k1 < k2 < r@.len() ==> r@[k1] < r@[k2],
                forall|x: int| 0 <= x < w && self.edge(v as int, x) ==> r@.contains(x as usize),
            decreases n - w,
        {
            let ghost r0 = r@;
            if self.has_edge(v, w) {
                r.push(w);
            }
            proof {
                assert forall|x: int|
                    0 <= x < w + 1 && self.edge(v as int, x) implies r@.contains(x as usize) by {
                    if x < w {
                        let k = choose|k: int| 0 <= k < r0.len() && r0[k] == x as usize;
                        assert(r@[k] == x as usize);
                    } else {
                        assert(r@[r@.len() - 1] == w);
                    }
                }
            }
            w += 1;
        }
        r
    }

    /// Degree of `v`, as an executable value.
    pub fn degree_of(&self, v: usize) -> (r: usize)
        requires
            self.wf(),
            v < self.n(),
        ensures
            r == self.degree(v as int),
    {
        let n = self.adj.len();
        let mut r: usize = 0;
        let mut w: usize = 0;
        while w < n
            invariant
                self.wf(),
                v < self.n(),
                n == self.n(),
                w <= n,
                r == count_true(self.adj@[v as int]@.take(w as int)),
                r <= w,
            decreases n - w,
        {
            proof {
                crate::counting::lemma_count_true_take_step(self.adj@[v as int]@, w as int);
            }
            if self.adj[v][w] {
                r += 1;
            }
            w += 1;
        }
        proof {
            crate::counting::lemma_count_true_take_all(self.adj@[v as int]@);
        }
        r
    }

    /// Eliminates `v`: connects all of `v`'s neighbors pairwise, then removes
    /// every edge incident to `v`.  Edges between two other vertices are never
    /// removed.
    pub fn eliminate(&mut self, v: usize)
        requires
            old(self).wf(),
            v < old(self).n(),
        ensures
            final(self).wf(),
            final(self).n() == old(self).n(),
            forall|a: int| 0 <= a < final(self).n() ==> !(#[trigger] final(self).edge(v as int, a)),
            forall|a: int| 0 <= a < final(self).n() ==> !(#[trigger] final(self).edge(a, v as int)),
            forall|a: int, b: int|
                0 <= a < final(self).n() && 0 <= b < final(self).n() && a != v && b != v && a != b
                    ==> #[trigger] final(self).edge(a, b) == (old(self).edge(a, b) || (old(
                    self,
                ).edge(v as int, a) && old(self).edge(v as int, b))),
            eliminated_from(*old(self), *final(self), v as int),
    {
        let ghost g0 = *self;
        let ns = self.neighbors(v);
        let len = ns.len();
        proof {
            assert forall|k: int| 0 <= k < ns@.len() implies ns@[k] != v by {
                if ns@[k] == v {
                    assert(g0.edge(v as int, v as int));
                }
            }
        }
        let mut i: usize = 0;
        while i < len
            invariant
                self.wf(),
                g0.wf(),
                self.n() == g0.n(),
                v < g0.n(),
                len == ns@.len(),
                i <= len,
                forall|k: int|
                    0 <= k < ns@.len() ==> (#[trigger] ns@[k]) < g0.n() && g0.edge(
                        v as int,
                        ns@[k] as int,
                    ) && ns@[k] != v,
                forall|k1: int, k2: int| 0 <= k1 < k2 < ns@.len() ==> ns@[k1] < ns@[k2],
                forall|w: int| 0 <= w < g0.n() && g0.edge(v as int, w) ==> ns@.contains(w as usize),
                forall|p: int, q: int|
                    0 <= p < q < ns@.len() ==> #[trigger] self.edge(ns@[p] as int, ns@[q] as int)
                        == (g0.edge(ns@[p] as int, ns@[q] as int) || p < i),
                forall|a: int, b: int|
                    0 <= a < g0.n() && 0 <= b < g0.n() && (!ns@.contains(a as usize)
                        || !ns@.contains(b as usize)) ==> #[trigger] self.edge(a, b) == g0.edge(
                        a,
                        b,
                    ),
            decreases len - i,
        {
            let mut j: usize = i + 1;
            while j < len
                invariant
                    self.wf(),
                    g0.wf(),
                    self.n() == g0.n(),
                    v < g0.n(),
                    len == ns@.len(),
                    i < len,
                    i < j <= len,
                    forall|k: int|
                        0 <= k < ns@.len() ==> (#[trigger] ns@[k]) < g0.n() && g0.edge(
                            v as int,
                            ns@[k] as int,
                        ) && ns@[k] != v,
                    forall|k1: int, k2: int| 0 <= k1 < k2 < ns@.len() ==> ns@[k1] < ns@[k2],
                    forall|w: int|
                        0 <= w < g0.n() && g0.edge(v as int, w) ==> ns@.contains(w as usize),
                    forall|p: int, q: int|
                        0 <= p < q < ns@.len() ==> #[trigger] self.edge(
                            ns@[p] as int,
                            ns@[q] as int,
                        ) == (g0.edge(ns@[p] as int, ns@[q] as int) || p < i || (p == i && q < j)),
                    forall|a: int, b: int|
                        0 <= a < g0.n() && 0 <= b < g0.n() && (!ns@.contains(a as usize)
                            || !ns@.contains(b as usize)) ==> #[trigger] self.edge(a, b)
                            == g0.edge(a, b),
                decreases len - j,
            {
                let a = ns[i];
                let b = ns[j];
                self.add_edge(a, b);
                j += 1;
            }
            i += 1;
        }
        let ghost g1 = *self;
        // Remove every edge incident to v.
        let n = self.adj.len();
        let mut a: usize = 0;
        while a < n
            invariant
                n == g1.n(),
                self.n() == g1.n(),
                v < g1.n(),
                a <= n,
                forall|u: int| 0 <= u < self.n() ==> (#[trigger] self.adj@[u])@.len() == self.n(),
                g1.wf(),
                forall|x: int, y: int|
                    0 <= x < g1.n() && 0 <= y < g1.n() && x != v && y != v ==> #[trigger] self.edge(
                        x,
                        y,
                    ) == g1.edge(x, y),
                forall|x: int|
                    0 <= x < a ==> !(#[trigger] self.edge(v as int, x)) && !self.edge(x, v as int),
                forall|x: int|
                    a <= x < g1.n() ==> #[trigger] self.edge(v as int, x) == g1.edge(v as int, x)
                        && self.edge(x, v as int) == g1.edge(x, v as int),
            decreases n - a,
        {
            let ghost prev = *self;
            self.adj[v][a] = false;
            self.adj[a][v] = false;
            proof {
                assert forall|x: int, y: int|
                    0 <= x < g1.n() && 0 <= y < g1.n() && x != v && y != v implies #[trigger] self.edge(
                    x,
                    y,
                ) == prev.edge(x, y) by {}
                assert(!self.edge(v as int, a as int));
                assert(!self.edge(a as int, v as int));
                assert forall|x: int|
                    0 <= x < g1.n() && x != a implies #[trigger] self.edge(v as int, x)
                    == prev.edge(v as int, x) && self.edge(x, v as int) == prev.edge(
                    x,
                    v as int,
                ) by {}
            }
            a += 1;
        }
        proof {
            assert forall|x: int, y: int|
                0 <= x < self.n() && 0 <= y < self.n() implies #[trigger] self.edge(x, y)
                == self.edge(y, x) by {
                if x != v && y != v {
                    assert(self.edge(x, y) == g1.edge(x, y));
                    assert(self.edge(y, x) == g1.edge(y, x));
                }
            }
            assert(self.wf());
            assert forall|a2: int, b2: int|
                0 <= a2 < self.n() && 0 <= b2 < self.n() && a2 != v && b2 != v && a2
                    != b2 implies #[trigger] self.edge(a2, b2) == (g0.edge(a2, b2) || (g0.edge(
                v as int,
                a2,
            ) && g0.edge(v as int, b2))) by {
                assert(self.edge(a2, b2) == g1.edge(a2, b2));
                if g0.edge(v as int, a2) && g0.edge(v as int, b2) {
                    assert(ns@.contains(a2 as usize));
                    assert(ns@.contains(b2 as usize));
                    let p = choose|p: int| 0 <= p < ns@.len() && ns@[p] == a2 as usize;
                    let q = choose|q: int| 0 <= q < ns@.len() && ns@[q] == b2 as usize;
                    if a2 < b2 {
                        assert(p < q) by {
                            if p >= q {
                                if p == q {
                                    assert(a2 == b2);
                                } else {
                                    assert(ns@[q] < ns@[p]);
                                }
                            }
                        }
                        assert(g1.edge(ns@[p] as int, ns@[q] as int) == (g0.edge(a2, b2) || true));
                    } else {
                        assert(q < p) by {
                            if q >= p {
                                if p == q {
                                    assert(a2 == b2);
                                } else {
                                    assert(ns@[p] < ns@[q]);
                                }
                            }
                        }
                        assert(g1.edge(ns@[q] as int, ns@[p] as int) == (g0.edge(b2, a2) || true));
                    }
                } else {
                    if !(g0.edge(v as int, a2) && g0.edge(v as int, b2)) {
                        assert(!ns@.contains(a2 as usize) || !ns@.contains(b2 as usize)) by {
                            if ns@.contains(a2 as usize) && ns@.contains(b2 as usize) {
                                let p = choose|p: int|
                                    0 <= p < ns@.len() && ns@[p] == a2 as usize;
                                let q = choose|q: int|
                                    0 <= q < ns@.len() && ns@[q] == b2 as usize;
                                assert(g0.edge(v as int, a2));
                                assert(g0.edge(v as int, b2));
                            }
                        }
                        assert(g1.edge(a2, b2) == g0.edge(a2, b2));
                    }
                }
            }
        }
    }

    /// Builds the primal graph of a clause list over `n` variables: distinct
    /// variables are adjacent exactly when they co-occur in some clause.
    pub fn from_clauses(n: usize, clauses: &Vec<Vec<i64>>) -> (r: Result<Graph, ConfigError>)
        requires
            n * n < usize::MAX,
        ensures
            r is Err <==> (n == 0 || !(forall|i: int|
                0 <= i < clauses@.len() ==> clause_ok(n as int, #[trigger] clauses@[i]@))),
            r == Err::<Graph, ConfigError>(ConfigError::NoVariables) <==> n == 0,
            r matches Ok(g) ==> {
                &&& g.wf()
                &&& g.n() == n
                &&& forall|u: int, w: int|
                    0 <= u < n && 0 <= w < n ==> (#[trigger] g.edge(u, w) <==> co_occur(
                        clauses@,
                        u,
                        w,
                    ))
            },
    {
        if n == 0 {
            return Err(ConfigError::NoVariables);
        }
        proof {
            // n * n fits in a word, so n itself is far below i64::MAX.
            assert(n < 0x8000_0000_0000_0000) by {
                if n >= 0x8000_0000_0000_0000 {
                    assert(n * n >= 0x8000_0000_0000_0000 * 0x8000_0000_0000_0000)
                        by (nonlinear_arith)
                        requires
                            n >= 0x8000_0000_0000_0000,
                    ;
                    assert(usize::MAX <= u64::MAX);
                    assert(false);
                }
            }
        }
        // Validate every literal before touching the graph.
        let mut i: usize = 0;
        while i < clauses.len()
            invariant
                n >= 1,
                n < 0x8000_0000_0000_0000,
                forall|i2: int| 0 <= i2 < i ==> clause_ok(n as int, #[trigger] clauses@[i2]@),
            decreases clauses@.len() - i,
        {
            let c = &clauses[i];
            let mut k: usize = 0;
            while k < c.len()
                invariant
                    n >= 1,
                    n < 0x8000_0000_0000_0000,
                    i < clauses@.len(),
                    c == &clauses[i as int],
                    forall|k2: int| 0 <= k2 < k ==> 0 <= lit_var(#[trigger] c@[k2]) < n,
                decreases c@.len() - k,
            {
                let lit = c[k];
                if lit == 0 || lit == i64::MIN {
                    proof {
                        assert(!(0 <= lit_var(c@[k as int]) < n));
                    }
                    return Err(ConfigError::LiteralOutOfRange);
                }
                let av: i64 = if lit < 0 {
                    -lit
                } else {
                    lit
                };
                if (av as u64) > (n as u64) {
                    proof {
                        assert(lit_var(c@[k as int]) >= n);
                    }
                    return Err(ConfigError::LiteralOutOfRange);
                }
                k += 1;
            }
            i += 1;
        }
        let mut g = Graph::new(n);
        let mut i: usize = 0;
        while i < clauses.len()
            invariant
                g.wf(),
                g.n() == n,
                n >= 1,
                n < 0x8000_0000_0000_0000,
                forall|i2: int| 0 <= i2 < clauses@.len() ==> clause_ok(n as int, #[trigger] clauses@[i2]@),
                forall|u: int, w: int|
                    0 <= u < n && 0 <= w < n && #[trigger] g.edge(u, w) ==> co_occur(clauses@, u, w),
                forall|i2: int, a: int, b: int|
                    0 <= i2 < i && 0 <= a < clauses@[i2]@.len() && 0 <= b < clauses@[i2]@.len()
                        && lit_var(clauses@[i2]@[a]) != lit_var(clauses@[i2]@[b]) ==> g.edge(
                        lit_var(#[trigger] clauses@[i2]@[a]),
                        lit_var(#[trigger] clauses@[i2]@[b]),
                    ),
            decreases clauses@.len() - i,
        {
            let ghost cseq = clauses@[i as int]@;
            let c = &clauses[i];
            proof {
                assert(clause_ok(n as int, clauses@[i as int]@));
            }
            let clen = c.len();
            let mut a: usize = 0;
            while a < clen
                invariant
                    g.wf(),
                    g.n() == n,
                    n >= 1,
                    n < 0x8000_0000_0000_0000,
                    i < clauses@.len(),
                    c == &clauses[i as int],
                    cseq == c@,
                    clen == c@.len(),
                    a <= clen,
                    forall|i2: int|
                        0 <= i2 < clauses@.len() ==> clause_ok(n as int, #[trigger] clauses@[i2]@),
                    forall|u: int, w: int|
                        0 <= u < n && 0 <= w < n && #[trigger] g.edge(u, w) ==> co_occur(
                            clauses@,
                            u,
                            w,
                        ),
                    forall|i2: int, a2: int, b2: int|
                        0 <= i2 < i && 0 <= a2 < clauses@[i2]@.len() && 0 <= b2
                            < clauses@[i2]@.len() && lit_var(clauses@[i2]@[a2]) != lit_var(
                            clauses@[i2]@[b2],
                        ) ==> g.edge(
                            lit_var(#[trigger] clauses@[i2]@[a2]),
                            lit_var(#[trigger] clauses@[i2]@[b2]),
                        ),
                    forall|a2: int, b2: int|
                        0 <= a2 < a && 0 <= b2 < cseq.len() && lit_var(cseq[a2]) != lit_var(
                            cseq[b2],
                        ) ==> g.edge(lit_var(#[trigger] cseq[a2]), lit_var(#[trigger] cseq[b2])),
                decreases clen - a,
            {
                let la = c[a];
                proof {
                    assert(0 <= lit_var(cseq[a as int]) < n);
                }
                let ua: i64 = if la < 0 {
                    -la
                } else {
                    la
                };
                let mut b: usize = 0;
                while b < clen
                    invariant
                        g.wf(),
                        g.n() == n,
                        n >= 1,
                        n < 0x8000_0000_0000_0000,
                        i < clauses@.len(),
                        c == &clauses[i as int],
                        cseq == c@,
                        clen == c@.len(),
                        a < clen,
                        b <= clen,
                        la == cseq[a as int],
                        ua == (if la < 0 { -(la as int) } else { la as int }),
                        forall|i2: int|
                            0 <= i2 < clauses@.len() ==> clause_ok(
                                n as int,
                                #[trigger] clauses@[i2]@,
                            ),
                        forall|u: int, w: int|
                            0 <= u < n && 0 <= w < n && #[trigger] g.edge(u, w) ==> co_occur(
                                clauses@,
                                u,
                                w,
                            ),
                        forall|i2: int, a2: int, b2: int|
                            0 <= i2 < i && 0 <= a2 < clauses@[i2]@.len() && 0 <= b2
                                < clauses@[i2]@.len() && lit_var(clauses@[i2]@[a2]) != lit_var(
                                clauses@[i2]@[b2],
                            ) ==> g.edge(
                                lit_var(#[trigger] clauses@[i2]@[a2]),
                                lit_var(#[trigger] clauses@[i2]@[b2]),
                            ),
                        forall|a2: int, b2: int|
                            0 <= a2 < a && 0 <= b2 < cseq.len() && lit_var(cseq[a2]) != lit_var(
                                cseq[b2],
                            ) ==> g.edge(
                                lit_var(#[trigger] cseq[a2]),
                                lit_var(#[trigger] cseq[b2]),
                            ),
                        forall|b2: int|
                            0 <= b2 < b && lit_var(cseq[a as int]) != lit_var(cseq[b2]) ==> g.edge(
                                lit_var(cseq[a as int]),
                                lit_var(#[trigger] cseq[b2]),
                            ),
                    decreases clen - b,
                {
                    let lb = c[b];
                    proof {
                        assert(0 <= lit_var(cseq[b as int]) < n);
                    }
                    let ub: i64 = if lb < 0 {
                        -lb
                    } else {
                        lb
                    };
                    if ua != ub {
                        let vu = (ua - 1) as usize;
                        let vw = (ub - 1) as usize;
                        proof {
                            assert(0 <= lit_var(cseq[a as int]) < n);
                            assert(0 <= lit_var(cseq[b as int]) < n);
                        }
                        g.add_edge(vu, vw);
                        proof {
                            assert(co_occur(clauses@, vu as int, vw as int));
                            assert(co_occur(clauses@, vw as int, vu as int));
                        }
                    }
                    b += 1;
                }
                a += 1;
            }
            i += 1;
        }
        proof {
            assert forall|u: int, w: int| 0 <= u < n && 0 <= w < n && co_occur(
                clauses@,
                u,
                w,
            ) implies #[trigger] g.edge(u, w) by {
                let (i2, a2, b2) = choose|i2: int, a2: int, b2: int|
                    0 <= i2 < clauses@.len() && 0 <= a2 < clauses@[i2]@.len() && 0 <= b2
                        < clauses@[i2]@.len() && lit_var(#[trigger] clauses@[i2]@[a2]) == u
                        && lit_var(#[trigger] clauses@[i2]@[b2]) == w;
                assert(g.edge(lit_var(clauses@[i2]@[a2]), lit_var(clauses@[i2]@[b2])));
            }
        }
        Ok(g)
    }
}

/// A degree never exceeds the number of vertices.
pub proof fn lemma_degree_le_n(g: Graph, v: int)
    requires
        g.wf(),
        0 <= v < g.n(),
    ensures
        g.degree(v) <= g.n(),
{
    crate::counting::lemma_count_true_bound(g.adj@[v]@);
}

/// Two well-formed graphs of the same size in which `u` has the same
/// adjacency row have the same degree at `u`.
pub proof fn lemma_degree_same(g0: Graph, g1: Graph, u: int)
    requires
        g0.wf(),
        g1.wf(),
        g0.n() == g1.n(),
        0 <= u < g0.n(),
        forall|x: int| 0 <= x < g0.n() ==> #[trigger] g0.edge(u, x) == g1.edge(u, x),
    ensures
        g0.degree(u) == g1.degree(u),
{
    assert forall|x: int| 0 <= x < g0.n() implies g0.adj@[u]@[x] == g1.adj@[u]@[x] by {
        assert(g0.edge(u, x) == g1.edge(u, x));
    }
    assert(g0.adj@[u]@ =~= g1.adj@[u]@);
}

} // verus!
