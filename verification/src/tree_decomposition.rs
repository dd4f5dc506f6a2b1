//! The tree-decomposition engine: greedy elimination with a lazily
//! revalidated bucket queue, tree assembly by parent-linking, and bottom-up
//! compression of redundant bags.

use vstd::prelude::*;
use crate::buckets::BucketQueue;
use crate::counting::count_true;
use crate::counting::lemma_count_true_full;
use crate::counting::lemma_count_true_not_full;
use crate::counting::lemma_count_true_update;
use crate::counting::lemma_count_true_zero;
use crate::graph::Graph;
use crate::heuristic::TDHeuristic;
use crate::heuristic::lemma_score_bound;

verus! {

/// A bag is a strictly sorted list of vertices below `n`.
pub open spec fn bag_wf(b: Seq<usize>, n: int) -> bool {
    &&& forall|k: int| 0 <= k < b.len() ==> (#[trigger] b[k]) < n
    &&& forall|k1: int, k2: int| 0 <= k1 < k2 < b.len() ==> b[k1] < b[k2]
}

/// Every variable of the clause appears in the bag.
pub open spec fn clause_in_bag(c: Seq<i64>, b: Seq<usize>) -> bool {
    forall|l: int|
        0 <= l < c.len() ==> b.contains((crate::graph::lit_var(#[trigger] c[l])) as usize)
}

/// A non-empty clause has a member whose variable is eliminated no later
/// than any other member's; returns such a member's position.
proof fn lemma_min_order_var(c: Seq<i64>, no: Seq<usize>, n: int) -> (m: int)
    requires
        c.len() > 0,
        forall|l: int| 0 <= l < c.len() ==> 0 <= crate::graph::lit_var(#[trigger] c[l]) < n,
        no.len() == n,
    ensures
        0 <= m < c.len(),
        forall|l: int|
            0 <= l < c.len() ==> no[crate::graph::lit_var(c[m]) as int] <= no[crate::graph::lit_var(
                #[trigger] c[l],
            ) as int],
    decreases c.len(),
{
    if c.len() == 1 {
        0
    } else {
        let cp = c.drop_last();
        assert(forall|l: int|
            0 <= l < cp.len() ==> 0 <= crate::graph::lit_var(#[trigger] cp[l]) < n) by {
            assert(forall|l: int| 0 <= l < cp.len() ==> cp[l] == c[l]);
        }
        let m0 = lemma_min_order_var(cp, no, n);
        assert(cp[m0] == c[m0]);
        assert(forall|l: int| 0 <= l < cp.len() ==> cp[l] == c[l]);
        let last = c.len() - 1;
        if no[crate::graph::lit_var(c[last]) as int] < no[crate::graph::lit_var(c[m0]) as int] {
            last
        } else {
            m0
        }
    }
}

/// An edge of the input graph survives every elimination step that removes
/// neither endpoint.
proof fn lemma_edge_persists(
    snaps: Seq<Graph>,
    order: Seq<usize>,
    nodes_order: Seq<usize>,
    u: int,
    w: int,
    i: int,
)
    requires
        snaps.len() == order.len() + 1,
        nodes_order.len() == order.len(),
        forall|j: int|
            0 <= j < order.len() ==> (#[trigger] order[j]) < order.len() && nodes_order[order[j] as int]
                == j,
        forall|j: int|
            0 <= j < order.len() ==> crate::graph::eliminated_from(
                snaps[j],
                #[trigger] snaps[j + 1],
                order[j] as int,
            ),
        forall|j: int| 0 <= j <= order.len() ==> (#[trigger] snaps[j]).wf() && snaps[j].n() == order.len(),
        0 <= u < order.len(),
        0 <= w < order.len(),
        u != w,
        snaps[0].edge(u, w),
        0 <= i <= order.len(),
        i <= nodes_order[u],
        i <= nodes_order[w],
    ensures
        snaps[i].edge(u, w),
    decreases i,
{
    if i > 0 {
        lemma_edge_persists(snaps, order, nodes_order, u, w, i - 1);
        let vj = order[i - 1];
        assert(u != vj) by {
            if u == vj {
                assert(nodes_order[u] == i - 1);
            }
        }
        assert(w != vj) by {
            if w == vj {
                assert(nodes_order[w] == i - 1);
            }
        }
        assert(crate::graph::eliminated_from(snaps[i - 1], snaps[(i - 1) + 1], order[i - 1] as int));
        assert(snaps[(i - 1) + 1] == snaps[i]);
        assert(snaps[i].edge(u, w) == (snaps[i - 1].edge(u, w) || (snaps[i - 1].edge(
            vj as int,
            u,
        ) && snaps[i - 1].edge(vj as int, w))));
    }
}

/// Runs the greedy elimination process on `g` until every vertex is
/// eliminated, returning the order (step to vertex), its inverse (vertex to
/// step), one bag per step, and the ghost sequence of graph snapshots that
/// pins each bag down: bag `i` is exactly the vertex eliminated at step `i`
/// together with its neighbors in the graph as it stood at step `i`.
#[verifier::spinoff_prover]
pub fn run_elimination(g: Graph, heuristic: &TDHeuristic) -> (r: (
    Vec<usize>,
    Vec<usize>,
    Vec<Vec<usize>>,
    Ghost<Seq<Graph>>,
))
    requires
        g.wf(),
    ensures
        ({
            let (order, nodes_order, bags, snaps) = r;
            let n = g.n();
            &&& order@.len() == n
            &&& nodes_order@.len() == n
            &&& bags@.len() == n
            &&& forall|i: int|
                0 <= i < n ==> (#[trigger] order@[i]) < n && nodes_order@[order@[i] as int] == i
            &&& forall|v: int|
                0 <= v < n ==> (#[trigger] nodes_order@[v]) < n && order@[nodes_order@[v] as int]
                    == v
            &&& forall|i: int| 0 <= i < n ==> bag_wf((#[trigger] bags@[i])@, n)
            &&& forall|i: int| 0 <= i < n ==> (#[trigger] bags@[i])@.contains(order@[i])
            &&& forall|i: int, k: int|
                0 <= i < n && 0 <= k < bags@[i]@.len() ==> nodes_order@[(
                #[trigger] bags@[i]@[k]) as int] >= i
            &&& forall|i: int, k: int|
                0 <= i < n && 0 <= k < bags@[i]@.len() && (#[trigger] bags@[i]@[k]) != order@[i]
                    ==> nodes_order@[bags@[i]@[k] as int] > i
            &&& snaps@.len() == n + 1
            &&& snaps@[0] == g
            &&& forall|i: int|
                0 <= i <= n ==> (#[trigger] snaps@[i]).wf() && snaps@[i].n() == n
            &&& forall|i: int|
                0 <= i < n ==> crate::graph::eliminated_from(
                    snaps@[i],
                    #[trigger] snaps@[i + 1],
                    order@[i] as int,
                )
            &&& forall|i: int, w: int|
                0 <= i < n && 0 <= w < n ==> ((#[trigger] bags@[i]@.contains(w as usize)) <==> (w
                    == order@[i] || snaps@[i].edge(order@[i] as int, w)))
        }),
{
    let ghost g_in = g;
    let mut g = g;
    let ghost mut snaps: Seq<Graph> = seq![g_in];
    let n = g.num_vertices();
    let mut order: Vec<usize> = Vec::new();
    let mut nodes_order: Vec<usize> = Vec::new();
    let mut placed: Vec<bool> = Vec::new();
    let mut dirty: Vec<bool> = Vec::new();
    while nodes_order.len() < n
        invariant
            nodes_order@.len() <= n,
            nodes_order@.len() == placed@.len(),
            placed@.len() == dirty@.len(),
            forall|v: int| 0 <= v < placed@.len() ==> !(#[trigger] placed@[v]),
            forall|v: int| 0 <= v < dirty@.len() ==> !(#[trigger] dirty@[v]),
        decreases n - nodes_order@.len(),
    {
        nodes_order.push(0);
        placed.push(false);
        dirty.push(false);
    }
    proof {
        lemma_count_true_zero(placed@);
    }
    let mut bags: Vec<Vec<usize>> = Vec::new();
    let mut queue = BucketQueue::new();
    // Initialise the buckets with every vertex at its initial score.
    let mut candidate: usize = 0;
    while candidate < n
        invariant
            g.wf(),
            g.n() == n,
            candidate <= n,
            queue.wf(),
            forall|v: usize|
                v < candidate ==> #[trigger] queue.count(v) == 1,
            forall|v: usize|
                candidate <= v ==> #[trigger] queue.count(v) == 0,
        decreases n - candidate,
    {
        let score = heuristic.evaluate_node(&g, candidate);
        proof {
            lemma_score_bound(*heuristic, g, candidate as int);
        }
        queue.insert(score, candidate);
        candidate += 1;
    }
    // Eliminate one vertex per step.
    let mut ord: usize = 0;
    while ord < n
        invariant
            g.wf(),
            g.n() == n,
            ord <= n,
            order@.len() == ord,
            nodes_order@.len() == n,
            placed@.len() == n,
            dirty@.len() == n,
            bags@.len() == ord,
            queue.wf(),
            count_true(placed@) == ord,
            forall|v: usize|
                v < n ==> #[trigger] queue.count(v) == (if placed@[v as int] {
                    0nat
                } else {
                    1nat
                }),
            forall|v: usize| n <= v ==> #[trigger] queue.count(v) == 0,
            forall|i: int|
                0 <= i < ord ==> (#[trigger] order@[i]) < n && placed@[order@[i] as int]
                    && nodes_order@[order@[i] as int] == i,
            forall|v: int|
                0 <= v < n && #[trigger] placed@[v] ==> nodes_order@[v] < ord
                    && order@[nodes_order@[v] as int] == v,
            forall|v: int, a: int|
                0 <= v < n && 0 <= a < n && placed@[v] ==> !(#[trigger] g.edge(v, a)),
            forall|i: int| 0 <= i < ord ==> bag_wf((#[trigger] bags@[i])@, n as int),
            forall|i: int| 0 <= i < ord ==> (#[trigger] bags@[i])@.contains(order@[i]),
            forall|i: int, k: int|
                0 <= i < ord && 0 <= k < bags@[i]@.len() && placed@[(
                #[trigger] bags@[i]@[k]) as int] ==> nodes_order@[bags@[i]@[k] as int] >= i && (
                bags@[i]@[k] != order@[i] ==> nodes_order@[bags@[i]@[k] as int] > i),
            snaps.len() == ord + 1,
            snaps[0] == g_in,
            snaps[ord as int] == g,
            forall|i: int| 0 <= i <= ord ==> (#[trigger] snaps[i]).wf() && snaps[i].n() == n,
            forall|i: int|
                0 <= i < ord ==> crate::graph::eliminated_from(
                    snaps[i],
                    #[trigger] snaps[i + 1],
                    order@[i] as int,
                ),
            forall|i: int, w: int|
                0 <= i < ord && 0 <= w < n ==> ((#[trigger] bags@[i]@.contains(w as usize)) <==> (
                w == order@[i] || snaps[i].edge(order@[i] as int, w))),
        decreases n - ord,
    {
        // Pop the best candidate, lazily re-scoring vertices that were
        // flagged dirty since their last evaluation.
        proof {
            lemma_count_true_not_full(placed@);
            let i = choose|i: int| 0 <= i < placed@.len() && !placed@[i];
            assert(queue.count(i as usize) == 1);
        }
        let mut chosen: usize = 0;
        let mut have: bool = false;
        while !have
            invariant
                g.wf(),
                g.n() == n,
                ord < n,
                placed@.len() == n,
                dirty@.len() == n,
                queue.wf(),
                count_true(placed@) == ord,
                !have ==> forall|v: usize|
                    v < n ==> #[trigger] queue.count(v) == (if placed@[v as int] {
                        0nat
                    } else {
                        1nat
                    }),
                forall|v: usize| n <= v ==> #[trigger] queue.count(v) == 0,
                have ==> {
                    &&& chosen < n
                    &&& !placed@[chosen as int]
                    &&& queue.count(chosen) == 0
                    &&& !dirty@[chosen as int]
                    &&& forall|v: usize|
                        v < n && v != chosen ==> #[trigger] queue.count(v) == (if placed@[v as int] {
                            0nat
                        } else {
                            1nat
                        })
                },
            decreases count_true(dirty@), (if have {
                0int
            } else {
                1int
            }),
        {
            proof {
                lemma_count_true_not_full(placed@);
                let i = choose|i: int| 0 <= i < placed@.len() && !placed@[i];
                assert(queue.count(i as usize) == 1);
            }
            let (score, x) = queue.pop_min();
            proof {
                assert(x < n && !placed@[x as int]) by {
                    if x >= n || placed@[x as int] {
                        assert(queue.count(x) == 0);
                    }
                }
            }
            if dirty[x] {
                let ghost dirty0 = dirty@;
                dirty[x] = false;
                proof {
                    lemma_count_true_update(dirty0, x as int, false);
                }
                let new_score = heuristic.evaluate_node(&g, x);
                proof {
                    lemma_score_bound(*heuristic, g, x as int);
                }
                if new_score > score {
                    queue.insert(new_score, x);
                } else {
                    chosen = x;
                    have = true;
                }
            } else {
                chosen = x;
                have = true;
            }
        }
        let v = chosen;
        // Record the elimination step.
        nodes_order[v] = ord;
        order.push(v);
        let ghost placed0 = placed@;
        placed[v] = true;
        proof {
            lemma_count_true_update(placed0, v as int, true);
        }
        // The bag: v together with its current neighbors, in ascending order.
        let mut bag: Vec<usize> = Vec::new();
        let mut w: usize = 0;
        while w < n
            invariant
                g.wf(),
                g.n() == n,
                v < n,
                w <= n,
                forall|k: int| 0 <= k < bag@.len() ==> (#[trigger] bag@[k]) < w,
                forall|k1: int, k2: int| 0 <= k1 < k2 < bag@.len() ==> bag@[k1] < bag@[k2],
                forall|k: int|
                    0 <= k < bag@.len() ==> ((#[trigger] bag@[k]) == v || g.edge(
                        v as int,
                        bag@[k] as int,
                    )),
                forall|x: int|
                    0 <= x < w && (x == v || g.edge(v as int, x)) ==> #[trigger] bag@.contains(
                        x as usize,
                    ),
            decreases n - w,
        {
            let ghost bag0 = bag@;
            if w == v || g.has_edge(v, w) {
                bag.push(w);
            }
            proof {
                assert forall|x: int|
                    0 <= x < w + 1 && (x == v || g.edge(v as int, x)) implies #[trigger] bag@.contains(
                    x as usize,
                ) by {
                    if x < w {
                        assert(bag0.contains(x as usize));
                        let k = choose|k: int| 0 <= k < bag0.len() && bag0[k] == x as usize;
                        assert(bag@[k] == x as usize);
                    } else {
                        assert(bag@[bag@.len() - 1] == w);
                    }
                }
            }
            w += 1;
        }
        proof {
            assert(bag@.contains(v)) by {
                assert(bag@.contains((v as int) as usize));
            }
        }
        bags.push(bag);
        // Flag the vertices whose score may change, on the graph as it is
        // before the elimination mutates it.
        heuristic.flag_nodes_to_update(&g, v, &mut dirty);
        // Apply the elimination to the graph.
        let ghost g0 = g;
        g.eliminate(v);
        proof {
            snaps = snaps.push(g);
            assert(snaps[ord as int] == g0);
            assert(snaps[ord + 1] == g);
            // The fresh bag holds exactly v and its neighbors at this step.
            assert forall|w: int|
                0 <= w < n implies ((#[trigger] bags@[ord as int]@.contains(w as usize)) <==> (w
                == order@[ord as int] || g0.edge(order@[ord as int] as int, w))) by {
                if bags@[ord as int]@.contains(w as usize) {
                    let k = choose|k: int|
                        0 <= k < bags@[ord as int]@.len() && bags@[ord as int]@[k] == w as usize;
                    assert(bags@[ord as int]@[k] == v || g0.edge(v as int, bags@[ord as int]@[k] as int));
                }
            }
            // Previously eliminated vertices stay isolated.
            assert forall|p: int, a: int|
                0 <= p < n && 0 <= a < n && placed@[p] implies !(#[trigger] g.edge(p, a)) by {
                if p != v as int {
                    if a == v as int {
                        assert(!g.edge(p, v as int));
                    } else if a != p {
                        assert(!g0.edge(p, a));
                        assert(!g0.edge(p, v as int));
                        assert(!g0.edge(v as int, p));
                        assert(g.edge(p, a) == (g0.edge(p, a) || (g0.edge(v as int, p) && g0.edge(
                            v as int,
                            a,
                        ))));
                    } else {
                        assert(!g.edge(p, p));
                    }
                }
            }
            // Members of the fresh bag other than v are not yet placed.
            assert forall|k: int|
                0 <= k < bags@[ord as int]@.len() && (#[trigger] bags@[ord as int]@[k])
                    != order@[ord as int] implies !placed0[bags@[ord as int]@[k] as int] by {
                let x = bags@[ord as int]@[k];
                assert(x == v || g0.edge(v as int, x as int));
                if placed0[x as int] {
                    assert(!g0.edge(x as int, v as int));
                    assert(!g0.edge(v as int, x as int));
                }
            }
        }
        ord += 1;
    }
    proof {
        lemma_count_true_full(placed@);
        assert forall|v: int|
            0 <= v < n implies (#[trigger] nodes_order@[v]) < n
            && order@[nodes_order@[v] as int] == v by {
            assert(placed@[v]);
        }
    }
    (order, nodes_order, bags, Ghost(snaps))
}

/// Membership test on a bag.
pub fn bag_contains(b: &Vec<usize>, x: usize) -> (r: bool)
    ensures
        r == b@.contains(x),
{
    let mut k: usize = 0;
    while k < b.len()
        invariant
            k <= b@.len(),
            forall|j: int| 0 <= j < k ==> b@[j] != x,
        decreases b@.len() - k,
    {
        if b[k] == x {
            return true;
        }
        k += 1;
    }
    false
}

/// One bag's vertices all appear in another.
pub open spec fn seq_subset(a: Seq<usize>, b: Seq<usize>) -> bool {
    forall|k: int| 0 <= k < a.len() ==> b.contains(#[trigger] a[k])
}

/// Subset containment is transitive.
proof fn lemma_seq_subset_trans(a: Seq<usize>, b: Seq<usize>, c: Seq<usize>)
    requires
        seq_subset(a, b),
        seq_subset(b, c),
    ensures
        seq_subset(a, c),
{
    assert forall|k: int| 0 <= k < a.len() implies c.contains(#[trigger] a[k]) by {
        assert(b.contains(a[k]));
        let j = choose|j: int| 0 <= j < b.len() && b[j] == a[k];
        assert(c.contains(b[j]));
    }
}

/// Subset test on bags.
pub fn is_subset_of(a: &Vec<usize>, b: &Vec<usize>) -> (r: bool)
    ensures
        r == seq_subset(a@, b@),
{
    let mut k: usize = 0;
    while k < a.len()
        invariant
            k <= a@.len(),
            forall|j: int| 0 <= j < k ==> b@.contains(#[trigger] a@[j]),
        decreases a@.len() - k,
    {
        if !bag_contains(b, a[k]) {
            return false;
        }
        k += 1;
    }
    true
}

/// An element-for-element copy of a bag.
fn copy_vec(src: &Vec<usize>) -> (r: Vec<usize>)
    ensures
        r@ == src@,
{
    let mut r: Vec<usize> = Vec::new();
    let mut k: usize = 0;
    while k < src.len()
        invariant
            k <= src@.len(),
            r@ =~= src@.take(k as int),
        decreases src@.len() - k,
    {
        r.push(src[k]);
        proof {
            assert(r@ =~= src@.take(k + 1));
        }
        k += 1;
    }
    proof {
        assert(src@.take(src@.len() as int) =~= src@);
    }
    r
}

/// The parent of the bag eliminated at step `i`, over a prefix of the bag:
/// the smallest step strictly greater than `i` at which a member of the bag
/// is eliminated, if any.
pub open spec fn min_parent(bag: Seq<usize>, no: Seq<usize>, i: int) -> Option<usize>
    decreases bag.len(),
{
    if bag.len() == 0 {
        Option::None
    } else {
        let rest = min_parent(bag.drop_last(), no, i);
        let o = no[bag.last() as int];
        match rest {
            Option::None => if o > i {
                Option::Some(o)
            } else {
                Option::None
            },
            Option::Some(m) => if o > i && o < m {
                Option::Some(o)
            } else {
                Option::Some(m)
            },
        }
    }
}

/// Whatever `min_parent` returns is the elimination step of some member,
/// strictly beyond `i`.
proof fn lemma_min_parent_props(bag: Seq<usize>, no: Seq<usize>, i: int)
    ensures
        min_parent(bag, no, i) matches Option::Some(p) ==> p > i && exists|k: int|
            0 <= k < bag.len() && no[(#[trigger] bag[k]) as int] == p,
    decreases bag.len(),
{
    if bag.len() > 0 {
        lemma_min_parent_props(bag.drop_last(), no, i);
        if min_parent(bag, no, i) is Some {
            let p = min_parent(bag, no, i)->Some_0;
            let o = no[bag.last() as int];
            if p == o {
                assert(no[bag[bag.len() - 1] as int] == p);
            } else {
                let k = choose|k: int|
                    0 <= k < bag.drop_last().len() && no[(#[trigger] bag.drop_last()[k]) as int]
                        == p;
                assert(no[bag[k] as int] == p);
            }
        }
    }
}

/// Computes each bag's parent (by `min_parent`) and the derived child lists.
#[verifier::spinoff_prover]
pub fn link_parents(bags: &Vec<Vec<usize>>, nodes_order: &Vec<usize>) -> (r: (
    Vec<Option<usize>>,
    Vec<Vec<usize>>,
))
    requires
        bags@.len() == nodes_order@.len(),
        forall|i: int| 0 <= i < bags@.len() ==> bag_wf((#[trigger] bags@[i])@, bags@.len() as int),
        forall|v: int|
            0 <= v < nodes_order@.len() ==> (#[trigger] nodes_order@[v]) < nodes_order@.len(),
    ensures
        ({
            let (parents, children) = r;
            let n = bags@.len() as int;
            &&& parents@.len() == n
            &&& children@.len() == n
            &&& forall|i: int|
                0 <= i < n ==> parents@[i] == min_parent((#[trigger] bags@[i])@, nodes_order@, i)
            &&& forall|i: int|
                0 <= i < n ==> ((#[trigger] parents@[i]) matches Option::Some(p) ==> i < p < n)
            &&& forall|p: int, k: int|
                0 <= p < n && 0 <= k < children@[p]@.len() ==> (#[trigger] children@[p]@[k]) < n
                    && parents@[children@[p]@[k] as int] == Option::Some(p as usize)
            &&& forall|p: int, k1: int, k2: int|
                0 <= p < n && 0 <= k1 < k2 < children@[p]@.len() ==> children@[p]@[k1]
                    < children@[p]@[k2]
            &&& forall|i: int|
                0 <= i < n ==> ((#[trigger] parents@[i]) matches Option::Some(p)
                    ==> children@[p as int]@.contains(i as usize))
        }),
{
    let n = bags.len();
    let mut parents: Vec<Option<usize>> = Vec::new();
    let mut i: usize = 0;
    while i < n
        invariant
            n == bags@.len(),
            bags@.len() == nodes_order@.len(),
            i <= n,
            parents@.len() == i,
            forall|j: int| 0 <= j < bags@.len() ==> bag_wf((#[trigger] bags@[j])@, n as int),
            forall|v: int| 0 <= v < nodes_order@.len() ==> (#[trigger] nodes_order@[v]) < n,
            forall|j: int|
                0 <= j < i ==> parents@[j] == min_parent((#[trigger] bags@[j])@, nodes_order@, j),
            forall|j: int|
                0 <= j < i ==> ((#[trigger] parents@[j]) matches Option::Some(p) ==> j < p < n),
        decreases n - i,
    {
        let bag = &bags[i];
        let mut cur: Option<usize> = None;
        let mut k: usize = 0;
        while k < bag.len()
            invariant
                n == bags@.len(),
                bags@.len() == nodes_order@.len(),
                i < n,
                bag == &bags@[i as int],
                k <= bag@.len(),
                bag_wf(bag@, n as int),
                forall|v: int| 0 <= v < nodes_order@.len() ==> (#[trigger] nodes_order@[v]) < n,
                cur == min_parent(bag@.take(k as int), nodes_order@, i as int),
            decreases bag@.len() - k,
        {
            let y = bag[k];
            let o = nodes_order[y];
            let next: Option<usize> = match cur {
                None => if o > i {
                    Some(o)
                } else {
                    None
                },
                Some(m) => if o > i && o < m {
                    Some(o)
                } else {
                    Some(m)
                },
            };
            proof {
                assert(bag@.take(k + 1).drop_last() =~= bag@.take(k as int));
                assert(bag@.take(k + 1).last() == bag@[k as int]);
            }
            cur = next;
            k += 1;
        }
        proof {
            assert(bag@.take(bag@.len() as int) =~= bag@);
            lemma_min_parent_props(bag@, nodes_order@, i as int);
        }
        parents.push(cur);
        i += 1;
    }
    let mut children: Vec<Vec<usize>> = Vec::new();
    while children.len() < n
        invariant
            children@.len() <= n,
            forall|p: int| 0 <= p < children@.len() ==> (#[trigger] children@[p])@.len() == 0,
        decreases n - children@.len(),
    {
        children.push(Vec::new());
    }
    let mut i: usize = 0;
    while i < n
        invariant
            n == bags@.len(),
            i <= n,
            parents@.len() == n,
            children@.len() == n,
            forall|j: int|
                0 <= j < n ==> parents@[j] == min_parent((#[trigger] bags@[j])@, nodes_order@, j),
            forall|j: int|
                0 <= j < n ==> ((#[trigger] parents@[j]) matches Option::Some(p) ==> j < p < n),
            forall|p: int, k: int|
                0 <= p < n && 0 <= k < children@[p]@.len() ==> (#[trigger] children@[p]@[k]) < i
                    && parents@[children@[p]@[k] as int] == Option::Some(p as usize),
            forall|p: int, k1: int, k2: int|
                0 <= p < n && 0 <= k1 < k2 < children@[p]@.len() ==> children@[p]@[k1]
                    < children@[p]@[k2],
            forall|j: int|
                0 <= j < i ==> ((#[trigger] parents@[j]) matches Option::Some(p)
                    ==> children@[p as int]@.contains(j as usize)),
        decreases n - i,
    {
        let pi = parents[i];
        match pi {
            None => {},
            Some(p) => {
                let ghost children0 = children@;
                let row = &mut children[p];
                let ghost r0 = row@;
                row.push(i);
                proof {
                    assert(children@ =~= children0.update(p as int, children@[p as int]));
                    assert(children@[p as int]@ =~= r0.push(i));
                    assert(children@[p as int]@[children@[p as int]@.len() - 1] == i);
                    assert forall|j: int|
                        0 <= j < i + 1 && (#[trigger] parents@[j]) is Some implies children@[(
                        parents@[j]->Some_0) as int]@.contains(j as usize) by {
                        if j < i {
                            let q = parents@[j]->Some_0;
                            let k = choose|k: int|
                                0 <= k < children0[q as int]@.len() && children0[q as int]@[k] == j;
                            assert(children@[q as int]@[k] == j);
                        } else {
                            assert(children@[p as int]@.contains(i as usize));
                        }
                    }
                }
            },
        }
        i += 1;
    }
    (parents, children)
}

/// Compresses the tree bottom-up: a bag that is a subset of its parent is
/// deleted, its children re-parented onto that parent, and the parent is
/// reconsidered, until the worklist drains.  Deleted bags are left empty and
/// their old contents lie inside a surviving bag; surviving bags are
/// untouched; roots are never deleted; and an initial leaf that is a subset
/// of its parent never survives.  A parent that is a subset of its *child*
/// is deliberately kept: compression works upward against parents only, as
/// the elimination order builds parents after their children.
#[verifier::spinoff_prover]
#[verifier::rlimit(100)]
pub fn compress_tree(
    bags: &mut Vec<Vec<usize>>,
    parents: &mut Vec<Option<usize>>,
    children: &mut Vec<Vec<usize>>,
)
    requires
        old(bags)@.len() >= 1,
        old(parents)@.len() == old(bags)@.len(),
        old(children)@.len() == old(bags)@.len(),
        forall|i: int|
            0 <= i < old(bags)@.len() ==> bag_wf(
                (#[trigger] old(bags)@[i])@,
                old(bags)@.len() as int,
            ),
        forall|i: int| 0 <= i < old(bags)@.len() ==> (#[trigger] old(bags)@[i])@.len() >= 1,
        forall|i: int|
            0 <= i < old(bags)@.len() ==> ((#[trigger] old(parents)@[i]) matches Option::Some(p)
                ==> i < p < old(bags)@.len()),
        forall|p: int, k: int|
            0 <= p < old(bags)@.len() && 0 <= k < old(children)@[p]@.len() ==> (
            #[trigger] old(children)@[p]@[k]) < old(bags)@.len()
                && old(parents)@[old(children)@[p]@[k] as int] == Option::Some(p as usize),
        forall|i: int|
            0 <= i < old(bags)@.len() ==> ((#[trigger] old(parents)@[i]) matches Option::Some(p)
                ==> old(children)@[p as int]@.contains(i as usize)),
    ensures
        ({
            let n = old(bags)@.len() as int;
            &&& final(bags)@.len() == n
            &&& final(parents)@.len() == n
            &&& final(children)@.len() == n
            &&& forall|i: int| 0 <= i < n ==> bag_wf((#[trigger] final(bags)@[i])@, n)
            &&& forall|i: int|
                0 <= i < n && (#[trigger] final(bags)@[i])@.len() >= 1 ==> final(bags)@[i]@
                    == old(bags)@[i]@
            &&& forall|i: int|
                0 <= i < n ==> ((#[trigger] final(parents)@[i]) matches Option::Some(p) ==> i < p
                    < n && final(bags)@[i]@.len() >= 1 && final(bags)@[p as int]@.len() >= 1)
            &&& forall|p: int, k: int|
                0 <= p < n && 0 <= k < final(children)@[p]@.len() ==> (
                #[trigger] final(children)@[p]@[k]) < n
                    && final(parents)@[final(children)@[p]@[k] as int] == Option::Some(p as usize)
            &&& final(bags)@[n - 1]@.len() >= 1
            &&& forall|i: int|
                0 <= i < n && (#[trigger] old(parents)@[i]) is None ==> final(parents)@[i] is None
                    && final(bags)@[i]@ == old(bags)@[i]@
            &&& forall|i: int|
                0 <= i < n && (#[trigger] final(bags)@[i])@.len() == 0 ==> exists|p: int|
                    0 <= p < n && (#[trigger] final(bags)@[p])@.len() >= 1 && seq_subset(
                        old(bags)@[i]@,
                        final(bags)@[p]@,
                    )
            &&& forall|k: int|
                0 <= k < n && (#[trigger] old(children)@[k])@.len() == 0 && (old(parents)@[k]
                    matches Option::Some(p) && seq_subset(
                    old(bags)@[k]@,
                    old(bags)@[p as int]@,
                )) ==> final(bags)@[k]@.len() == 0
        }),
{
    let n = bags.len();
    let mut queue: Vec<usize> = Vec::new();
    let mut queued: Vec<bool> = Vec::new();
    while queued.len() < n
        invariant
            queued@.len() <= n,
            forall|i: int| 0 <= i < queued@.len() ==> !(#[trigger] queued@[i]),
        decreases n - queued@.len(),
    {
        queued.push(false);
    }
    proof {
        lemma_count_true_zero(queued@);
    }
    // Seed the worklist with the current leaves.
    let mut i: usize = 0;
    while i < n
        invariant
            n == bags@.len(),
            children@.len() == n,
            i <= n,
            queued@.len() == n,
            forall|k: int| 0 <= k < queue@.len() ==> (#[trigger] queue@[k]) < n,
            count_true(queued@) <= n,
            forall|q1: int, q2: int| 0 <= q1 < q2 < queue@.len() ==> queue@[q1] != queue@[q2],
            forall|q: int| 0 <= q < queue@.len() ==> queued@[(#[trigger] queue@[q]) as int],
            forall|q: int|
                0 <= q < queue@.len() ==> children@[(#[trigger] queue@[q]) as int]@.len() == 0,
            forall|j: int|
                0 <= j < queued@.len() && #[trigger] queued@[j] ==> exists|q: int|
                    0 <= q < queue@.len() && queue@[q] == j as usize,
            forall|j: int| 0 <= j < i && (#[trigger] children@[j])@.len() == 0 ==> queued@[j],
        decreases n - i,
    {
        if children[i].len() == 0 {
            if !queued[i] {
                let ghost q0 = queued@;
                let ghost qv0 = queue@;
                queued[i] = true;
                proof {
                    lemma_count_true_update(q0, i as int, true);
                    crate::counting::lemma_count_true_bound(queued@);
                }
                queue.push(i);
                proof {
                    assert(queue@[queue@.len() - 1] == i);
                    assert forall|q1: int, q2: int|
                        0 <= q1 < q2 < queue@.len() implies queue@[q1] != queue@[q2] by {
                        if q2 == queue@.len() - 1 {
                            assert(q0[qv0[q1] as int]);
                            assert(!q0[i as int]);
                        }
                    }
                    assert forall|j: int|
                        0 <= j < queued@.len() && queued@[j] implies exists|q: int|
                            0 <= q < queue@.len() && queue@[q] == j as usize by {
                        if j != i {
                            assert(q0[j]);
                            let q = choose|q: int| 0 <= q < qv0.len() && qv0[q] == j as usize;
                            assert(queue@[q] == j as usize);
                        } else {
                            assert(queue@[queue@.len() - 1] == j as usize);
                        }
                    }
                }
            }
        }
        i += 1;
    }
    let seeds = queue.len();
    // Drain the worklist.
    let mut head: usize = 0;
    while head < queue.len()
        invariant
            n == bags@.len(),
            n >= 1,
            parents@.len() == n,
            children@.len() == n,
            queued@.len() == n,
            head <= queue@.len(),
            count_true(queued@) <= n,
            forall|k: int| 0 <= k < queue@.len() ==> (#[trigger] queue@[k]) < n,
            forall|i: int| 0 <= i < n ==> bag_wf((#[trigger] bags@[i])@, n as int),
            forall|i: int|
                0 <= i < n && (#[trigger] bags@[i])@.len() >= 1 ==> bags@[i]@ == old(bags)@[i]@,
            forall|i: int|
                0 <= i < n ==> ((#[trigger] parents@[i]) matches Option::Some(p) ==> i < p < n
                    && bags@[i]@.len() >= 1 && bags@[p as int]@.len() >= 1),
            forall|p: int, k: int|
                0 <= p < n && 0 <= k < children@[p]@.len() ==> (#[trigger] children@[p]@[k]) < n
                    && parents@[children@[p]@[k] as int] == Option::Some(p as usize),
            forall|i: int|
                0 <= i < n ==> ((#[trigger] parents@[i]) matches Option::Some(p)
                    ==> children@[p as int]@.contains(i as usize)),
            bags@[n - 1]@.len() >= 1,
            seeds <= queue@.len(),
            forall|q1: int, q2: int| 0 <= q1 < q2 < queue@.len() ==> queue@[q1] != queue@[q2],
            forall|q: int| 0 <= q < queue@.len() ==> queued@[(#[trigger] queue@[q]) as int],
            forall|k: int|
                0 <= k < n && (#[trigger] old(children)@[k])@.len() == 0 ==> children@[k]@.len()
                    == 0,
            forall|q: int|
                0 <= q < seeds ==> (#[trigger] queue@[q]) < n && old(children)@[queue@[q] as int]@.len()
                    == 0,
            forall|j: int|
                0 <= j < n && (#[trigger] old(children)@[j])@.len() == 0 ==> exists|q: int|
                    0 <= q < seeds && queue@[q] == j as usize,
            forall|q: int|
                head <= q < seeds ==> parents@[(#[trigger] queue@[q]) as int] == old(
                    parents,
                )@[queue@[q] as int],
            forall|q: int|
                0 <= q < head && q < seeds && (old(parents)@[(#[trigger] queue@[q]) as int]
                    matches Option::Some(p) && seq_subset(
                    old(bags)@[queue@[q] as int]@,
                    old(bags)@[p as int]@,
                )) ==> bags@[queue@[q] as int]@.len() == 0,
            forall|i: int|
                0 <= i < n && (#[trigger] old(parents)@[i]) is None ==> parents@[i] is None
                    && bags@[i]@.len() >= 1,
            forall|i: int|
                0 <= i < n && (#[trigger] bags@[i])@.len() == 0 ==> exists|p: int|
                    0 <= p < n && (#[trigger] bags@[p])@.len() >= 1 && seq_subset(
                        old(bags)@[i]@,
                        bags@[p]@,
                    ),
        decreases (queue@.len() - head) + (n - count_true(queued@)),
    {
        let ghost bags_pre = bags@;
        let node = queue[head];
        head += 1;
        let par = parents[node];
        match par {
            None => {
                proof {
                    if head - 1 < seeds {
                        assert(parents@[node as int] == old(parents)@[node as int]);
                    }
                }
            },
            Some(parent) => {
                let merged = is_subset_of(&bags[node], &bags[parent]);
                if merged {
                    let ghost parents0 = parents@;
                    let ghost children_pre = children@;
                    // Keep the parent's other children.
                    let mut newlist: Vec<usize> = Vec::new();
                    let plen = children[parent].len();
                    let mut j: usize = 0;
                    while j < plen
                        invariant
                            n == bags@.len(),
                            parents@.len() == n,
                            children@.len() == n,
                            node < n,
                            parent < n,
                            node != parent,
                            children@ == children_pre,
                            parents@ == parents0,
                            plen == children@[parent as int]@.len(),
                            j <= plen,
                            forall|p: int, k: int|
                                0 <= p < n && 0 <= k < children@[p]@.len() ==> (
                                #[trigger] children@[p]@[k]) < n && parents@[children@[p]@[k] as int]
                                    == Option::Some(p as usize),
                            forall|k: int|
                                0 <= k < newlist@.len() ==> (#[trigger] newlist@[k]) < n
                                    && newlist@[k] != node && parents@[newlist@[k] as int]
                                    == Option::Some(parent),
                            forall|k: int|
                                0 <= k < j && children@[parent as int]@[k] != node
                                    ==> newlist@.contains(
                                    #[trigger] children@[parent as int]@[k],
                                ),
                        decreases plen - j,
                    {
                        let c = children[parent][j];
                        let ghost nl0 = newlist@;
                        if c != node {
                            newlist.push(c);
                        }
                        proof {
                            assert forall|k: int|
                                0 <= k < j + 1 && children@[parent as int]@[k]
                                    != node implies newlist@.contains(
                                #[trigger] children@[parent as int]@[k],
                            ) by {
                                if k < j {
                                    let k2 = choose|k2: int|
                                        0 <= k2 < nl0.len() && nl0[k2] == children@[parent as int]@[k];
                                    assert(newlist@[k2] == children@[parent as int]@[k]);
                                } else {
                                    assert(newlist@[newlist@.len() - 1] == c);
                                }
                            }
                        }
                        j += 1;
                    }
                    // Re-parent the node's children onto the parent.
                    let moved = copy_vec(&children[node]);
                    children[node] = Vec::new();
                    let mut j: usize = 0;
                    while j < moved.len()
                        invariant
                            n == bags@.len(),
                            parents@.len() == n,
                            children@.len() == n,
                            node < n,
                            parent < n,
                            node < parent,
                            j <= moved@.len(),
                            bags@[node as int]@.len() >= 1,
                            bags@[parent as int]@.len() >= 1,
                            children@[node as int]@.len() == 0,
                            children@ == children_pre.update(node as int, children@[node as int]),
                            moved@ == children_pre[node as int]@,
                            forall|k: int|
                                0 <= k < moved@.len() ==> (#[trigger] moved@[k]) < n && (moved@[k] as int)
                                    < (node as int) && bags@[moved@[k] as int]@.len() >= 1,
                            forall|k: int|
                                0 <= k < moved@.len() ==> parents@[(#[trigger] moved@[k]) as int]
                                    == Option::Some(node) || parents@[moved@[k] as int]
                                    == Option::Some(parent),
                            forall|k: int|
                                0 <= k < j ==> parents@[(#[trigger] moved@[k]) as int]
                                    == Option::Some(parent),
                            forall|i2: int|
                                0 <= i2 < n && !moved@.contains(i2 as usize) ==> parents@[i2]
                                    == parents0[i2],
                            forall|i2: int|
                                0 <= i2 < n ==> ((#[trigger] parents@[i2]) matches Option::Some(p)
                                    ==> i2 < p < n && bags@[i2]@.len() >= 1
                                    && bags@[p as int]@.len() >= 1),
                            forall|k: int|
                                0 <= k < newlist@.len() ==> (#[trigger] newlist@[k]) < n
                                    && newlist@[k] != node && parents@[newlist@[k] as int]
                                    == Option::Some(parent),
                            forall|k: int|
                                0 <= k < plen && children_pre[parent as int]@[k] != node
                                    ==> newlist@.contains(
                                    #[trigger] children_pre[parent as int]@[k],
                                ),
                            forall|k: int| 0 <= k < j ==> newlist@.contains(#[trigger] moved@[k]),
                            plen == children_pre[parent as int]@.len(),
                        decreases moved@.len() - j,
                    {
                        let c = moved[j];
                        let ghost nl0 = newlist@;
                        parents[c] = Some(parent);
                        newlist.push(c);
                        proof {
                            assert(moved@.contains(moved@[j as int]));
                            assert(newlist@[newlist@.len() - 1] == c);
                            assert forall|k: int|
                                0 <= k < plen && children_pre[parent as int]@[k]
                                    != node implies newlist@.contains(
                                #[trigger] children_pre[parent as int]@[k],
                            ) by {
                                let k2 = choose|k2: int|
                                    0 <= k2 < nl0.len() && nl0[k2] == children_pre[parent as int]@[k];
                                assert(newlist@[k2] == children_pre[parent as int]@[k]);
                            }
                            assert forall|k: int|
                                0 <= k < j + 1 implies newlist@.contains(
                                #[trigger] moved@[k],
                            ) by {
                                if k < j {
                                    let k2 = choose|k2: int|
                                        0 <= k2 < nl0.len() && nl0[k2] == moved@[k];
                                    assert(newlist@[k2] == moved@[k]);
                                }
                            }
                        }
                        j += 1;
                    }
                    let ghost children_mid = children@;
                    children[parent] = newlist;
                    parents[node] = None;
                    bags[node] = Vec::new();
                    proof {
                        let ghost nl = children@[parent as int];
                        assert(children@ =~= children_mid.update(parent as int, nl));
                        assert forall|p: int, k: int|
                            0 <= p < n && 0 <= k < children@[p]@.len() implies (
                        #[trigger] children@[p]@[k]) < n && parents@[children@[p]@[k] as int]
                            == Option::Some(p as usize) by {
                            let c = children@[p]@[k];
                            if p == parent {
                                assert(nl@[k] == c);
                                assert(c != node);
                            } else if p == node {
                                assert(children@[p]@.len() == 0);
                            } else {
                                assert(children_pre[p]@[k] == c);
                                assert(parents0[c as int] == Option::Some(p as usize));
                                assert(c != node) by {
                                    if c == node {
                                        assert(parents0[node as int] == Option::Some(
                                            parent as usize,
                                        ));
                                    }
                                }
                                assert(!moved@.contains(c)) by {
                                    if moved@.contains(c) {
                                        let k2 = choose|k2: int|
                                            0 <= k2 < moved@.len() && moved@[k2] == c;
                                        assert(parents0[children_pre[node as int]@[k2] as int]
                                            == Option::Some(node));
                                    }
                                }
                            }
                        }
                        assert forall|i2: int|
                            0 <= i2 < n && (#[trigger] parents@[i2]) is Some implies children@[(
                        parents@[i2]->Some_0) as int]@.contains(i2 as usize) by {
                            let q = parents@[i2]->Some_0;
                            if moved@.contains(i2 as usize) {
                                assert(q == parent);
                                let k2 = choose|k2: int|
                                    0 <= k2 < moved@.len() && moved@[k2] == i2 as usize;
                                assert(newlist@.contains(moved@[k2]));
                            } else {
                                assert(parents@[i2] == parents0[i2]);
                                assert(children_pre[q as int]@.contains(i2 as usize));
                                let k2 = choose|k2: int|
                                    0 <= k2 < children_pre[q as int]@.len()
                                        && children_pre[q as int]@[k2] == i2 as usize;
                                if q == parent {
                                    assert(i2 != node) by {
                                        if i2 == node {
                                            assert(parents@[node as int] is None);
                                        }
                                    }
                                    assert(newlist@.contains(children_pre[parent as int]@[k2]));
                                } else if q == node {
                                    assert(parents0[i2] == Option::Some(node as usize));
                                    assert(moved@[k2] == i2 as usize);
                                    assert(moved@.contains(i2 as usize));
                                    assert(false);
                                } else {
                                    assert(children@[q as int]@[k2] == i2 as usize);
                                }
                            }
                        }
                        // A popped seed has no children, so nothing was
                        // re-parented while seeds remain unprocessed.
                        assert(node == queue@[head - 1]);
                        if head - 1 < seeds {
                            assert(old(children)@[node as int]@.len() == 0);
                            assert(children_pre[node as int]@.len() == 0);
                            assert(moved@.len() == 0);
                        }
                        assert forall|q: int|
                            head <= q < seeds implies parents@[(#[trigger] queue@[q]) as int]
                            == old(parents)@[queue@[q] as int] by {
                            let k = queue@[q];
                            assert(head - 1 < seeds);
                            assert(moved@.len() == 0);
                            assert(k != node);
                            assert(!moved@.contains(k));
                            assert(parents@[k as int] == parents0[k as int]);
                        }
                        assert forall|q: int|
                            0 <= q < head && q < seeds && (old(parents)@[(
                            #[trigger] queue@[q]) as int] matches Option::Some(p) && seq_subset(
                                old(bags)@[queue@[q] as int]@,
                                old(bags)@[p as int]@,
                            )) implies bags@[queue@[q] as int]@.len() == 0 by {
                            let k = queue@[q];
                            if q == head - 1 {
                                assert(k == node);
                                assert(bags@[node as int]@.len() == 0);
                            } else {
                                assert(bags_pre[k as int]@.len() == 0);
                                assert(k != node) by {
                                    if k == node {
                                        assert(bags_pre[node as int]@.len() >= 1);
                                    }
                                }
                                assert(bags@[k as int]@.len() == 0);
                            }
                        }
                        assert forall|k: int|
                            0 <= k < n && (#[trigger] old(children)@[k])@.len()
                            == 0 implies children@[k]@.len() == 0 by {
                            if k == node as int {
                                assert(children@[k]@.len() == 0);
                            } else if k == parent as int {
                                assert(children_pre[parent as int]@.contains(node));
                            } else {
                                assert(children@[k] == children_pre[k]);
                                assert(children_pre[k]@.len() == 0);
                            }
                        }
                        assert forall|i2: int|
                            0 <= i2 < n && (#[trigger] old(parents)@[i2]) is None implies parents@[i2] is None
                            && bags@[i2]@.len() >= 1 by {
                            assert(parents0[i2] is None);
                            assert(i2 != node) by {
                                if i2 == node as int {
                                    assert(parents0[node as int] == Option::Some(parent));
                                }
                            }
                            assert(!moved@.contains(i2 as usize)) by {
                                if moved@.contains(i2 as usize) {
                                    let k2 = choose|k2: int|
                                        0 <= k2 < moved@.len() && moved@[k2] == i2 as usize;
                                    assert(parents0[children_pre[node as int]@[k2] as int]
                                        == Option::Some(node));
                                }
                            }
                            assert(parents@[i2] == parents0[i2]);
                            assert(bags@[i2]@.len() >= 1);
                        }
                        assert forall|i2: int|
                            0 <= i2 < n && (#[trigger] bags@[i2])@.len() == 0 implies exists|
                            p2: int,
                        |
                            0 <= p2 < n && (#[trigger] bags@[p2])@.len() >= 1 && seq_subset(
                                old(bags)@[i2]@,
                                bags@[p2]@,
                            ) by {
                            if i2 == node as int {
                                assert(bags_pre[node as int]@ == old(bags)@[node as int]@);
                                assert(bags@[parent as int]@ == bags_pre[parent as int]@);
                                assert(bags@[parent as int]@.len() >= 1);
                                assert(seq_subset(
                                    old(bags)@[node as int]@,
                                    bags@[parent as int]@,
                                ));
                            } else {
                                assert(bags_pre[i2]@.len() == 0);
                                let p2 = choose|p2: int|
                                    0 <= p2 < n && bags_pre[p2]@.len() >= 1 && seq_subset(
                                        old(bags)@[i2]@,
                                        bags_pre[p2]@,
                                    );
                                if p2 == node as int {
                                    assert(bags_pre[node as int]@ == old(bags)@[node as int]@);
                                    lemma_seq_subset_trans(
                                        old(bags)@[i2]@,
                                        old(bags)@[node as int]@,
                                        bags@[parent as int]@,
                                    );
                                    assert(bags@[parent as int]@.len() >= 1);
                                } else {
                                    assert(bags@[p2] == bags_pre[p2]);
                                }
                            }
                        }
                    }
                } else {
                    proof {
                        if head - 1 < seeds {
                            assert(parents@[node as int] == old(parents)@[node as int]);
                            assert(bags@[node as int]@ == old(bags)@[node as int]@);
                            assert(bags@[parent as int]@ == old(bags)@[parent as int]@);
                            assert(!seq_subset(
                                old(bags)@[node as int]@,
                                old(bags)@[parent as int]@,
                            ));
                        }
                    }
                }
                // Reconsider the parent once its children are settled.
                if !queued[parent] {
                    let ghost q0 = queued@;
                    let ghost qv0 = queue@;
                    queued[parent] = true;
                    proof {
                        lemma_count_true_update(q0, parent as int, true);
                        crate::counting::lemma_count_true_bound(queued@);
                    }
                    queue.push(parent);
                    proof {
                        assert(queue@[queue@.len() - 1] == parent);
                        assert forall|q1: int, q2: int|
                            0 <= q1 < q2 < queue@.len() implies queue@[q1] != queue@[q2] by {
                            if q2 == queue@.len() - 1 {
                                assert(q0[qv0[q1] as int]);
                                assert(!q0[parent as int]);
                            }
                        }
                        assert forall|j: int|
                            0 <= j < n && (#[trigger] old(children)@[j])@.len() == 0 implies exists|
                            q: int,
                        | 0 <= q < seeds && queue@[q] == j as usize by {
                            let q = choose|q: int| 0 <= q < seeds && qv0[q] == j as usize;
                            assert(queue@[q] == j as usize);
                        }
                    }
                }
            },
        }
    }
    proof {
        assert forall|k: int|
            0 <= k < queued@.len() && (#[trigger] old(children)@[k])@.len() == 0 && (old(
                parents,
            )@[k] matches Option::Some(p) && seq_subset(
                old(bags)@[k]@,
                old(bags)@[p as int]@,
            )) implies bags@[k]@.len() == 0 by {
            let q = choose|q: int| 0 <= q < seeds && queue@[q] == k as usize;
            assert(q < head);
            assert(queue@[q] == k as usize);
        }
    }
}

/// Numbers the surviving (non-empty) bags in ascending order: returns the
/// kept indices and, for each survivor, its new index.
fn survivors(bags: &Vec<Vec<usize>>) -> (r: (Vec<usize>, Vec<usize>))
    ensures
        ({
            let (keep, newidx) = r;
            let n = bags@.len() as int;
            &&& newidx@.len() == n
            &&& keep@.len() <= n
            &&& forall|t: int|
                0 <= t < keep@.len() ==> (#[trigger] keep@[t]) < n && bags@[keep@[t] as int]@.len()
                    >= 1 && newidx@[keep@[t] as int] == t
            &&& forall|t1: int, t2: int| 0 <= t1 < t2 < keep@.len() ==> keep@[t1] < keep@[t2]
            &&& forall|j: int|
                0 <= j < n && (#[trigger] bags@[j])@.len() >= 1 ==> newidx@[j] < keep@.len()
                    && keep@[newidx@[j] as int] == j
        }),
{
    let n = bags.len();
    let mut newidx: Vec<usize> = Vec::new();
    while newidx.len() < n
        invariant
            newidx@.len() <= n,
        decreases n - newidx@.len(),
    {
        newidx.push(0);
    }
    let mut keep: Vec<usize> = Vec::new();
    let mut i: usize = 0;
    while i < n
        invariant
            n == bags@.len(),
            i <= n,
            newidx@.len() == n,
            keep@.len() <= i,
            forall|t: int|
                0 <= t < keep@.len() ==> (#[trigger] keep@[t]) < i && bags@[keep@[t] as int]@.len()
                    >= 1 && newidx@[keep@[t] as int] == t,
            forall|t1: int, t2: int| 0 <= t1 < t2 < keep@.len() ==> keep@[t1] < keep@[t2],
            forall|j: int|
                0 <= j < i && (#[trigger] bags@[j])@.len() >= 1 ==> newidx@[j] < keep@.len()
                    && keep@[newidx@[j] as int] == j,
        decreases n - i,
    {
        if bags[i].len() > 0 {
            newidx[i] = keep.len();
            keep.push(i);
        }
        i += 1;
    }
    (keep, newidx)
}

/// The renumbering of `survivors` preserves the order of surviving indices.
proof fn lemma_newidx_monotone(
    bags: Seq<Vec<usize>>,
    keep: Seq<usize>,
    newidx: Seq<usize>,
    a: int,
    b: int,
)
    requires
        newidx.len() == bags.len(),
        forall|t1: int, t2: int| 0 <= t1 < t2 < keep.len() ==> keep[t1] < keep[t2],
        forall|j: int|
            0 <= j < bags.len() && (#[trigger] bags[j])@.len() >= 1 ==> newidx[j] < keep.len()
                && keep[newidx[j] as int] == j,
        0 <= a < bags.len(),
        0 <= b < bags.len(),
        bags[a]@.len() >= 1,
        bags[b]@.len() >= 1,
        a < b,
    ensures
        (newidx[a] as int) < (newidx[b] as int),
{
    if newidx[b] <= newidx[a] {
        if newidx[b] == newidx[a] {
            assert(keep[newidx[a] as int] == a);
            assert(keep[newidx[b] as int] == b);
        } else {
            assert(keep[newidx[b] as int] < keep[newidx[a] as int]);
        }
    }
}

/// The facts `compact` returns, derived from its two passes' invariants.
#[verifier::spinoff_prover]
#[verifier::rlimit(100)]
proof fn lemma_compact_post(
    bags: Seq<Vec<usize>>,
    parents: Seq<Option<usize>>,
    children: Seq<Vec<usize>>,
    keep: Seq<usize>,
    newidx: Seq<usize>,
    nb: Seq<Vec<usize>>,
    np: Seq<Option<usize>>,
    nc: Seq<Vec<usize>>,
)
    requires
        parents.len() == bags.len(),
        children.len() == bags.len(),
        newidx.len() == bags.len(),
        keep.len() <= bags.len(),
        nb.len() == keep.len(),
        np.len() == keep.len(),
        nc.len() == keep.len(),
        forall|i2: int| 0 <= i2 < bags.len() ==> bag_wf((#[trigger] bags[i2])@, bags.len() as int),
        forall|i2: int|
            0 <= i2 < bags.len() ==> ((#[trigger] parents[i2]) matches Option::Some(p) ==> i2 < p
                < bags.len() && bags[i2]@.len() >= 1 && bags[p as int]@.len() >= 1),
        forall|p: int, k: int|
            0 <= p < bags.len() && 0 <= k < children[p]@.len() ==> (#[trigger] children[p]@[k])
                < bags.len() && parents[children[p]@[k] as int] == Option::Some(p as usize),
        forall|t2: int|
            0 <= t2 < keep.len() ==> (#[trigger] keep[t2]) < bags.len() && bags[keep[t2] as int]@.len()
                >= 1 && newidx[keep[t2] as int] == t2,
        forall|t1: int, t2: int| 0 <= t1 < t2 < keep.len() ==> keep[t1] < keep[t2],
        forall|j: int|
            0 <= j < bags.len() && (#[trigger] bags[j])@.len() >= 1 ==> newidx[j] < keep.len()
                && keep[newidx[j] as int] == j,
        forall|t2: int| 0 <= t2 < keep.len() ==> (#[trigger] nb[t2])@ == bags[keep[t2] as int]@,
        forall|t2: int|
            0 <= t2 < keep.len() ==> #[trigger] np[t2] == (match parents[keep[t2] as int] {
                Option::None => Option::None,
                Option::Some(p) => Option::Some(newidx[p as int]),
            }),
        forall|t2: int| 0 <= t2 < keep.len() ==> (#[trigger] nc[t2])@.len() == children[keep[t2] as int]@.len(),
        forall|t2: int, k: int|
            0 <= t2 < keep.len() && 0 <= k < nc[t2]@.len() ==> (#[trigger] nc[t2]@[k])
                == newidx[children[keep[t2] as int]@[k] as int],
    ensures
        forall|k: int|
            0 <= k < nb.len() ==> ((#[trigger] np[k]) matches Option::Some(p) ==> k < p
                < nb.len()),
        forall|p: int, k: int|
            0 <= p < nb.len() && 0 <= k < nc[p]@.len() ==> (#[trigger] nc[p]@[k]) < nb.len()
                && np[nc[p]@[k] as int] == Option::Some(p as usize),
        forall|k: int|
            0 <= k < nb.len() ==> bag_wf((#[trigger] nb[k])@, bags.len() as int) && nb[k]@.len()
                >= 1,
        forall|j: int|
            0 <= j < bags.len() && (#[trigger] bags[j])@.len() >= 1 ==> exists|k: int|
                0 <= k < nb.len() && (#[trigger] nb[k])@ == bags[j]@,
{
    let n = bags.len() as int;
    let m = keep.len() as int;
    assert forall|k: int|
        0 <= k < m implies ((#[trigger] np[k]) matches Option::Some(p) ==> k < p < m) by {
        let i3 = keep[k];
        if parents[i3 as int] is Some {
            let p0 = parents[i3 as int]->Some_0;
            assert(np[k] == Option::Some(newidx[p0 as int]));
            assert(bags[i3 as int]@.len() >= 1 && bags[p0 as int]@.len() >= 1);
            assert(newidx[i3 as int] == k);
            lemma_newidx_monotone(bags, keep, newidx, i3 as int, p0 as int);
            assert((newidx[p0 as int] as int) < m);
        }
    }
    assert forall|p: int, k: int|
        0 <= p < m && 0 <= k < nc[p]@.len() implies (#[trigger] nc[p]@[k]) < m && np[
    nc[p]@[k] as int] == Option::Some(p as usize) by {
        let ip = keep[p];
        let c = children[ip as int]@[k];
        assert(nc[p]@[k] == newidx[c as int]);
        assert(parents[c as int] == Option::Some(ip));
        assert(bags[c as int]@.len() >= 1);
        let e = newidx[c as int];
        assert(keep[e as int] == c);
        assert(e < m);
        assert(np[e as int] == Option::Some(newidx[ip as int]));
        assert(newidx[ip as int] == p);
    }
    assert forall|k: int|
        0 <= k < m implies bag_wf((#[trigger] nb[k])@, n) && nb[k]@.len() >= 1 by {
        assert(nb[k]@ == bags[keep[k] as int]@);
    }
    assert forall|j: int|
        0 <= j < n && (#[trigger] bags[j])@.len() >= 1 implies exists|k: int|
            0 <= k < m && (#[trigger] nb[k])@ == bags[j]@ by {
        let k = newidx[j] as int;
        assert(keep[k] == j);
        assert(nb[k]@ == bags[j]@);
    }
}

/// Removes the bags deleted by compression, renumbering the survivors in
/// ascending order and remapping the parent and child bookkeeping.
#[verifier::spinoff_prover]
#[verifier::rlimit(100)]
fn compact(
    bags: &Vec<Vec<usize>>,
    parents: &Vec<Option<usize>>,
    children: &Vec<Vec<usize>>,
) -> (r: (Vec<Vec<usize>>, Vec<Option<usize>>, Vec<Vec<usize>>))
    requires
        bags@.len() >= 1,
        parents@.len() == bags@.len(),
        children@.len() == bags@.len(),
        forall|i: int| 0 <= i < bags@.len() ==> bag_wf((#[trigger] bags@[i])@, bags@.len() as int),
        forall|i: int|
            0 <= i < bags@.len() ==> ((#[trigger] parents@[i]) matches Option::Some(p) ==> i < p
                < bags@.len() && bags@[i]@.len() >= 1 && bags@[p as int]@.len() >= 1),
        forall|p: int, k: int|
            0 <= p < bags@.len() && 0 <= k < children@[p]@.len() ==> (
            #[trigger] children@[p]@[k]) < bags@.len() && parents@[children@[p]@[k] as int]
                == Option::Some(p as usize),
        bags@[bags@.len() - 1]@.len() >= 1,
    ensures
        ({
            let (nb, np, nc) = r;
            let n = bags@.len() as int;
            let m = nb@.len() as int;
            &&& 1 <= m <= n
            &&& np@.len() == m
            &&& nc@.len() == m
            &&& forall|k: int|
                0 <= k < m ==> bag_wf((#[trigger] nb@[k])@, n) && nb@[k]@.len() >= 1
            &&& forall|j: int|
                0 <= j < n && (#[trigger] bags@[j])@.len() >= 1 ==> exists|k: int|
                    0 <= k < m && (#[trigger] nb@[k])@ == bags@[j]@
            &&& forall|k: int|
                0 <= k < m ==> ((#[trigger] np@[k]) matches Option::Some(p) ==> k < p < m)
            &&& forall|p: int, k: int|
                0 <= p < m && 0 <= k < nc@[p]@.len() ==> (#[trigger] nc@[p]@[k]) < m
                    && np@[nc@[p]@[k] as int] == Option::Some(p as usize)
        }),
{
    let n = bags.len();
    let (keep, newidx) = survivors(bags);
    let m = keep.len();
    proof {
        assert(bags@[n - 1]@.len() >= 1);
        assert(m >= 1);
    }
    let mut nb: Vec<Vec<usize>> = Vec::new();
    let mut np: Vec<Option<usize>> = Vec::new();
    let mut nc: Vec<Vec<usize>> = Vec::new();
    let mut t: usize = 0;
    while t < m
        invariant
            n == bags@.len(),
            parents@.len() == n,
            children@.len() == n,
            newidx@.len() == n,
            m == keep@.len(),
            m <= n,
            t <= m,
            nb@.len() == t,
            np@.len() == t,
            nc@.len() == t,
            forall|i2: int| 0 <= i2 < n ==> bag_wf((#[trigger] bags@[i2])@, n as int),
            forall|i2: int|
                0 <= i2 < n ==> ((#[trigger] parents@[i2]) matches Option::Some(p) ==> i2 < p < n
                    && bags@[i2]@.len() >= 1 && bags@[p as int]@.len() >= 1),
            forall|p: int, k: int|
                0 <= p < n && 0 <= k < children@[p]@.len() ==> (#[trigger] children@[p]@[k]) < n
                    && parents@[children@[p]@[k] as int] == Option::Some(p as usize),
            forall|t2: int|
                0 <= t2 < m ==> (#[trigger] keep@[t2]) < n && bags@[keep@[t2] as int]@.len() >= 1
                    && newidx@[keep@[t2] as int] == t2,
            forall|t1: int, t2: int| 0 <= t1 < t2 < m ==> keep@[t1] < keep@[t2],
            forall|j: int|
                0 <= j < n && (#[trigger] bags@[j])@.len() >= 1 ==> newidx@[j] < m
                    && keep@[newidx@[j] as int] == j,
            forall|t2: int| 0 <= t2 < t ==> (#[trigger] nb@[t2])@ == bags@[keep@[t2] as int]@,
            forall|t2: int|
                0 <= t2 < t ==> #[trigger] np@[t2] == (match parents@[keep@[t2] as int] {
                    Option::None => Option::None,
                    Option::Some(p) => Option::Some(newidx@[p as int]),
                }),
            forall|t2: int|
                0 <= t2 < t ==> (#[trigger] nc@[t2])@.len() == children@[keep@[t2] as int]@.len(),
            forall|t2: int, k: int|
                0 <= t2 < t && 0 <= k < nc@[t2]@.len() ==> (#[trigger] nc@[t2]@[k])
                    == newidx@[children@[keep@[t2] as int]@[k] as int],
        decreases m - t,
    {
        let i2 = keep[t];
        nb.push(copy_vec(&bags[i2]));
        let pi = parents[i2];
        match pi {
            None => {
                np.push(None);
            },
            Some(p) => {
                np.push(Some(newidx[p]));
            },
        }
        let cl_src = &children[i2];
        let mut cl: Vec<usize> = Vec::new();
        let mut k: usize = 0;
        while k < cl_src.len()
            invariant
                n == bags@.len(),
                parents@.len() == n,
                children@.len() == n,
                newidx@.len() == n,
                t < m,
                m == keep@.len(),
                i2 == keep@[t as int],
                i2 < n,
                cl_src == &children@[i2 as int],
                k <= cl_src@.len(),
                cl@.len() == k,
                forall|p2: int, k2: int|
                    0 <= p2 < n && 0 <= k2 < children@[p2]@.len() ==> (
                    #[trigger] children@[p2]@[k2]) < n && parents@[children@[p2]@[k2] as int]
                        == Option::Some(p2 as usize),
                forall|i3: int|
                    0 <= i3 < n ==> ((#[trigger] parents@[i3]) matches Option::Some(p) ==> i3 < p
                        < n && bags@[i3]@.len() >= 1 && bags@[p as int]@.len() >= 1),
                forall|j: int|
                    0 <= j < n && (#[trigger] bags@[j])@.len() >= 1 ==> newidx@[j] < m
                        && keep@[newidx@[j] as int] == j,
                forall|k2: int|
                    0 <= k2 < k ==> (#[trigger] cl@[k2]) == newidx@[cl_src@[k2] as int],
            decreases cl_src@.len() - k,
        {
            let c = cl_src[k];
            proof {
                assert(parents@[c as int] == Option::Some(i2));
                assert(bags@[c as int]@.len() >= 1);
            }
            cl.push(newidx[c]);
            k += 1;
        }
        nc.push(cl);
        t += 1;
    }
    proof {
        lemma_compact_post(bags@, parents@, children@, keep@, newidx@, nb@, np@, nc@);
    }
    (nb, np, nc)
}

/// A finished tree decomposition: the surviving bags, the forest over them,
/// the elimination order that produced them, and the width.
pub struct TreeDecomposition {
    bags: Vec<Vec<usize>>,
    width: usize,
    children: Vec<Vec<usize>>,
    parents: Vec<Option<usize>>,
    order: Vec<usize>,
}

impl TreeDecomposition {
    /// Number of vertices of the underlying graph.
    pub closed spec fn n(self) -> int {
        self.order@.len() as int
    }

    /// Number of surviving bags.
    pub closed spec fn num_bags(self) -> int {
        self.bags@.len() as int
    }

    /// The vertex set of bag `k`.
    pub closed spec fn bag(self, k: int) -> Seq<usize> {
        self.bags@[k]@
    }

    /// The parent of bag `k`, if it is not a root.
    pub closed spec fn parent(self, k: int) -> Option<usize> {
        self.parents@[k]
    }

    /// The children of bag `p`.
    pub closed spec fn children_of(self, p: int) -> Seq<usize> {
        self.children@[p]@
    }

    /// The elimination order, step to vertex.
    pub closed spec fn spec_order(self) -> Seq<usize> {
        self.order@
    }

    /// The width of the decomposition.
    pub closed spec fn spec_width(self) -> int {
        self.width as int
    }

    /// Some bag holds every variable of the clause.
    pub open spec fn some_bag_covers(self, c: Seq<i64>) -> bool {
        exists|k: int| 0 <= k < self.num_bags() && #[trigger] clause_in_bag(c, self.bag(k))
    }

    /// Every clause's variables lie together inside some bag.
    pub open spec fn covers_clauses(self, clauses: Seq<Vec<i64>>) -> bool {
        forall|ci: int|
            0 <= ci < clauses.len() ==> #[trigger] self.some_bag_covers(clauses[ci]@)
    }

    /// The bookkeeping vectors all have matching lengths.
    pub closed spec fn shape_ok(self) -> bool {
        &&& self.parents@.len() == self.bags@.len()
        &&& self.children@.len() == self.bags@.len()
    }

    /// Structural well-formedness: at least one bag; every bag a non-empty
    /// sorted vertex set; parents point strictly upward; child lists agree
    /// with parents; the order is an injective sequence of vertices; and the
    /// width is one less than the largest bag.
    pub open spec fn wf(self) -> bool {
        &&& self.shape_ok()
        &&& self.num_bags() >= 1
        &&& self.num_bags() <= self.n()
        &&& forall|k: int|
            0 <= k < self.num_bags() ==> bag_wf(#[trigger] self.bag(k), self.n()) && self.bag(
                k,
            ).len() >= 1
        &&& forall|k: int|
            0 <= k < self.num_bags() ==> ((#[trigger] self.parent(k)) matches Option::Some(p)
                ==> k < p < self.num_bags())
        &&& forall|p: int, k: int|
            0 <= p < self.num_bags() && 0 <= k < self.children_of(p).len() ==> (
            #[trigger] self.children_of(p)[k]) < self.num_bags() && self.parent(
                self.children_of(p)[k] as int,
            ) == Option::Some(p as usize)
        &&& forall|i: int| 0 <= i < self.n() ==> (#[trigger] self.spec_order()[i]) < self.n()
        &&& forall|i: int, j: int|
            0 <= i < j < self.n() ==> self.spec_order()[i] != self.spec_order()[j]
        &&& forall|k: int| 0 <= k < self.num_bags() ==> self.bag(k).len() <= self.spec_width() + 1
        &&& exists|k: int|
            0 <= k < self.num_bags() && (#[trigger] self.bag(k)).len() == self.spec_width() + 1
    }

    /// The width: one less than the size of the largest bag.
    pub fn width(&self) -> (r: usize)
        ensures
            r == self.spec_width(),
    {
        self.width
    }

    /// The surviving bags.
    pub fn bags(&self) -> (r: &Vec<Vec<usize>>)
        ensures
            r@.len() == self.num_bags(),
            forall|k: int| 0 <= k < r@.len() ==> (#[trigger] r@[k])@ == self.bag(k),
    {
        &self.bags
    }

    /// The child lists over bag indices.
    pub fn children(&self) -> (r: &Vec<Vec<usize>>)
        requires
            self.wf(),
        ensures
            r@.len() == self.num_bags(),
            forall|p: int| 0 <= p < r@.len() ==> (#[trigger] r@[p])@ == self.children_of(p),
    {
        &self.children
    }

    /// The parent of each bag, if any.
    pub fn parents(&self) -> (r: &Vec<Option<usize>>)
        requires
            self.wf(),
        ensures
            r@.len() == self.num_bags(),
            forall|k: int| 0 <= k < r@.len() ==> (#[trigger] r@[k]) == self.parent(k),
    {
        &self.parents
    }

    /// The elimination order, step to vertex.
    pub fn order(&self) -> (r: &Vec<usize>)
        ensures
            r@ == self.spec_order(),
    {
        &self.order
    }

    /// Builds a tree decomposition of the primal graph of the given clause
    /// list: greedy elimination under the chosen heuristic, tree assembly,
    /// and compression of redundant bags.
    #[verifier::spinoff_prover]
    #[verifier::rlimit(80)]
    pub fn new(number_var: usize, clauses: &Vec<Vec<i64>>, heuristic: &TDHeuristic) -> (r: Result<
        TreeDecomposition,
        crate::graph::ConfigError,
    >)
        requires
            number_var * number_var < usize::MAX,
        ensures
            r is Err <==> (number_var == 0 || !(forall|i: int|
                0 <= i < clauses@.len() ==> crate::graph::clause_ok(
                    number_var as int,
                    #[trigger] clauses@[i]@,
                ))),
            r == Err::<TreeDecomposition, crate::graph::ConfigError>(
                crate::graph::ConfigError::NoVariables,
            ) <==> number_var == 0,
            r matches Ok(td) ==> {
                &&& td.wf()
                &&& td.n() == number_var
                &&& forall|v: int|
                    0 <= v < number_var ==> #[trigger] td.spec_order().contains(v as usize)
                &&& td.covers_clauses(clauses@)
            },
    {
        let g = match Graph::from_clauses(number_var, clauses) {
            Ok(g) => g,
            Err(e) => {
                return Err(e);
            },
        };
        let ghost g_ = g;
        let (order, nodes_order, full_bags, snapshots) = run_elimination(g, heuristic);
        let ghost snaps = snapshots@;
        let ghost fb = full_bags@;
        let mut bags = full_bags;
        proof {
            assert forall|i: int| 0 <= i < bags@.len() implies (#[trigger] bags@[i])@.len()
                >= 1 by {
                assert(bags@[i]@.contains(order@[i]));
            }
        }
        let (parents0, children0) = link_parents(&bags, &nodes_order);
        let mut parents = parents0;
        let mut children = children0;
        compress_tree(&mut bags, &mut parents, &mut children);
        let (nb, np, nc) = compact(&bags, &parents, &children);
        // The width: one less than the largest surviving bag.
        let m = nb.len();
        let mut largest: usize = 0;
        let mut k: usize = 0;
        while k < m
            invariant
                m == nb@.len(),
                k <= m,
                forall|k2: int| 0 <= k2 < k ==> (#[trigger] nb@[k2])@.len() <= largest,
                largest == 0 || exists|k2: int|
                    0 <= k2 < k && (#[trigger] nb@[k2])@.len() == largest,
            decreases m - k,
        {
            if nb[k].len() > largest {
                largest = nb[k].len();
                proof {
                    assert(nb@[k as int]@.len() == largest);
                }
            }
            k += 1;
        }
        proof {
            assert(nb@[0]@.len() >= 1);
            assert(largest >= 1);
        }
        let width = largest - 1;
        let td = TreeDecomposition { bags: nb, width, children: nc, parents: np, order };
        proof {
            assert forall|i: int, j: int|
                0 <= i < j < td.n() implies td.spec_order()[i] != td.spec_order()[j] by {
                assert(nodes_order@[td.spec_order()[i] as int] == i);
                assert(nodes_order@[td.spec_order()[j] as int] == j);
            }
            assert forall|v: int|
                0 <= v < number_var implies #[trigger] td.spec_order().contains(v as usize) by {
                assert(td.spec_order()[nodes_order@[v] as int] == v as usize);
            }
            assert(td.shape_ok());
            assert(td.num_bags() >= 1);
            assert(td.num_bags() <= td.n());
            assert forall|k2: int|
                0 <= k2 < td.num_bags() implies bag_wf(#[trigger] td.bag(k2), td.n()) && td.bag(
                k2,
            ).len() >= 1 && td.bag(k2).len() <= td.spec_width() + 1 by {
                assert(td.bag(k2) == nb@[k2]@);
            }
            assert forall|k2: int|
                0 <= k2 < td.num_bags() implies ((#[trigger] td.parent(k2)) matches Option::Some(
                    p,
                ) ==> k2 < p < td.num_bags()) by {
                assert(td.parent(k2) == np@[k2]);
            }
            assert forall|p: int, k2: int|
                0 <= p < td.num_bags() && 0 <= k2 < td.children_of(p).len() implies (
            #[trigger] td.children_of(p)[k2]) < td.num_bags() && td.parent(
                td.children_of(p)[k2] as int,
            ) == Option::Some(p as usize) by {
                assert(td.children_of(p) == nc@[p]@);
            }
            let kw = choose|k2: int| 0 <= k2 < m && (#[trigger] nb@[k2])@.len() == largest;
            assert((#[trigger] td.bag(kw)).len() == td.spec_width() + 1);
            // Every clause's variables lie within some surviving bag: the
            // member eliminated first still neighbors all the others at its
            // step, and a deleted bag's contents end up inside a survivor.
            let nv = number_var as int;
            assert forall|ci: int|
                0 <= ci < clauses@.len() implies #[trigger] td.some_bag_covers(
                clauses@[ci]@) by {
                let c = clauses@[ci]@;
                if c.len() == 0 {
                    assert(0 <= 0 < td.num_bags() && clause_in_bag(clauses@[ci]@, td.bag(0)));
                    assert(td.some_bag_covers(clauses@[ci]@));
                } else {
                    assert(crate::graph::clause_ok(nv, c));
                    let mm = lemma_min_order_var(c, nodes_order@, nv);
                    let x = crate::graph::lit_var(c[mm]);
                    let i = nodes_order@[x] as int;
                    assert(0 <= i < nv);
                    assert(order@[i] == x as usize);
                    assert forall|l: int|
                        0 <= l < c.len() implies fb[i]@.contains(
                        (crate::graph::lit_var(#[trigger] c[l])) as usize,
                    ) by {
                        let w = crate::graph::lit_var(c[l]);
                        if w == x {
                            assert(fb[i]@.contains(w as usize));
                        } else {
                            assert(crate::graph::co_occur(clauses@, x, w)) by {
                                assert(crate::graph::lit_var(clauses@[ci]@[mm]) == x
                                    && crate::graph::lit_var(clauses@[ci]@[l]) == w);
                            }
                            assert(g_.edge(x, w));
                            assert(snaps[0].edge(x, w));
                            assert(i <= nodes_order@[crate::graph::lit_var(c[l]) as int]);
                            lemma_edge_persists(snaps, order@, nodes_order@, x, w, i);
                            assert(snaps[i].edge(order@[i] as int, w));
                            assert(fb[i]@.contains(w as usize));
                        }
                    }
                    assert(clause_in_bag(c, fb[i]@));
                    let j = if bags@[i]@.len() >= 1 {
                        i
                    } else {
                        choose|p: int|
                            0 <= p < nv && bags@[p]@.len() >= 1 && seq_subset(fb[i]@, bags@[p]@)
                    };
                    assert(0 <= j < nv && bags@[j]@.len() >= 1);
                    assert(clause_in_bag(c, bags@[j]@)) by {
                        if bags@[i]@.len() >= 1 {
                            assert(bags@[i]@ == fb[i]@);
                        } else {
                            assert(seq_subset(fb[i]@, bags@[j]@));
                            assert forall|l: int|
                                0 <= l < c.len() implies bags@[j]@.contains(
                                (crate::graph::lit_var(#[trigger] c[l])) as usize,
                            ) by {
                                let w = (crate::graph::lit_var(c[l])) as usize;
                                assert(fb[i]@.contains(w));
                                let idx = choose|idx: int|
                                    0 <= idx < fb[i]@.len() && fb[i]@[idx] == w;
                                assert(bags@[j]@.contains(fb[i]@[idx]));
                            }
                        }
                    }
                    let k = choose|k: int| 0 <= k < nb@.len() && (#[trigger] nb@[k])@ == bags@[j]@;
                    assert(td.bag(k) == nb@[k]@);
                    assert(0 <= k < td.num_bags() && clause_in_bag(clauses@[ci]@, td.bag(k)));
                    assert(td.some_bag_covers(clauses@[ci]@));
                }
            }
        }
        Ok(td)
    }

    /// Bag `k` holds `x` and is the highest such bag of its chain: either a
    /// root, or a bag whose parent does not hold `x`.
    pub open spec fn is_top_bag(self, k: int, x: usize) -> bool {
        self.bag(k).contains(x) && match self.parent(k) {
            Option::None => true,
            Option::Some(p) => !self.bag(p as int).contains(x),
        }
    }

    /// Number of top bags for `x` among the first `upto` bags.
    pub open spec fn top_count(self, x: usize, upto: int) -> nat
        decreases upto,
    {
        if upto <= 0 {
            0
        } else {
            self.top_count(x, upto - 1) + if self.is_top_bag(upto - 1, x) {
                1nat
            } else {
                0nat
            }
        }
    }

    /// The running intersection property, in its connectivity form: for each
    /// vertex, the bags holding it form one connected subtree, which is the
    /// case exactly when at most one of them starts a chain of its own.
    pub open spec fn running_intersection(self) -> bool {
        forall|x: usize| (x as int) < self.n() ==> self.top_count(x, self.num_bags()) <= 1
    }

    /// Decides the running intersection property.
    pub fn check_running_intersection(&self) -> (r: bool)
        requires
            self.wf(),
        ensures
            r == self.running_intersection(),
    {
        let m = self.bags.len();
        let nv = self.order.len();
        let mut x: usize = 0;
        while x < nv
            invariant
                self.wf(),
                m == self.num_bags(),
                nv == self.n(),
                x <= nv,
                forall|x2: usize| x2 < x ==> self.top_count(x2, self.num_bags()) <= 1,
            decreases nv - x,
        {
            let mut tops: usize = 0;
            let mut k: usize = 0;
            while k < m
                invariant
                    self.wf(),
                    m == self.num_bags(),
                    x < nv,
                    k <= m,
                    tops == self.top_count(x, k as int),
                    tops <= k,
                decreases m - k,
            {
                let in_bag = bag_contains(&self.bags[k], x);
                let mut top = false;
                if in_bag {
                    let pk = self.parents[k];
                    proof {
                        assert(self.parent(k as int) == pk);
                    }
                    match pk {
                        None => {
                            top = true;
                        },
                        Some(p) => {
                            proof {
                                assert(k < p < self.num_bags());
                            }
                            top = !bag_contains(&self.bags[p], x);
                        },
                    }
                }
                proof {
                    assert(top == self.is_top_bag(k as int, x));
                }
                if top {
                    tops += 1;
                }
                k += 1;
            }
            if tops > 1 {
                proof {
                    assert(self.top_count(x, self.num_bags()) > 1);
                }
                return false;
            }
            x += 1;
        }
        true
    }

    /// No surviving bag other than a root is a subset of its parent.
    pub open spec fn no_redundant_bags(self) -> bool {
        forall|k: int|
            0 <= k < self.num_bags() ==> ((#[trigger] self.parent(k)) matches Option::Some(p)
                ==> !seq_subset(self.bag(k), self.bag(p as int)))
    }

    /// Decides whether compression left any bag subsumed by its parent.
    pub fn check_no_redundant_bags(&self) -> (r: bool)
        requires
            self.wf(),
        ensures
            r == self.no_redundant_bags(),
    {
        let m = self.bags.len();
        let mut k: usize = 0;
        while k < m
            invariant
                self.wf(),
                m == self.num_bags(),
                k <= m,
                forall|k2: int|
                    0 <= k2 < k ==> ((#[trigger] self.parent(k2)) matches Option::Some(p)
                        ==> !seq_subset(self.bag(k2), self.bag(p as int))),
            decreases m - k,
        {
            let pk = self.parents[k];
            proof {
                assert(self.parent(k as int) == pk);
            }
            match pk {
                None => {},
                Some(p) => {
                    proof {
                        assert(k < p < self.num_bags());
                    }
                    if is_subset_of(&self.bags[k], &self.bags[p]) {
                        proof {
                            assert(self.parent(k as int) matches Option::Some(q) && seq_subset(
                                self.bag(k as int),
                                self.bag(p as int),
                            ));
                        }
                        return false;
                    }
                },
            }
            k += 1;
        }
        true
    }
}

} // verus!
