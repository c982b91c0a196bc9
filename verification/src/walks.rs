//! The mathematical model of an undirected multigraph given as a sequence of
//! endpoint pairs: adjacency, walks, connectivity, hop distance and degree.
use vstd::prelude::*;

verus! {

/// The edge `e` joins `u` and `v`, in either direction.
pub open spec fn links(e: (usize, usize), u: usize, v: usize) -> bool {
    (e.0 == u && e.1 == v) || (e.0 == v && e.1 == u)
}

/// Some edge joins `u` and `v`.
pub open spec fn adjacent(edges: Seq<(usize, usize)>, u: usize, v: usize) -> bool {
    exists|i: int| 0 <= i < edges.len() && #[trigger] links(edges[i], u, v)
}

/// A walk of exactly `n` edges leads from `u` to `v`.
pub open spec fn walk(edges: Seq<(usize, usize)>, u: usize, v: usize, n: nat) -> bool
    decreases n,
{
    if n == 0 {
        u == v
    } else {
        exists|w: usize| walk(edges, u, w, (n - 1) as nat) && #[trigger] adjacent(edges, w, v)
    }
}

/// Some walk leads from `u` to `v`.
pub open spec fn connected(edges: Seq<(usize, usize)>, u: usize, v: usize) -> bool {
    exists|n: nat| walk(edges, u, v, n)
}

/// `d` is the number of edges of a shortest walk from `u` to `v`.
pub open spec fn is_distance(edges: Seq<(usize, usize)>, u: usize, v: usize, d: nat) -> bool {
    walk(edges, u, v, d) && forall|k: nat| k < d ==> !walk(edges, u, v, k)
}

/// Number of edges among the first `k` that touch `u`; a self-loop counts once.
pub open spec fn degree_upto(edges: Seq<(usize, usize)>, u: usize, k: int) -> nat
    decreases k,
{
    if k <= 0 {
        0
    } else {
        let e = edges[k - 1];
        degree_upto(edges, u, k - 1) + if e.0 == u || e.1 == u { 1nat } else { 0nat }
    }
}

/// Number of edges that touch `u`; a self-loop counts once.
pub open spec fn degree(edges: Seq<(usize, usize)>, u: usize) -> nat {
    degree_upto(edges, u, edges.len() as int)
}

/// The node at the other end of each of the first `k` edges that touches
/// `u`, in the order of the edges; a self-loop gives `u` itself once.
pub open spec fn neighbors_upto(edges: Seq<(usize, usize)>, u: usize, k: int) -> Seq<usize>
    decreases k,
{
    if k <= 0 {
        Seq::empty()
    } else {
        let e = edges[k - 1];
        let rest = neighbors_upto(edges, u, k - 1);
        if e.0 == u {
            rest.push(e.1)
        } else if e.1 == u {
            rest.push(e.0)
        } else {
            rest
        }
    }
}

/// Sum over the nodes `0..n` of the number of edges among the first `k` that
/// touch the node.
pub open spec fn degree_sum_upto(edges: Seq<(usize, usize)>, n: int, k: int) -> nat
    decreases n,
{
    if n <= 0 {
        0
    } else {
        degree_sum_upto(edges, n - 1, k) + degree_upto(edges, (n - 1) as usize, k)
    }
}

/// Sum of the degrees of the nodes `0..n`.
pub open spec fn degree_sum(edges: Seq<(usize, usize)>, n: int) -> nat {
    degree_sum_upto(edges, n, edges.len() as int)
}

/// Number of nodes below `n` that the edge `e` touches.
pub open spec fn touched(e: (usize, usize), n: int) -> nat
    decreases n,
{
    if n <= 0 {
        0
    } else {
        touched(e, n - 1) + if e.0 == n - 1 || e.1 == n - 1 { 1nat } else { 0nat }
    }
}

/// Every endpoint of every edge is a node index below `n`.
pub open spec fn edges_within(edges: Seq<(usize, usize)>, n: int) -> bool {
    forall|i: int| 0 <= i < edges.len() ==> (#[trigger] edges[i]).0 < n && edges[i].1 < n
}

/// No edge joins a node to itself.
pub open spec fn loop_free(edges: Seq<(usize, usize)>) -> bool {
    forall|i: int| 0 <= i < edges.len() ==> (#[trigger] edges[i]).0 != edges[i].1
}

pub proof fn lemma_adjacent_symmetric(edges: Seq<(usize, usize)>, u: usize, v: usize)
    requires
        adjacent(edges, u, v),
    ensures
        adjacent(edges, v, u),
{
    let i = choose|i: int| 0 <= i < edges.len() && #[trigger] links(edges[i], u, v);
    assert(links(edges[i], v, u));
}

/// Walks compose: their lengths add.
pub proof fn lemma_walk_compose(
    edges: Seq<(usize, usize)>,
    u: usize,
    w: usize,
    v: usize,
    m: nat,
    n: nat,
)
    requires
        walk(edges, u, w, m),
        walk(edges, w, v, n),
    ensures
        walk(edges, u, v, m + n),
    decreases n,
{
    if n > 0 {
        let x = choose|x: usize| walk(edges, w, x, (n - 1) as nat) && #[trigger] adjacent(edges, x, v);
        lemma_walk_compose(edges, u, w, x, m, (n - 1) as nat);
        assert(walk(edges, u, x, ((m + n) - 1) as nat));
    }
}

/// A single edge is a walk of length one.
pub proof fn lemma_walk_step(edges: Seq<(usize, usize)>, u: usize, v: usize)
    requires
        adjacent(edges, u, v),
    ensures
        walk(edges, u, v, 1),
{
    assert(walk(edges, u, u, 0));
}

/// A walk can be taken backwards.
pub proof fn lemma_walk_reverse(edges: Seq<(usize, usize)>, u: usize, v: usize, n: nat)
    requires
        walk(edges, u, v, n),
    ensures
        walk(edges, v, u, n),
    decreases n,
{
    if n > 0 {
        let x = choose|x: usize| walk(edges, u, x, (n - 1) as nat) && #[trigger] adjacent(edges, x, v);
        lemma_walk_reverse(edges, u, x, (n - 1) as nat);
        lemma_adjacent_symmetric(edges, x, v);
        lemma_walk_step(edges, v, x);
        lemma_walk_compose(edges, v, x, u, 1, (n - 1) as nat);
    }
}

pub proof fn lemma_connected_reflexive(edges: Seq<(usize, usize)>, u: usize)
    ensures
        connected(edges, u, u),
{
    assert(walk(edges, u, u, 0));
}

pub proof fn lemma_connected_symmetric(edges: Seq<(usize, usize)>, u: usize, v: usize)
    requires
        connected(edges, u, v),
    ensures
        connected(edges, v, u),
{
    let n = choose|n: nat| walk(edges, u, v, n);
    lemma_walk_reverse(edges, u, v, n);
}

pub proof fn lemma_connected_transitive(edges: Seq<(usize, usize)>, u: usize, w: usize, v: usize)
    requires
        connected(edges, u, w),
        connected(edges, w, v),
    ensures
        connected(edges, u, v),
{
    let m = choose|n: nat| walk(edges, u, w, n);
    let n = choose|n: nat| walk(edges, w, v, n);
    lemma_walk_compose(edges, u, w, v, m, n);
}

/// Without edges a walk stays where it starts.
pub proof fn lemma_walk_no_edges(u: usize, v: usize, n: nat)
    requires
        walk(Seq::<(usize, usize)>::empty(), u, v, n),
    ensures
        u == v,
{
    if n > 0 {
        let edges = Seq::<(usize, usize)>::empty();
        let x = choose|x: usize| walk(edges, u, x, (n - 1) as nat) && #[trigger] adjacent(edges, x, v);
        assert(adjacent(edges, x, v));
    }
}

/// Among the walk lengths from `u` to `v` up to `n` there is a least one.
pub proof fn lemma_least_walk(edges: Seq<(usize, usize)>, u: usize, v: usize, n: nat) -> (d: nat)
    requires
        walk(edges, u, v, n),
    ensures
        d <= n,
        is_distance(edges, u, v, d),
    decreases n,
{
    if exists|k: nat| k < n && walk(edges, u, v, k) {
        let k = choose|k: nat| k < n && walk(edges, u, v, k);
        lemma_least_walk(edges, u, v, k)
    } else {
        n
    }
}

/// `d` is the answer to a distance query from `u` to `v`: the hop count of a
/// shortest walk, or nothing where no walk exists.
pub open spec fn is_hops(edges: Seq<(usize, usize)>, u: usize, v: usize, d: Option<u64>) -> bool {
    match d {
        Some(k) => is_distance(edges, u, v, k as nat),
        None => !connected(edges, u, v),
    }
}

/// The hop distance from `u` to `v`, where they are connected.
pub open spec fn hops(edges: Seq<(usize, usize)>, u: usize, v: usize) -> nat {
    choose|d: nat| is_distance(edges, u, v, d)
}

/// A pair of nodes has at most one distance.
pub proof fn lemma_distance_unique(edges: Seq<(usize, usize)>, u: usize, v: usize, a: nat, b: nat)
    requires
        is_distance(edges, u, v, a),
        is_distance(edges, u, v, b),
    ensures
        a == b,
        hops(edges, u, v) == a,
{
    let c = hops(edges, u, v);
    assert(is_distance(edges, u, v, c));
}

/// Two nodes that a walk joins have a distance.
pub proof fn law_connected_have_distance(edges: Seq<(usize, usize)>, u: usize, v: usize)
    requires
        connected(edges, u, v),
    ensures
        is_distance(edges, u, v, hops(edges, u, v)),
{
    let n = choose|n: nat| walk(edges, u, v, n);
    let d = lemma_least_walk(edges, u, v, n);
    assert(is_distance(edges, u, v, d));
}

/// A distance query has one answer only.
pub proof fn law_one_answer(
    edges: Seq<(usize, usize)>,
    u: usize,
    v: usize,
    a: Option<u64>,
    b: Option<u64>,
)
    requires
        is_hops(edges, u, v, a),
        is_hops(edges, u, v, b),
    ensures
        a == b,
{
    if a.is_some() && b.is_some() {
        lemma_distance_unique(edges, u, v, a.unwrap() as nat, b.unwrap() as nat);
    }
}

/// The distance from a node to itself is zero.
pub proof fn law_distance_to_self(edges: Seq<(usize, usize)>, u: usize, d: Option<u64>)
    requires
        is_hops(edges, u, u, d),
    ensures
        d == Some(0u64),
{
    assert(walk(edges, u, u, 0));
}

/// Distances are symmetric: the answer from `u` to `v` is also the answer
/// from `v` to `u`.
pub proof fn law_distance_symmetric(edges: Seq<(usize, usize)>, u: usize, v: usize, d: Option<u64>)
    requires
        is_hops(edges, u, v, d),
    ensures
        is_hops(edges, v, u, d),
{
    match d {
        Some(k) => {
            lemma_walk_reverse(edges, u, v, k as nat);
            assert forall|j: nat| j < k as nat implies !walk(edges, v, u, j) by {
                if walk(edges, v, u, j) {
                    lemma_walk_reverse(edges, v, u, j);
                }
            }
        },
        None => {
            if connected(edges, v, u) {
                lemma_connected_symmetric(edges, v, u);
            }
        },
    }
}

/// The triangle inequality: going by way of `b` is never shorter than the
/// distance from `a` to `c`.
pub proof fn law_triangle(
    edges: Seq<(usize, usize)>,
    a: usize,
    b: usize,
    c: usize,
    ab: nat,
    bc: nat,
    ac: nat,
)
    requires
        is_distance(edges, a, b, ab),
        is_distance(edges, b, c, bc),
        is_distance(edges, a, c, ac),
    ensures
        ac <= ab + bc,
{
    lemma_walk_compose(edges, a, b, c, ab, bc);
}

/// Number of nodes below `k`, other than `s`, that are connected to `s`.
pub open spec fn reach_count(edges: Seq<(usize, usize)>, s: usize, k: int) -> nat
    decreases k,
{
    if k <= 0 {
        0
    } else {
        reach_count(edges, s, k - 1) + if k - 1 != s && connected(edges, s, (k - 1) as usize) {
            1nat
        } else {
            0nat
        }
    }
}

/// Sum of the distances from `s` to the nodes below `k`, other than `s`,
/// that are connected to `s`.
pub open spec fn reach_total(edges: Seq<(usize, usize)>, s: usize, k: int) -> nat
    decreases k,
{
    if k <= 0 {
        0
    } else {
        reach_total(edges, s, k - 1) + if k - 1 != s && connected(edges, s, (k - 1) as usize) {
            hops(edges, s, (k - 1) as usize)
        } else {
            0nat
        }
    }
}

/// A node that reaches no other node has no path to count and a total of zero.
pub proof fn law_nothing_reached(edges: Seq<(usize, usize)>, s: usize, n: int)
    requires
        n <= usize::MAX,
        forall|t: usize| t < n && t != s ==> !connected(edges, s, t),
    ensures
        reach_count(edges, s, n) == 0,
        reach_total(edges, s, n) == 0,
    decreases n,
{
    if n > 0 {
        law_nothing_reached(edges, s, n - 1);
        assert(((n - 1) as usize) < n);
    }
}

/// Number of self-loops among the first `k` edges.
pub open spec fn loop_count(edges: Seq<(usize, usize)>, k: int) -> nat
    decreases k,
{
    if k <= 0 {
        0
    } else {
        loop_count(edges, k - 1) + if edges[k - 1].0 == edges[k - 1].1 { 1nat } else { 0nat }
    }
}

proof fn lemma_touched(e: (usize, usize), n: int)
    ensures
        touched(e, n) == if e.0 == e.1 {
            if e.0 < n { 1nat } else { 0nat }
        } else {
            (if e.0 < n { 1nat } else { 0nat }) + (if e.1 < n { 1nat } else { 0nat })
        },
    decreases n,
{
    if n > 0 {
        lemma_touched(e, n - 1);
    }
}

proof fn lemma_degree_sum_step(edges: Seq<(usize, usize)>, n: int, k: int)
    requires
        0 < k <= edges.len(),
        n <= usize::MAX,
    ensures
        degree_sum_upto(edges, n, k) == degree_sum_upto(edges, n, k - 1) + touched(edges[k - 1], n),
    decreases n,
{
    if n > 0 {
        lemma_degree_sum_step(edges, n - 1, k);
    }
}

proof fn lemma_degree_sum_none(edges: Seq<(usize, usize)>, n: int)
    ensures
        degree_sum_upto(edges, n, 0) == 0,
    decreases n,
{
    if n > 0 {
        lemma_degree_sum_none(edges, n - 1);
    }
}

proof fn lemma_degree_sum_upto(edges: Seq<(usize, usize)>, n: int, k: int)
    requires
        0 <= k <= edges.len(),
        n <= usize::MAX,
        edges_within(edges, n),
    ensures
        degree_sum_upto(edges, n, k) + loop_count(edges, k) == 2 * k,
    decreases k,
{
    if k <= 0 {
        lemma_degree_sum_none(edges, n);
    } else {
        lemma_degree_sum_upto(edges, n, k - 1);
        lemma_degree_sum_step(edges, n, k);
        lemma_touched(edges[k - 1], n);
    }
}

proof fn lemma_no_loops(edges: Seq<(usize, usize)>, k: int)
    requires
        0 <= k <= edges.len(),
        loop_free(edges),
    ensures
        loop_count(edges, k) == 0,
    decreases k,
{
    if k > 0 {
        lemma_no_loops(edges, k - 1);
    }
}

/// The degrees of all the nodes and the number of self-loops add up to
/// twice the number of edges: every edge is counted at both ends, but for
/// a self-loop, which is counted once.
pub proof fn law_degree_sum(edges: Seq<(usize, usize)>, n: int)
    requires
        n <= usize::MAX,
        edges_within(edges, n),
    ensures
        degree_sum(edges, n) + loop_count(edges, edges.len() as int) == 2 * edges.len(),
{
    lemma_degree_sum_upto(edges, n, edges.len() as int);
}

/// The handshake law: in a graph without self-loops the degrees of all the
/// nodes add up to twice the number of edges.
pub proof fn law_handshake(edges: Seq<(usize, usize)>, n: int)
    requires
        n <= usize::MAX,
        edges_within(edges, n),
        loop_free(edges),
    ensures
        degree_sum(edges, n) == 2 * edges.len(),
{
    law_degree_sum(edges, n);
    lemma_no_loops(edges, edges.len() as int);
}

/// What adding the edge `(a, b)` makes of connectivity: `u` and `v` are then
/// connected if they were before, or if the new edge bridges them.
pub open spec fn bridged(edges: Seq<(usize, usize)>, a: usize, b: usize, u: usize, v: usize) -> bool {
    ||| connected(edges, u, v)
    ||| (connected(edges, u, a) && connected(edges, b, v))
    ||| (connected(edges, u, b) && connected(edges, a, v))
}

pub proof fn lemma_adjacent_push(edges: Seq<(usize, usize)>, e: (usize, usize), u: usize, v: usize)
    ensures
        adjacent(edges.push(e), u, v) <==> (adjacent(edges, u, v) || links(e, u, v)),
{
    let more = edges.push(e);
    if adjacent(edges, u, v) {
        let i = choose|i: int| 0 <= i < edges.len() && #[trigger] links(edges[i], u, v);
        assert(links(more[i], u, v));
    }
    if links(e, u, v) {
        assert(links(more[edges.len() as int], u, v));
    }
    if adjacent(more, u, v) {
        let i = choose|i: int| 0 <= i < more.len() && #[trigger] links(more[i], u, v);
        if i < edges.len() {
            assert(links(edges[i], u, v));
        }
    }
}

proof fn lemma_walk_push_keeps(
    edges: Seq<(usize, usize)>,
    e: (usize, usize),
    u: usize,
    v: usize,
    n: nat,
)
    requires
        walk(edges, u, v, n),
    ensures
        walk(edges.push(e), u, v, n),
    decreases n,
{
    if n > 0 {
        let x = choose|x: usize| walk(edges, u, x, (n - 1) as nat) && #[trigger] adjacent(edges, x, v);
        lemma_walk_push_keeps(edges, e, u, x, (n - 1) as nat);
        lemma_adjacent_push(edges, e, x, v);
    }
}

proof fn lemma_walk_push_splits(
    edges: Seq<(usize, usize)>,
    e: (usize, usize),
    u: usize,
    v: usize,
    n: nat,
)
    requires
        walk(edges.push(e), u, v, n),
    ensures
        bridged(edges, e.0, e.1, u, v),
    decreases n,
{
    let more = edges.push(e);
    if n == 0 {
        lemma_connected_reflexive(edges, u);
    } else {
        let x = choose|x: usize| walk(more, u, x, (n - 1) as nat) && #[trigger] adjacent(more, x, v);
        lemma_walk_push_splits(edges, e, u, x, (n - 1) as nat);
        lemma_adjacent_push(edges, e, x, v);
        lemma_connected_reflexive(edges, v);
        if adjacent(edges, x, v) {
            lemma_walk_step(edges, x, v);
            assert(connected(edges, x, v));
            if connected(edges, u, x) {
                lemma_connected_transitive(edges, u, x, v);
            }
            if connected(edges, e.1, x) {
                lemma_connected_transitive(edges, e.1, x, v);
            }
            if connected(edges, e.0, x) {
                lemma_connected_transitive(edges, e.0, x, v);
            }
        } else {
            // the last step is the new edge, so x and v are its two ends
            assert(links(e, x, v));
        }
    }
}

/// Connectivity after one more edge, in terms of connectivity before it.
pub proof fn lemma_connected_push(edges: Seq<(usize, usize)>, e: (usize, usize), u: usize, v: usize)
    ensures
        connected(edges.push(e), u, v) <==> bridged(edges, e.0, e.1, u, v),
{
    let more = edges.push(e);
    if connected(more, u, v) {
        let n = choose|n: nat| walk(more, u, v, n);
        lemma_walk_push_splits(edges, e, u, v, n);
    }
    if bridged(edges, e.0, e.1, u, v) {
        lemma_adjacent_push(edges, e, e.0, e.1);
        assert(links(e, e.0, e.1));
        lemma_walk_step(more, e.0, e.1);
        assert(connected(more, e.0, e.1));
        lemma_connected_symmetric(more, e.0, e.1);
        if connected(edges, u, v) {
            let n = choose|n: nat| walk(edges, u, v, n);
            lemma_walk_push_keeps(edges, e, u, v, n);
        } else if connected(edges, u, e.0) && connected(edges, e.1, v) {
            let n = choose|n: nat| walk(edges, u, e.0, n);
            lemma_walk_push_keeps(edges, e, u, e.0, n);
            let m = choose|m: nat| walk(edges, e.1, v, m);
            lemma_walk_push_keeps(edges, e, e.1, v, m);
            lemma_connected_transitive(more, u, e.0, e.1);
            lemma_connected_transitive(more, u, e.1, v);
        } else {
            let n = choose|n: nat| walk(edges, u, e.1, n);
            lemma_walk_push_keeps(edges, e, u, e.1, n);
            let m = choose|m: nat| walk(edges, e.0, v, m);
            lemma_walk_push_keeps(edges, e, e.0, v, m);
            lemma_connected_transitive(more, u, e.1, e.0);
            lemma_connected_transitive(more, u, e.0, v);
        }
    }
}

} // verus!
