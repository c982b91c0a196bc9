//! Ranking of nodes by degree: higher degree first, and among equal degrees
//! the node that was seen first.
use vstd::prelude::*;
use crate::store::GraphStore;
use crate::walks::degree;

verus! {

/// Node `a` comes before node `b`: it has the higher degree, or the same
/// degree and the lower index.
pub open spec fn outranks(degrees: Seq<usize>, a: usize, b: usize) -> bool {
    degrees[a as int] > degrees[b as int] || (degrees[a as int] == degrees[b as int] && a < b)
}

/// `order` lists the first `n` nodes so that each outranks all that follow.
pub open spec fn is_ranking_of(degrees: Seq<usize>, order: Seq<usize>, n: int) -> bool {
    &&& order.len() == n
    &&& forall|i: int| 0 <= i < order.len() ==> (#[trigger] order[i]) < n
    &&& forall|i: int, j: int|
        0 <= i < j < order.len() ==> outranks(degrees, #[trigger] order[i], #[trigger] order[j])
}

/// `order` lists all the nodes so that each outranks all that follow.
pub open spec fn is_ranking(degrees: Seq<usize>, order: Seq<usize>) -> bool {
    is_ranking_of(degrees, order, degrees.len() as int)
}

/// `top` is the first `k` nodes of the ranking, or all of them if there are fewer.
pub open spec fn is_top(degrees: Seq<usize>, top: Seq<usize>, k: usize) -> bool {
    exists|order: Seq<usize>| #[trigger]
        is_ranking(degrees, order) && top == order.take(
            if k <= order.len() {
                k as int
            } else {
                order.len() as int
            },
        )
}

/// `best` is the pick among `members`: none outranks it. Of an empty list
/// there is no pick.
pub open spec fn is_pick(degrees: Seq<usize>, members: Seq<usize>, best: Option<usize>) -> bool {
    match best {
        Some(b) => members.contains(b) && forall|j: int|
            0 <= j < members.len() ==> !outranks(degrees, #[trigger] members[j], b),
        None => members.len() == 0,
    }
}

/// The node indices below `n`.
pub open spec fn nodes_below(n: int) -> Set<usize> {
    Set::new(|x: usize| x < n)
}

proof fn lemma_nodes_below(n: int)
    requires
        0 <= n <= usize::MAX,
    ensures
        nodes_below(n).finite(),
        nodes_below(n).len() == n,
    decreases n,
{
    if n == 0 {
        assert(nodes_below(0) =~= Set::<usize>::empty());
    } else {
        lemma_nodes_below(n - 1);
        assert(nodes_below(n) =~= nodes_below(n - 1).insert((n - 1) as usize));
    }
}

/// A ranking holds every node.
pub proof fn lemma_ranking_covers(degrees: Seq<usize>, order: Seq<usize>, v: usize)
    requires
        degrees.len() <= usize::MAX,
        is_ranking(degrees, order),
        v < degrees.len(),
    ensures
        order.contains(v),
{
    let n = degrees.len() as int;
    assert forall|i: int, j: int| 0 <= i < order.len() && 0 <= j < order.len() && i != j implies
        order[i] != order[j] by {
        if i < j {
            assert(outranks(degrees, order[i], order[j]));
        } else {
            assert(outranks(degrees, order[j], order[i]));
        }
    }
    order.unique_seq_to_set();
    lemma_nodes_below(n);
    let held = order.to_set();
    assert(held.subset_of(nodes_below(n))) by {
        assert forall|x: usize| held.contains(x) implies nodes_below(n).contains(x) by {
            let i = choose|i: int| 0 <= i < order.len() && order[i] == x;
            assert(order[i] < n);
        }
    }
    vstd::set_lib::lemma_len_subset(held, nodes_below(n));
    vstd::set_lib::lemma_subset_equality(held, nodes_below(n));
    assert(nodes_below(n).contains(v));
    assert(held.contains(v));
}

proof fn lemma_ranking_prefix(degrees: Seq<usize>, a: Seq<usize>, b: Seq<usize>, k: int)
    requires
        degrees.len() <= usize::MAX,
        is_ranking(degrees, a),
        is_ranking(degrees, b),
        0 <= k <= degrees.len(),
    ensures
        forall|j: int| 0 <= j < k ==> a[j] == b[j],
    decreases k,
{
    if k > 0 {
        lemma_ranking_prefix(degrees, a, b, k - 1);
        let i = k - 1;
        lemma_ranking_covers(degrees, b, a[i]);
        lemma_ranking_covers(degrees, a, b[i]);
        let p = choose|p: int| 0 <= p < b.len() && b[p] == a[i];
        let q = choose|q: int| 0 <= q < a.len() && a[q] == b[i];
        if p < i {
            assert(a[p] == b[p]);
            assert(outranks(degrees, a[p], a[i]));
        }
        if q < i {
            assert(a[q] == b[q]);
            assert(outranks(degrees, b[q], b[i]));
        }
        if p > i {
            assert(outranks(degrees, b[i], b[p]));
            if q > i {
                assert(outranks(degrees, a[i], a[q]));
            }
        }
    }
}

/// The degrees determine the ranking: there is one only.
pub proof fn law_ranking_unique(degrees: Seq<usize>, a: Seq<usize>, b: Seq<usize>)
    requires
        degrees.len() <= usize::MAX,
        is_ranking(degrees, a),
        is_ranking(degrees, b),
    ensures
        a == b,
{
    lemma_ranking_prefix(degrees, a, b, degrees.len() as int);
    assert(a =~= b);
}

/// All the nodes, by degree descending; equal degrees keep node order.
pub fn rank_by_degree(degrees: &Vec<usize>) -> (order: Vec<usize>)
    ensures
        is_ranking(degrees@, order@),
{
    let n: usize = degrees.len();
    let mut order: Vec<usize> = Vec::new();
    let mut u: usize = 0;
    while u < n
        invariant
            u <= n,
            n == degrees.len(),
            is_ranking_of(degrees@, order@, u as int),
        decreases n - u,
    {
        let mut p: usize = 0;
        while p < order.len() && degrees[order[p]] >= degrees[u]
            invariant
                p <= order.len(),
                u < n,
                n == degrees.len(),
                is_ranking_of(degrees@, order@, u as int),
                forall|q: int| 0 <= q < p ==> degrees[(#[trigger] order[q]) as int] >= degrees[u as int],
            decreases order.len() - p,
        {
            p = p + 1;
        }
        let ghost before = order@;
        order.insert(p, u);
        proof {
            let after = order@;
            assert forall|i: int, j: int| 0 <= i < j < after.len() implies outranks(
                degrees@,
                #[trigger] after[i],
                #[trigger] after[j],
            ) by {
                if j < p {
                    assert(after[i] == before[i] && after[j] == before[j]);
                } else if j == p {
                    assert(after[i] == before[i]);
                    assert(before[i] < u);
                } else if i < p {
                    assert(after[i] == before[i] && after[j] == before[j - 1]);
                } else if i == p {
                    assert(after[j] == before[j - 1]);
                    assert(before[p as int] < u);
                    if j - 1 > p {
                        assert(outranks(degrees@, before[p as int], before[j - 1]));
                    }
                } else {
                    assert(after[i] == before[i - 1] && after[j] == before[j - 1]);
                }
            }
            assert forall|i: int| 0 <= i < after.len() implies (#[trigger] after[i]) < u + 1 by {
                if i < p {
                    assert(after[i] == before[i]);
                } else if i > p {
                    assert(after[i] == before[i - 1]);
                }
            }
        }
        u = u + 1;
    }
    order
}

/// The first `k` nodes by degree, or all of them if there are fewer.
pub fn top_k(g: &GraphStore, k: usize) -> (top: Vec<usize>)
    requires
        g.wf(),
    ensures
        exists|degrees: Seq<usize>|
            degrees.len() == g.labels().len() && (forall|u: usize|
                u < degrees.len() ==> #[trigger] degrees[u as int] == degree(g.edges(), u))
                && #[trigger] is_top(degrees, top@, k),
{
    let degrees: Vec<usize> = g.degrees();
    let order: Vec<usize> = rank_by_degree(&degrees);
    let top: Vec<usize> = first_k(&order, k);
    proof {
        assert(is_ranking(degrees@, order@));
        assert(is_top(degrees@, top@, k));
    }
    top
}

/// The first `k` entries of a list, or all of them if there are fewer.
pub fn first_k(order: &Vec<usize>, k: usize) -> (top: Vec<usize>)
    ensures
        top@ == order@.take(
            if k <= order.len() {
                k as int
            } else {
                order.len() as int
            },
        ),
{
    let len: usize = if k <= order.len() {
        k
    } else {
        order.len()
    };
    let mut top: Vec<usize> = Vec::new();
    let mut i: usize = 0;
    while i < len
        invariant
            i <= len <= order.len(),
            top@ == order@.take(i as int),
        decreases len - i,
    {
        top.push(order[i]);
        proof {
            assert(order@.take(i + 1) == order@.take(i as int).push(order@[i as int]));
        }
        i = i + 1;
    }
    top
}

/// The member with the highest degree; among several, the one with the
/// lowest index. `None` for an empty list.
pub fn most_connected(degrees: &Vec<usize>, members: &Vec<usize>) -> (best: Option<usize>)
    requires
        forall|j: int| 0 <= j < members.len() ==> (#[trigger] members[j]) < degrees.len(),
    ensures
        is_pick(degrees@, members@, best),
{
    if members.len() == 0 {
        return None;
    }
    let mut best: usize = members[0];
    let mut j: usize = 1;
    while j < members.len()
        invariant
            1 <= j <= members.len(),
            best < degrees.len(),
            forall|i: int| 0 <= i < members.len() ==> (#[trigger] members[i]) < degrees.len(),
            exists|i: int| 0 <= i < j && members[i] == best,
            forall|i: int| 0 <= i < j ==> !outranks(degrees@, #[trigger] members[i], best),
        decreases members.len() - j,
    {
        let m: usize = members[j];
        if degrees[m] > degrees[best] || (degrees[m] == degrees[best] && m < best) {
            best = m;
        }
        j = j + 1;
    }
    proof {
        let i = choose|i: int| 0 <= i < j && members[i] == best;
        assert(members@[i] == best);
    }
    Some(best)
}

} // verus!
