//! Distances from one source to every node, and the totals from which an
//! average path length is taken.
use vstd::prelude::*;
use crate::store::GraphStore;
use crate::walks::is_hops;
use crate::walks::lemma_distance_unique;
use crate::walks::reach_count;
use crate::walks::reach_total;

verus! {

/// The sum and the number of the distances from one source to the other
/// nodes that it reaches. Their quotient is the average path length; with a
/// count of zero the average is defined as zero.
#[derive(Clone, Copy, Debug, PartialEq, Eq)]
pub struct PathTotals {
    pub total: u128,
    pub count: u64,
}

/// The distance from `source` to every node, by node index; `None` marks a
/// node that `source` does not reach. All are `None` where `source` is no node.
pub fn distances_from(g: &GraphStore, source: usize) -> (dists: Vec<Option<u64>>)
    requires
        g.wf(),
    ensures
        dists.len() == g.labels().len(),
        source < g.labels().len() ==> forall|t: usize|
            t < dists.len() ==> is_hops(g.edges(), source, t, #[trigger] dists[t as int]),
        source < g.labels().len() ==> dists[source as int] == Some(0u64),
        source >= g.labels().len() ==> forall|t: int|
            0 <= t < dists.len() ==> (#[trigger] dists[t]).is_none(),
{
    let n: usize = g.node_count();
    let mut dists: Vec<Option<u64>> = Vec::new();
    let mut t: usize = 0;
    while t < n
        invariant
            t <= n,
            g.wf(),
            n == g.labels().len(),
            dists.len() == t,
            source < n ==> forall|w: usize|
                w < t ==> is_hops(g.edges(), source, w, #[trigger] dists[w as int]),
            source < n && source < t ==> dists[source as int] == Some(0u64),
            source >= n ==> forall|w: int| 0 <= w < t ==> (#[trigger] dists[w]).is_none(),
        decreases n - t,
    {
        dists.push(g.distance_to(source, t));
        t = t + 1;
    }
    dists
}

/// As `distances_from`, within a limit on the work: each node costs one
/// distance query, and with `max_queries` below the number of nodes the
/// search is not begun and `None` is returned. Without a limit the
/// distances are always returned.
pub fn distances_from_within(g: &GraphStore, source: usize, max_queries: Option<usize>) -> (r: Option<
    Vec<Option<u64>>,
>)
    requires
        g.wf(),
    ensures
        r.is_none() <==> (max_queries.is_some() && max_queries.unwrap() < g.labels().len()),
        match r {
            Some(dists) => {
                &&& dists.len() == g.labels().len()
                &&& source < g.labels().len() ==> forall|t: usize|
                    t < dists.len() ==> is_hops(g.edges(), source, t, #[trigger] dists[t as int])
                &&& source >= g.labels().len() ==> forall|t: int|
                    0 <= t < dists.len() ==> (#[trigger] dists[t]).is_none()
            },
            None => true,
        },
{
    match max_queries {
        Some(limit) => {
            if limit < g.node_count() {
                return None;
            }
        },
        None => {},
    }
    Some(distances_from(g, source))
}

/// The sum and the number of the distances from `source` to the other nodes
/// that it reaches. Nodes that it does not reach add to neither.
pub fn path_totals(g: &GraphStore, source: usize) -> (totals: PathTotals)
    requires
        g.wf(),
    ensures
        source < g.labels().len() ==> totals.count == reach_count(
            g.edges(),
            source,
            g.labels().len() as int,
        ) && totals.total == reach_total(g.edges(), source, g.labels().len() as int),
        source >= g.labels().len() ==> totals.count == 0 && totals.total == 0,
{
    let n: usize = g.node_count();
    let mut total: u128 = 0;
    let mut count: u64 = 0;
    if source >= n {
        return PathTotals { total, count };
    }
    let mut t: usize = 0;
    while t < n
        invariant
            t <= n,
            source < n,
            g.wf(),
            n == g.labels().len(),
            n <= crate::store::CAPACITY,
            count == reach_count(g.edges(), source, t as int),
            total == reach_total(g.edges(), source, t as int),
            count <= t,
            total <= t * 0xffff_ffff_ffff_ffff,
        decreases n - t,
    {
        if t != source {
            match g.distance_to(source, t) {
                Some(d) => {
                    proof {
                        lemma_distance_unique(g.edges(), source, t, d as nat, d as nat);
                    }
                    total = total + d as u128;
                    count = count + 1;
                },
                None => {},
            }
        }
        t = t + 1;
    }
    PathTotals { total, count }
}

} // verus!
