//! The analysis run: the globally influential nodes, the small components
//! and their locally influential nodes, and one record for each pair of a
//! global and a local node.
use vstd::prelude::*;
use crate::components::is_grouping;
use crate::components::partition;
use crate::components::smaller_groups;
use crate::components::views;
use crate::components::Partition;
use crate::distance::path_totals;
use crate::distance::PathTotals;
use crate::rank::first_k;
use crate::rank::is_pick;
use crate::rank::is_ranking;
use crate::rank::is_top;
use crate::rank::most_connected;
use crate::rank::rank_by_degree;
use crate::store::GraphStore;
use crate::walks::degree;
use crate::walks::is_hops;
use crate::walks::reach_count;
use crate::walks::reach_total;

verus! {

/// What is reported of one pair of a globally and a locally influential node.
#[derive(Clone, Copy, Debug, PartialEq, Eq)]
pub struct Record {
    /// The globally influential node.
    pub from_node: usize,
    /// The locally influential node of a small component.
    pub to_node: usize,
    /// The distance between the two, if a path joins them.
    pub distance: Option<u64>,
    /// The path totals of `from_node` over the whole graph.
    pub paths_from_global: PathTotals,
    /// The path totals of `to_node` over the whole graph.
    pub paths_within_isolate: PathTotals,
}

/// The result of an analysis run.
pub struct Analysis {
    /// The degree of every node.
    pub degrees: Vec<usize>,
    /// The globally influential nodes: the top of the degree ranking.
    pub globals: Vec<usize>,
    /// The connected components.
    pub partition: Partition,
    /// The components below the size threshold.
    pub isolated: Vec<Vec<usize>>,
    /// The locally influential node of each isolated component.
    pub locals: Vec<usize>,
    /// One record for each local node and each global node: local nodes in
    /// the order of `locals`, and for each the global nodes in the order of
    /// `globals`.
    pub records: Vec<Record>,
}

/// The path totals of `s` in a graph of `n` nodes.
pub open spec fn totals_of(edges: Seq<(usize, usize)>, s: usize, n: int) -> PathTotals {
    PathTotals { total: reach_total(edges, s, n) as u128, count: reach_count(edges, s, n) as u64 }
}

/// `r` is the record of the pair `from`, `to`.
pub open spec fn record_matches(
    r: Record,
    edges: Seq<(usize, usize)>,
    n: int,
    from: usize,
    to: usize,
) -> bool {
    &&& r.from_node == from
    &&& r.to_node == to
    &&& is_hops(edges, from, to, r.distance)
    &&& r.paths_from_global == totals_of(edges, from, n)
    &&& r.paths_within_isolate == totals_of(edges, to, n)
}

/// The place of the record of local node `a` and global node `b`, with
/// `width` global nodes.
pub open spec fn slot(a: int, b: int, width: int) -> int {
    a * width + b
}

impl Analysis {
    /// This is the analysis of the graph with the given labels and edges,
    /// for `k` global nodes and the given size threshold.
    pub open spec fn describes(
        &self,
        n: nat,
        edges: Seq<(usize, usize)>,
        k: usize,
        size_threshold: usize,
    ) -> bool {
        &&& self.degrees.len() == n
        &&& forall|u: usize| u < n ==> #[trigger] self.degrees[u as int] == degree(edges, u)
        &&& is_top(self.degrees@, self.globals@, k)
        &&& self.partition.describes(n, edges)
        &&& views(self.isolated) == smaller_groups(
            self.partition.groups(),
            size_threshold,
            self.partition.components.len() as int,
        )
        &&& self.locals.len() == self.isolated.len()
        &&& forall|i: int|
            0 <= i < self.locals.len() ==> is_pick(
                self.degrees@,
                (#[trigger] self.isolated[i])@,
                Some(self.locals[i]),
            )
        &&& self.records.len() == self.locals.len() * self.globals.len()
        &&& forall|a: int, b: int|
            0 <= a < self.locals.len() && 0 <= b < self.globals.len() ==> record_matches(
                #[trigger] self.records[slot(a, b, self.globals.len() as int)],
                edges,
                n as int,
                self.globals[b],
                self.locals[a],
            )
    }
}

proof fn lemma_slot_bound(a: int, b: int, rows: int, width: int)
    requires
        0 <= a < rows,
        0 <= b < width,
    ensures
        0 <= slot(a, b, width) < rows * width,
        rows * width == (rows - 1) * width + width,
{
    assert(0 <= a * width && (a + 1) * width <= rows * width && (a + 1) * width == a * width
        + width && rows * width == (rows - 1) * width + width) by (nonlinear_arith)
        requires
            0 <= a < rows,
            0 <= b < width,
    ;
}

/// Every group that passes the size filter is one of the groups, and small.
proof fn lemma_smaller_groups(groups: Seq<Seq<usize>>, limit: usize, k: int, i: int)
    requires
        0 <= k <= groups.len(),
        0 <= i < smaller_groups(groups, limit, k).len(),
    ensures
        exists|c: int|
            0 <= c < k && #[trigger] groups[c] == smaller_groups(groups, limit, k)[i]
                && groups[c].len() < limit,
    decreases k,
{
    if k > 0 {
        let rest = smaller_groups(groups, limit, k - 1);
        if i < rest.len() {
            lemma_smaller_groups(groups, limit, k - 1, i);
            let c = choose|c: int|
                0 <= c < k - 1 && #[trigger] groups[c] == rest[i] && groups[c].len() < limit;
            assert(groups[c] == smaller_groups(groups, limit, k)[i]);
        } else {
            assert(groups[k - 1] == smaller_groups(groups, limit, k)[i]);
        }
    }
}

/// The locally influential node of each isolated component.
fn local_nodes(degrees: &Vec<usize>, isolated: &Vec<Vec<usize>>) -> (locals: Vec<usize>)
    requires
        forall|i: int, j: int|
            0 <= i < isolated.len() && 0 <= j < isolated[i].len() ==> (#[trigger] isolated[i][j])
                < degrees.len(),
        forall|i: int| 0 <= i < isolated.len() ==> (#[trigger] isolated[i]).len() > 0,
    ensures
        locals.len() == isolated.len(),
        forall|i: int|
            0 <= i < locals.len() ==> is_pick(
                degrees@,
                (#[trigger] isolated[i])@,
                Some(locals[i]),
            ),
        forall|i: int| 0 <= i < locals.len() ==> (#[trigger] locals[i]) < degrees.len(),
{
    let mut locals: Vec<usize> = Vec::new();
    let mut i: usize = 0;
    while i < isolated.len()
        invariant
            i <= isolated.len(),
            locals.len() == i,
            forall|i: int, j: int|
                0 <= i < isolated.len() && 0 <= j < isolated[i].len() ==> (
                #[trigger] isolated[i][j]) < degrees.len(),
            forall|i: int| 0 <= i < isolated.len() ==> (#[trigger] isolated[i]).len() > 0,
            forall|c: int|
                0 <= c < i ==> is_pick(degrees@, (#[trigger] isolated[c])@, Some(locals[c])),
            forall|c: int| 0 <= c < i ==> (#[trigger] locals[c]) < degrees.len(),
        decreases isolated.len() - i,
    {
        assert(isolated[i as int].len() > 0);
        assert forall|j: int| 0 <= j < isolated[i as int].len() implies (
        #[trigger] isolated[i as int][j]) < degrees.len() by {}
        match most_connected(degrees, &isolated[i]) {
            Some(best) => {
                proof {
                    let j = choose|j: int|
                        0 <= j < isolated[i as int]@.len() && isolated[i as int]@[j] == best;
                    assert(isolated[i as int][j] < degrees.len());
                }
                locals.push(best);
            },
            None => {
                proof {
                    assert(false);
                }
            },
        }
        i = i + 1;
    }
    locals
}

/// Runs the analysis on a graph: ranks the nodes by degree and takes the
/// first `k` as global nodes, partitions the graph, takes the components
/// with fewer than `size_threshold` members as isolated, picks the local
/// node of each, and reports on every pair of a global and a local node,
/// with distances and path totals taken over the whole graph.
pub fn analyze(g: &GraphStore, k: usize, size_threshold: usize) -> (a: Analysis)
    requires
        g.wf(),
    ensures
        a.describes(g.labels().len(), g.edges(), k, size_threshold),
{
    let ghost n = g.labels().len();
    let ghost edges = g.edges();
    let degrees: Vec<usize> = g.degrees();
    let order: Vec<usize> = rank_by_degree(&degrees);
    let globals: Vec<usize> = first_k(&order, k);
    proof {
        assert(is_ranking(degrees@, order@));
        assert(is_top(degrees@, globals@, k));
        assert forall|b: int| 0 <= b < globals.len() implies (#[trigger] globals[b]) < n by {
            assert(globals[b] == order[b]);
        }
    }
    let partition: Partition = partition(g);
    let isolated: Vec<Vec<usize>> = partition.isolated_components(size_threshold);
    proof {
        let groups = partition.groups();
        assert(is_grouping(partition.labels@, groups));
        assert forall|i: int| 0 <= i < isolated.len() implies (#[trigger] isolated[i]).len() > 0
            && (forall|j: int|
            0 <= j < isolated[i].len() ==> (#[trigger] isolated[i][j]) < degrees.len()) by {
            assert(views(isolated)[i] == isolated[i]@);
            lemma_smaller_groups(groups, size_threshold, groups.len() as int, i);
            let c = choose|c: int|
                0 <= c < groups.len() && #[trigger] groups[c] == smaller_groups(
                    groups,
                    size_threshold,
                    groups.len() as int,
                )[i] && groups[c].len() < size_threshold;
            assert(groups[c] == isolated[i]@);
            assert(groups[c].len() > 0);
            assert forall|j: int| 0 <= j < isolated[i].len() implies (#[trigger] isolated[i][j])
                < degrees.len() by {
                assert(groups[c][j] < partition.labels@.len());
            }
        }
    }
    let locals: Vec<usize> = local_nodes(&degrees, &isolated);
    let mut global_totals: Vec<PathTotals> = Vec::new();
    let mut b: usize = 0;
    while b < globals.len()
        invariant
            b <= globals.len(),
            g.wf(),
            n == g.labels().len(),
            edges == g.edges(),
            global_totals.len() == b,
            forall|c: int| 0 <= c < globals.len() ==> (#[trigger] globals[c]) < n,
            forall|c: int|
                0 <= c < b ==> #[trigger] global_totals[c] == totals_of(edges, globals[c], n as int),
        decreases globals.len() - b,
    {
        global_totals.push(path_totals(g, globals[b]));
        b = b + 1;
    }
    let width: usize = globals.len();
    let mut records: Vec<Record> = Vec::new();
    let mut i: usize = 0;
    while i < locals.len()
        invariant
            i <= locals.len(),
            g.wf(),
            n == g.labels().len(),
            edges == g.edges(),
            width == globals.len(),
            global_totals.len() == width,
            forall|c: int| 0 <= c < globals.len() ==> (#[trigger] globals[c]) < n,
            forall|c: int| 0 <= c < locals.len() ==> (#[trigger] locals[c]) < n,
            forall|c: int|
                0 <= c < width ==> #[trigger] global_totals[c] == totals_of(
                    edges,
                    globals[c],
                    n as int,
                ),
            records.len() == i * width,
            forall|a: int, b: int|
                0 <= a < i && 0 <= b < width ==> record_matches(
                    #[trigger] records[slot(a, b, width as int)],
                    edges,
                    n as int,
                    globals[b],
                    locals[a],
                ),
        decreases locals.len() - i,
    {
        let to: usize = locals[i];
        let within: PathTotals = path_totals(g, to);
        let mut j: usize = 0;
        while j < width
            invariant
                j <= width,
                i < locals.len(),
                to == locals[i as int],
                to < n,
                within == totals_of(edges, to, n as int),
                g.wf(),
                n == g.labels().len(),
                edges == g.edges(),
                width == globals.len(),
                global_totals.len() == width,
                forall|c: int| 0 <= c < globals.len() ==> (#[trigger] globals[c]) < n,
                forall|c: int|
                    0 <= c < width ==> #[trigger] global_totals[c] == totals_of(
                        edges,
                        globals[c],
                        n as int,
                    ),
                records.len() == i * width + j,
                forall|a: int, b: int|
                    0 <= a < i && 0 <= b < width ==> record_matches(
                        #[trigger] records[slot(a, b, width as int)],
                        edges,
                        n as int,
                        globals[b],
                        locals[a],
                    ),
                forall|b: int|
                    0 <= b < j ==> record_matches(
                        #[trigger] records[slot(i as int, b, width as int)],
                        edges,
                        n as int,
                        globals[b],
                        to,
                    ),
            decreases width - j,
        {
            let from: usize = globals[j];
            let record = Record {
                from_node: from,
                to_node: to,
                distance: g.distance_to(from, to),
                paths_from_global: global_totals[j],
                paths_within_isolate: within,
            };
            let ghost before = records@;
            records.push(record);
            proof {
                assert(global_totals[j as int] == totals_of(edges, globals[j as int], n as int));
                assert forall|a: int, b: int| 0 <= a < i && 0 <= b < width implies record_matches(
                    #[trigger] records[slot(a, b, width as int)],
                    edges,
                    n as int,
                    globals[b],
                    locals[a],
                ) by {
                    lemma_slot_bound(a, b, i as int, width as int);
                    assert(records[slot(a, b, width as int)] == before[slot(a, b, width as int)]);
                }
                assert forall|b: int| 0 <= b < j + 1 implies record_matches(
                    #[trigger] records[slot(i as int, b, width as int)],
                    edges,
                    n as int,
                    globals[b],
                    to,
                ) by {
                    if b < j {
                        assert(records[slot(i as int, b, width as int)] == before[slot(
                            i as int,
                            b,
                            width as int,
                        )]);
                    }
                }
            }
            j = j + 1;
        }
        proof {
            assert((i + 1) * width == i * width + width) by (nonlinear_arith);
        }
        i = i + 1;
    }
    Analysis { degrees, globals, partition, isolated, locals, records }
}

} // verus!
