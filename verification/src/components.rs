//! Connected components: a disjoint-set pass over the edges gives every node
//! a label, and the nodes are then grouped by label.
use vstd::prelude::*;
use petgraph::unionfind::UnionFind;
use crate::store::GraphStore;
use crate::walks::connected;
use crate::walks::lemma_connected_push;
use crate::walks::lemma_connected_reflexive;
use crate::walks::lemma_walk_no_edges;

verus! {

/// `petgraph::unionfind::UnionFind`, held as an opaque value: what it
/// contains is spoken of through `set_roots` only.
#[verifier::external_type_specification]
#[verifier::external_body]
#[verifier::reject_recursive_types(K)]
pub struct ExUnionFind<K>(UnionFind<K>);

/// The representative of each element of a disjoint-set structure.
pub uninterp spec fn set_roots(sets: UnionFind<usize>) -> Seq<usize>;

/// What a union of the sets of `x` and `y` does to the representatives: the
/// two sets get one of their former representatives, the others keep theirs.
pub open spec fn merged(before: Seq<usize>, after: Seq<usize>, x: int, y: int) -> bool {
    &&& after.len() == before.len()
    &&& (after[x] == before[x] || after[x] == before[y])
    &&& forall|i: int|
        0 <= i < before.len() ==> #[trigger] after[i] == if before[i] == before[x] || before[i]
            == before[y] {
            after[x]
        } else {
            before[i]
        }
}

/// `UnionFind::new`: `n` singleton sets, each element its own representative.
#[verifier::external_body]
fn sets_new(n: usize) -> (sets: UnionFind<usize>)
    ensures
        set_roots(sets).len() == n,
        forall|i: int| 0 <= i < n ==> #[trigger] set_roots(sets)[i] == i,
{
    UnionFind::new(n)
}

/// `UnionFind::union`: joins the sets of `x` and `y` under the representative
/// of one of them (the ranks decide which) and tells whether they were
/// apart. It panics on an element out of bounds.
#[verifier::external_body]
fn sets_union(sets: &mut UnionFind<usize>, x: usize, y: usize) -> (joined: bool)
    requires
        x < set_roots(*old(sets)).len(),
        y < set_roots(*old(sets)).len(),
    ensures
        merged(set_roots(*old(sets)), set_roots(*final(sets)), x as int, y as int),
        joined == (set_roots(*old(sets))[x as int] != set_roots(*old(sets))[y as int]),
{
    sets.union(x, y)
}

/// `UnionFind::find`: the representative of `x`. It panics on an element out
/// of bounds.
#[verifier::external_body]
fn sets_find(sets: &UnionFind<usize>, x: usize) -> (root: usize)
    requires
        x < set_roots(*sets).len(),
    ensures
        root == set_roots(*sets)[x as int],
{
    sets.find(x)
}

/// The member lists of a vector of groups.
pub open spec fn views(groups: Vec<Vec<usize>>) -> Seq<Seq<usize>> {
    Seq::new(groups.len() as nat, |c: int| groups[c]@)
}

/// The label shared by the members of group `c`: that of its first member.
pub open spec fn group_label(labels: Seq<usize>, groups: Seq<Seq<usize>>, c: int) -> usize {
    labels[groups[c][0] as int]
}

/// Each group is a non-empty ascending list of all the nodes with one label,
/// and the groups are ordered by their first members.
pub open spec fn well_grouped(labels: Seq<usize>, groups: Seq<Seq<usize>>) -> bool {
    &&& forall|c: int| 0 <= c < groups.len() ==> (#[trigger] groups[c]).len() > 0
    &&& forall|c: int, j: int|
        0 <= c < groups.len() && 0 <= j < groups[c].len() ==> (#[trigger] groups[c][j])
            < labels.len() && labels[groups[c][j] as int] == group_label(labels, groups, c)
    &&& forall|c: int, j: int, k: int|
        0 <= c < groups.len() && 0 <= j < k < groups[c].len() ==> (#[trigger] groups[c][j])
            < #[trigger] groups[c][k]
    &&& forall|c: int, v: usize|
        0 <= c < groups.len() && v < labels.len() && labels[v as int] == group_label(
            labels,
            groups,
            c,
        ) ==> #[trigger] groups[c].contains(v)
    &&& forall|c: int, d: int|
        0 <= c < d < groups.len() ==> (#[trigger] groups[c][0]) < #[trigger] groups[d][0]
}

/// Some group has the label `l`.
pub open spec fn has_group(labels: Seq<usize>, groups: Seq<Seq<usize>>, l: usize) -> bool {
    exists|c: int| 0 <= c < groups.len() && #[trigger] group_label(labels, groups, c) == l
}

/// Every node below `upto` has a group with its label.
pub open spec fn covered(labels: Seq<usize>, groups: Seq<Seq<usize>>, upto: int) -> bool {
    forall|v: int| 0 <= v < upto ==> has_group(labels, groups, #[trigger] labels[v])
}

/// Every group starts below `u`.
pub open spec fn firsts_below(groups: Seq<Seq<usize>>, u: int) -> bool {
    forall|c: int| 0 <= c < groups.len() ==> (#[trigger] groups[c][0]) < u
}

/// `members` are the nodes from `u` up to `upto` that have the label of `u`, ascending.
pub open spec fn class_from(labels: Seq<usize>, members: Seq<usize>, u: usize, upto: int) -> bool {
    &&& forall|j: int|
        0 <= j < members.len() ==> u <= (#[trigger] members[j]) < upto && labels[members[j] as int]
            == labels[u as int]
    &&& forall|j: int, k: int|
        0 <= j < k < members.len() ==> (#[trigger] members[j]) < #[trigger] members[k]
    &&& forall|w: usize|
        u <= w < upto && labels[w as int] == labels[u as int] ==> #[trigger] members.contains(w)
    &&& upto > u ==> members.len() > 0 && members[0] == u
}

/// `groups` are the classes of equal label, each ascending, ordered by first
/// member: the one grouping of the nodes `0..labels.len()` by label.
pub open spec fn is_grouping(labels: Seq<usize>, groups: Seq<Seq<usize>>) -> bool {
    well_grouped(labels, groups) && covered(labels, groups, labels.len() as int)
}

/// The groups among the first `k` that have fewer than `limit` members, in order.
pub open spec fn smaller_groups(groups: Seq<Seq<usize>>, limit: usize, k: int) -> Seq<Seq<usize>>
    decreases k,
{
    if k <= 0 {
        Seq::empty()
    } else if groups[k - 1].len() < limit {
        smaller_groups(groups, limit, k - 1).push(groups[k - 1])
    } else {
        smaller_groups(groups, limit, k - 1)
    }
}

/// A node whose label no group has opens the next group.
proof fn lemma_open_group(labels: Seq<usize>, groups: Seq<Seq<usize>>, members: Seq<usize>, u: usize)
    requires
        u < labels.len(),
        well_grouped(labels, groups),
        covered(labels, groups, u as int),
        firsts_below(groups, u as int),
        !has_group(labels, groups, labels[u as int]),
        class_from(labels, members, u, labels.len() as int),
    ensures
        well_grouped(labels, groups.push(members)),
        covered(labels, groups.push(members), u + 1),
        firsts_below(groups.push(members), u + 1),
        forall|l: usize|
            has_group(labels, groups.push(members), l) <==> (has_group(labels, groups, l) || l
                == labels[u as int]),
{
    let more = groups.push(members);
    let last = groups.len() as int;
    let l = labels[u as int];
    assert(more[last] == members);
    assert(group_label(labels, more, last) == l);
    assert forall|c: int| 0 <= c < last implies more[c] == groups[c] && group_label(
        labels,
        more,
        c,
    ) == #[trigger] group_label(labels, groups, c) && group_label(labels, groups, c) != l by {}
    assert forall|w: int| 0 <= w < u implies labels[w] != l by {
        assert(has_group(labels, groups, labels[w]));
    }
    assert forall|c: int, v: usize|
        0 <= c < more.len() && v < labels.len() && labels[v as int] == group_label(
            labels,
            more,
            c,
        ) implies #[trigger] more[c].contains(v) by {
        if c < last {
            assert(group_label(labels, more, c) == group_label(labels, groups, c));
            assert(groups[c].contains(v));
        } else {
            assert(v >= u);
        }
    }
    assert forall|c: int, j: int| 0 <= c < more.len() && 0 <= j < more[c].len() implies (
    #[trigger] more[c][j]) < labels.len() && labels[more[c][j] as int] == group_label(
        labels,
        more,
        c,
    ) by {
        if c < last {
            assert(group_label(labels, more, c) == group_label(labels, groups, c));
            assert(groups[c][j] < labels.len());
        }
    }
    assert forall|c: int, j: int, k: int|
        0 <= c < more.len() && 0 <= j < k < more[c].len() implies (#[trigger] more[c][j])
        < #[trigger] more[c][k] by {
        if c < last {
            assert(groups[c][j] < groups[c][k]);
        }
    }
    assert forall|c: int, d: int| 0 <= c < d < more.len() implies (#[trigger] more[c][0])
        < #[trigger] more[d][0] by {
        assert(groups[c][0] < u);
        if d < last {
            assert(groups[c][0] < groups[d][0]);
        }
    }
    assert forall|c: int| 0 <= c < more.len() implies (#[trigger] more[c]).len() > 0 by {
        if c < last {
            assert(groups[c].len() > 0);
        }
    }
    assert forall|c: int| 0 <= c < more.len() implies (#[trigger] more[c][0]) < u + 1 by {
        if c < last {
            assert(groups[c][0] < u);
        }
    }
    assert forall|k: usize|
        has_group(labels, more, k) <==> (has_group(labels, groups, k) || k == l) by {
        if has_group(labels, groups, k) {
            let c = choose|c: int|
                0 <= c < groups.len() && #[trigger] group_label(labels, groups, c) == k;
            assert(group_label(labels, more, c) == k);
        }
        if has_group(labels, more, k) {
            let c = choose|c: int| 0 <= c < more.len() && #[trigger] group_label(labels, more, c) == k;
            if c < last {
                assert(group_label(labels, groups, c) == k);
            }
        }
    }
    assert forall|w: int| 0 <= w < u + 1 implies has_group(labels, more, #[trigger] labels[w]) by {
        if w < u {
            assert(has_group(labels, groups, labels[w]));
        }
    }
}

/// The nodes from `u` on that have the label of `u`, ascending.
fn class_of(labels: &Vec<usize>, u: usize) -> (members: Vec<usize>)
    requires
        u < labels.len(),
    ensures
        class_from(labels@, members@, u, labels.len() as int),
{
    let n: usize = labels.len();
    let l: usize = labels[u];
    let mut members: Vec<usize> = Vec::new();
    let mut v: usize = u;
    while v < n
        invariant
            u <= v <= n,
            u < n,
            n == labels.len(),
            l == labels[u as int],
            class_from(labels@, members@, u, v as int),
        decreases n - v,
    {
        if labels[v] == l {
            let ghost before = members@;
            members.push(v);
            proof {
                assert forall|w: usize|
                    u <= w < v + 1 && labels[w as int] == l implies #[trigger] members@.contains(
                    w,
                ) by {
                    if w < v {
                        assert(before.contains(w));
                        let j = choose|j: int| 0 <= j < before.len() && before[j] == w;
                        assert(members@[j] == w);
                    } else {
                        assert(members@[before.len() as int] == w);
                    }
                }
                assert forall|j: int, k: int| 0 <= j < k < members@.len() implies (
                #[trigger] members@[j]) < #[trigger] members@[k] by {
                    if k < before.len() {
                        assert(before[j] < before[k]);
                    } else {
                        assert(before[j] < v);
                    }
                }
            }
        }
        v = v + 1;
    }
    members
}

/// Groups the nodes `0..labels.len()` by label.
pub fn group_by_label(labels: &Vec<usize>) -> (groups: Vec<Vec<usize>>)
    requires
        forall|i: int| 0 <= i < labels.len() ==> labels[i] < labels.len(),
    ensures
        is_grouping(labels@, views(groups)),
{
    let n: usize = labels.len();
    let mut seen: Vec<bool> = Vec::new();
    let mut i: usize = 0;
    while i < n
        invariant
            i <= n,
            seen.len() == i,
            forall|l: int| 0 <= l < i ==> !seen[l],
        decreases n - i,
    {
        seen.push(false);
        i = i + 1;
    }
    let mut groups: Vec<Vec<usize>> = Vec::new();
    let mut u: usize = 0;
    while u < n
        invariant
            u <= n,
            n == labels.len(),
            seen.len() == n,
            forall|i: int| 0 <= i < labels.len() ==> labels[i] < labels.len(),
            well_grouped(labels@, views(groups)),
            covered(labels@, views(groups), u as int),
            firsts_below(views(groups), u as int),
            forall|l: usize| l < n ==> (#[trigger] seen[l as int] <==> has_group(labels@, views(groups), l)),
        decreases n - u,
    {
        let l: usize = labels[u];
        if !seen[l] {
            let members: Vec<usize> = class_of(labels, u);
            let ghost old_groups = views(groups);
            seen.set(l, true);
            groups.push(members);
            proof {
                assert(views(groups) == old_groups.push(members@));
                lemma_open_group(labels@, old_groups, members@, u);
            }
        }
        u = u + 1;
    }
    groups
}

/// Copies a list of nodes.
fn copy_nodes(nodes: &Vec<usize>) -> (copy: Vec<usize>)
    ensures
        copy@ == nodes@,
{
    let mut copy: Vec<usize> = Vec::new();
    let mut i: usize = 0;
    while i < nodes.len()
        invariant
            i <= nodes.len(),
            copy@ == nodes@.take(i as int),
        decreases nodes.len() - i,
    {
        copy.push(nodes[i]);
        proof {
            assert(nodes@.take(i + 1) == nodes@.take(i as int).push(nodes@[i as int]));
        }
        i = i + 1;
    }
    proof {
        assert(nodes@.take(nodes.len() as int) == nodes@);
    }
    copy
}

/// The component label of every node, by a disjoint-set pass over the edges:
/// two nodes get one label exactly if a walk joins them.
pub fn component_labels(g: &GraphStore) -> (labels: Vec<usize>)
    requires
        g.wf(),
    ensures
        labels.len() == g.labels().len(),
        forall|u: int| 0 <= u < labels.len() ==> labels[u] < labels.len(),
        forall|u: usize, v: usize|
            u < labels.len() && v < labels.len() ==> (labels[u as int] == labels[v as int]
                <==> #[trigger] connected(g.edges(), u, v)),
{
    let n: usize = g.node_count();
    let m: usize = g.edge_count();
    let mut sets: UnionFind<usize> = sets_new(n);
    proof {
        let none = g.edges().take(0);
        assert(none == Seq::<(usize, usize)>::empty());
        assert forall|u: usize, v: usize| u < n && v < n implies (set_roots(sets)[u as int]
            == set_roots(sets)[v as int] <==> #[trigger] connected(none, u, v)) by {
            lemma_connected_reflexive(none, u);
            if connected(none, u, v) {
                let k = choose|k: nat| crate::walks::walk(none, u, v, k);
                lemma_walk_no_edges(u, v, k);
            }
        }
    }
    let mut i: usize = 0;
    while i < m
        invariant
            i <= m,
            g.wf(),
            m == g.edges().len(),
            n == g.labels().len(),
            set_roots(sets).len() == n,
            forall|u: int| 0 <= u < n ==> #[trigger] set_roots(sets)[u] < n,
            forall|u: usize, v: usize|
                u < n && v < n ==> (set_roots(sets)[u as int] == set_roots(sets)[v as int]
                    <==> #[trigger] connected(g.edges().take(i as int), u, v)),
        decreases m - i,
    {
        let e: (usize, usize) = g.edge_at(i);
        let ghost before = set_roots(sets);
        let ghost prefix = g.edges().take(i as int);
        let _ = sets_union(&mut sets, e.0, e.1);
        proof {
            let after = set_roots(sets);
            assert(g.edges().take(i + 1) == prefix.push(e));
            assert forall|u: usize, v: usize| u < n && v < n implies (after[u as int]
                == after[v as int] <==> #[trigger] connected(prefix.push(e), u, v)) by {
                lemma_connected_push(prefix, e, u, v);
                assert(before[u as int] == before[v as int] <==> connected(prefix, u, v));
                assert(before[u as int] == before[e.0 as int] <==> connected(prefix, u, e.0));
                assert(before[u as int] == before[e.1 as int] <==> connected(prefix, u, e.1));
                assert(before[e.0 as int] == before[v as int] <==> connected(prefix, e.0, v));
                assert(before[e.1 as int] == before[v as int] <==> connected(prefix, e.1, v));
                assert(after[u as int] == if before[u as int] == before[e.0 as int]
                    || before[u as int] == before[e.1 as int] {
                    after[e.0 as int]
                } else {
                    before[u as int]
                });
                assert(after[v as int] == if before[v as int] == before[e.0 as int]
                    || before[v as int] == before[e.1 as int] {
                    after[e.0 as int]
                } else {
                    before[v as int]
                });
            }
            assert forall|u: int| 0 <= u < n implies #[trigger] after[u] < n by {
                assert(before[u] < n);
                assert(before[e.0 as int] < n);
                assert(before[e.1 as int] < n);
            }
        }
        i = i + 1;
    }
    proof {
        assert(g.edges().take(m as int) == g.edges());
    }
    let mut labels: Vec<usize> = Vec::new();
    let mut u: usize = 0;
    while u < n
        invariant
            u <= n,
            set_roots(sets).len() == n,
            labels.len() == u,
            forall|w: int| 0 <= w < u ==> labels[w] == set_roots(sets)[w],
        decreases n - u,
    {
        labels.push(sets_find(&sets, u));
        u = u + 1;
    }
    proof {
        assert forall|w: int| 0 <= w < labels.len() implies labels[w] < labels.len() by {
            assert(set_roots(sets)[w] < n);
        }
    }
    labels
}

/// The connected components of a graph.
pub struct Partition {
    /// The component label of each node.
    pub labels: Vec<usize>,
    /// The member lists, each ascending, ordered by first member.
    pub components: Vec<Vec<usize>>,
}

impl Partition {
    /// The member lists as sequences.
    pub open spec fn groups(&self) -> Seq<Seq<usize>> {
        views(self.components)
    }

    /// This is the partition of the graph with the given node count and
    /// edges: labels agree exactly on connected nodes, and the components
    /// are the grouping of the nodes by label.
    pub open spec fn describes(&self, n: nat, edges: Seq<(usize, usize)>) -> bool {
        &&& self.labels.len() == n
        &&& forall|u: usize, v: usize|
            u < n && v < n ==> (self.labels[u as int] == self.labels[v as int]
                <==> #[trigger] connected(edges, u, v))
        &&& is_grouping(self.labels@, self.groups())
    }

    /// The component label of a node, if it is one.
    pub fn label_of(&self, node: usize) -> (r: Option<usize>)
        ensures
            r == if node < self.labels.len() {
                Some(self.labels[node as int])
            } else {
                None
            },
    {
        if node < self.labels.len() {
            Some(self.labels[node])
        } else {
            None
        }
    }

    /// The components with fewer than `size_threshold` members, in order.
    pub fn isolated_components(&self, size_threshold: usize) -> (small: Vec<Vec<usize>>)
        ensures
            views(small) == smaller_groups(
                self.groups(),
                size_threshold,
                self.components.len() as int,
            ),
    {
        let mut small: Vec<Vec<usize>> = Vec::new();
        let mut c: usize = 0;
        proof {
            assert(views(small) == Seq::<Seq<usize>>::empty());
        }
        while c < self.components.len()
            invariant
                c <= self.components.len(),
                views(small) == smaller_groups(self.groups(), size_threshold, c as int),
            decreases self.components.len() - c,
        {
            if self.components[c].len() < size_threshold {
                let ghost before = views(small);
                let copy: Vec<usize> = copy_nodes(&self.components[c]);
                small.push(copy);
                proof {
                    assert(views(small) == before.push(self.groups()[c as int]));
                }
            }
            c = c + 1;
        }
        small
    }
}

/// Partitions the graph into its connected components.
pub fn partition(g: &GraphStore) -> (p: Partition)
    requires
        g.wf(),
    ensures
        p.describes(g.labels().len(), g.edges()),
{
    let labels: Vec<usize> = component_labels(g);
    let components: Vec<Vec<usize>> = group_by_label(&labels);
    Partition { labels, components }
}

/// Every node belongs to exactly one component, at exactly one place of its
/// member list.
pub proof fn law_one_component_per_node(labels: Seq<usize>, groups: Seq<Seq<usize>>, v: usize)
    requires
        is_grouping(labels, groups),
        v < labels.len(),
    ensures
        exists|c: int, j: int|
            0 <= c < groups.len() && 0 <= j < groups[c].len() && #[trigger] groups[c][j] == v,
        forall|c: int, j: int, d: int, k: int|
            0 <= c < groups.len() && 0 <= j < groups[c].len() && 0 <= d < groups.len() && 0 <= k
                < groups[d].len() && #[trigger] groups[c][j] == v && #[trigger] groups[d][k] == v
                ==> c == d && j == k,
{
    assert(has_group(labels, groups, labels[v as int]));
    let c0 = choose|c: int| 0 <= c < groups.len() && #[trigger] group_label(labels, groups, c)
        == labels[v as int];
    assert(groups[c0].contains(v));
    let j0 = choose|j: int| 0 <= j < groups[c0].len() && groups[c0][j] == v;
    assert(groups[c0][j0] == v);
    assert forall|c: int, j: int, d: int, k: int|
        0 <= c < groups.len() && 0 <= j < groups[c].len() && 0 <= d < groups.len() && 0 <= k
            < groups[d].len() && #[trigger] groups[c][j] == v && #[trigger] groups[d][k]
            == v implies c == d && j == k by {
        assert(group_label(labels, groups, c) == labels[v as int]);
        assert(group_label(labels, groups, d) == labels[v as int]);
        if c < d {
            lemma_groups_apart(labels, groups, c, d);
        } else if d < c {
            lemma_groups_apart(labels, groups, d, c);
        } else if j < k {
            assert(groups[c][j] < groups[c][k]);
        } else if k < j {
            assert(groups[c][k] < groups[c][j]);
        }
    }
}

/// Two different components have different labels.
pub proof fn lemma_groups_apart(labels: Seq<usize>, groups: Seq<Seq<usize>>, c: int, d: int)
    requires
        well_grouped(labels, groups),
        0 <= c < d < groups.len(),
    ensures
        group_label(labels, groups, c) != group_label(labels, groups, d),
{
    if group_label(labels, groups, c) == group_label(labels, groups, d) {
        let first = groups[c][0];
        assert(groups[c].len() > 0);
        assert(groups[d].len() > 0);
        assert(first < labels.len());
        assert(groups[d].contains(first));
        let k = choose|k: int| 0 <= k < groups[d].len() && groups[d][k] == first;
        assert(groups[c][0] < groups[d][0]);
        if k > 0 {
            assert(groups[d][0] < groups[d][k]);
        }
    }
}

} // verus!
