use social_graph::components::{component_labels, group_by_label, partition};
use social_graph::distance::{distances_from, distances_from_within, path_totals, PathTotals};
use social_graph::input::{parse_line, LineError};
use social_graph::pipeline::analyze;
use social_graph::rank::{first_k, most_connected, rank_by_degree, top_k};
use social_graph::store::GraphStore;

fn graph_of(edges: &[(u32, u32)]) -> GraphStore {
    let mut g = GraphStore::new();
    for &(a, b) in edges {
        assert!(g.add_edge(a, b));
    }
    g
}

fn node(g: &GraphStore, label: u32) -> usize {
    g.index_of(label).unwrap()
}

#[test]
fn empty_graph_gives_empty_results() {
    let g = GraphStore::new();
    assert_eq!(g.node_count(), 0);
    assert_eq!(g.edge_count(), 0);
    assert_eq!(g.node_indices(), Vec::<usize>::new());
    assert_eq!(g.degrees(), Vec::<usize>::new());
    assert_eq!(top_k(&g, 5), Vec::<usize>::new());
    let p = partition(&g);
    assert!(p.labels.is_empty());
    assert!(p.components.is_empty());
    assert!(p.isolated_components(500).is_empty());
    assert_eq!(distances_from(&g, 0), Vec::<Option<u64>>::new());
    assert_eq!(g.distance_to(0, 0), None);
    assert_eq!(path_totals(&g, 0), PathTotals { total: 0, count: 0 });
    let a = analyze(&g, 5, 500);
    assert!(a.globals.is_empty());
    assert!(a.locals.is_empty());
    assert!(a.records.is_empty());
}

#[test]
fn nodes_are_numbered_in_first_seen_order() {
    let g = graph_of(&[(10, 20), (20, 30), (30, 10), (7, 7)]);
    assert_eq!(g.node_count(), 4);
    assert_eq!(g.edge_count(), 4);
    assert_eq!(g.index_of(10), Some(0));
    assert_eq!(g.index_of(20), Some(1));
    assert_eq!(g.index_of(30), Some(2));
    assert_eq!(g.index_of(7), Some(3));
    assert_eq!(g.index_of(8), None);
    assert_eq!(g.label_of(0), Some(10));
    assert_eq!(g.label_of(3), Some(7));
    assert_eq!(g.label_of(4), None);
    assert_eq!(g.node_indices(), vec![0, 1, 2, 3]);
    assert_eq!(g.edge_at(0), (0, 1));
    assert_eq!(g.edge_at(2), (2, 0));
    assert_eq!(g.edge_at(3), (3, 3));
}

#[test]
fn duplicate_edges_are_kept() {
    let g = graph_of(&[(1, 2), (1, 2), (2, 1)]);
    assert_eq!(g.node_count(), 2);
    assert_eq!(g.edge_count(), 3);
    assert_eq!(g.degree(0), 3);
    assert_eq!(g.degree(1), 3);
    assert_eq!(g.neighbors(0), vec![1, 1, 1]);
    assert_eq!(g.distance_to(0, 1), Some(1));
}

#[test]
fn self_loop_counts_once_in_degree() {
    let g = graph_of(&[(1, 1), (1, 2)]);
    assert_eq!(g.degree(0), 2);
    assert_eq!(g.degree(1), 1);
    assert_eq!(g.neighbors(0), vec![0, 1]);
    assert_eq!(g.neighbors(1), vec![0]);
    assert_eq!(g.degree(9), 0);
    assert_eq!(g.neighbors(9), Vec::<usize>::new());
}

#[test]
fn degrees_add_up_to_twice_the_edges() {
    let g = graph_of(&[(1, 2), (2, 3), (3, 1), (3, 4), (5, 6), (1, 2)]);
    let sum: usize = g.degrees().iter().sum();
    assert_eq!(sum, 2 * g.edge_count());
    assert_eq!(g.degrees(), vec![3, 3, 3, 1, 1, 1]);
}

#[test]
fn ranking_is_by_degree_then_by_node_order() {
    let order = rank_by_degree(&vec![1, 3, 2, 3, 0, 2]);
    assert_eq!(order, vec![1, 3, 2, 5, 0, 4]);
    assert_eq!(first_k(&order, 2), vec![1, 3]);
    assert_eq!(first_k(&order, 0), Vec::<usize>::new());
    assert_eq!(first_k(&order, 10), order);
    assert_eq!(rank_by_degree(&vec![]), Vec::<usize>::new());
}

#[test]
fn top_k_returns_fewer_when_graph_is_small() {
    let g = graph_of(&[(1, 2), (2, 3)]);
    assert_eq!(top_k(&g, 1), vec![1]);
    assert_eq!(top_k(&g, 2), vec![1, 0]);
    assert_eq!(top_k(&g, 5), vec![1, 0, 2]);
    assert_eq!(top_k(&g, 0), Vec::<usize>::new());
}

#[test]
fn most_connected_prefers_lowest_index_among_equals() {
    let degrees = vec![2, 5, 5, 1];
    assert_eq!(most_connected(&degrees, &vec![3, 2, 1, 0]), Some(1));
    assert_eq!(most_connected(&degrees, &vec![0, 3]), Some(0));
    assert_eq!(most_connected(&degrees, &vec![2]), Some(2));
    assert_eq!(most_connected(&degrees, &vec![]), None);
}

#[test]
fn components_of_two_clusters() {
    let g = graph_of(&[(1, 2), (2, 3), (4, 5)]);
    let p = partition(&g);
    assert_eq!(p.components, vec![vec![0, 1, 2], vec![3, 4]]);
    assert_eq!(p.labels[0], p.labels[1]);
    assert_eq!(p.labels[1], p.labels[2]);
    assert_eq!(p.labels[3], p.labels[4]);
    assert_ne!(p.labels[0], p.labels[3]);
    assert_eq!(p.label_of(5), None);
    assert_eq!(p.label_of(4), Some(p.labels[4]));
    assert_eq!(g.degree(node(&g, 2)), 2);
    assert_eq!(top_k(&g, 1), vec![node(&g, 2)]);
    assert_eq!(g.distance_to(node(&g, 1), node(&g, 3)), Some(2));
    let t = path_totals(&g, node(&g, 1));
    assert_eq!(t, PathTotals { total: 3, count: 2 });
    assert_eq!(t.total as f64 / t.count as f64, 1.5);
}

#[test]
fn labels_agree_exactly_on_connected_nodes() {
    let g = graph_of(&[(1, 2), (3, 4), (5, 6), (2, 3), (7, 7), (6, 8)]);
    let labels = component_labels(&g);
    let n = g.node_count();
    assert_eq!(labels.len(), n);
    for u in 0..n {
        for v in 0..n {
            assert_eq!(labels[u] == labels[v], g.distance_to(u, v).is_some());
        }
    }
}

#[test]
fn every_node_is_in_exactly_one_component() {
    let g = graph_of(&[(1, 2), (3, 4), (5, 6), (2, 3), (7, 7), (6, 8)]);
    let p = partition(&g);
    assert_eq!(p.components, vec![vec![0, 1, 2, 3], vec![4, 5, 7], vec![6]]);
    let mut all: Vec<usize> = p.components.iter().flatten().copied().collect();
    all.sort();
    assert_eq!(all, g.node_indices());
}

#[test]
fn grouping_by_label_is_ascending_and_ordered_by_first_member() {
    assert_eq!(
        group_by_label(&vec![3, 0, 3, 2, 0, 2]),
        vec![vec![0, 2], vec![1, 4], vec![3, 5]]
    );
    assert_eq!(group_by_label(&vec![]), Vec::<Vec<usize>>::new());
    assert_eq!(group_by_label(&vec![0]), vec![vec![0]]);
}

#[test]
fn node_with_only_a_self_loop_is_a_singleton_component() {
    let g = graph_of(&[(1, 2), (3, 3)]);
    let p = partition(&g);
    assert_eq!(p.components, vec![vec![0, 1], vec![2]]);
    assert_eq!(path_totals(&g, 2), PathTotals { total: 0, count: 0 });
    assert_eq!(g.distance_to(2, 2), Some(0));
    assert_eq!(g.distance_to(2, 0), None);
}

#[test]
fn isolated_components_are_strictly_below_the_threshold() {
    let g = graph_of(&[(1, 2), (2, 3), (4, 5)]);
    let p = partition(&g);
    assert_eq!(p.isolated_components(3), vec![vec![3, 4]]);
    assert_eq!(p.isolated_components(2), Vec::<Vec<usize>>::new());
    assert_eq!(p.isolated_components(4), vec![vec![0, 1, 2], vec![3, 4]]);
    assert_eq!(p.isolated_components(0), Vec::<Vec<usize>>::new());
}

#[test]
fn distance_to_self_is_zero_and_distances_are_symmetric() {
    let g = graph_of(&[(1, 2), (2, 3), (3, 4), (4, 1), (4, 5), (6, 7)]);
    let n = g.node_count();
    for u in 0..n {
        assert_eq!(g.distance_to(u, u), Some(0));
        let from_u = distances_from(&g, u);
        assert_eq!(from_u[u], Some(0));
        for v in 0..n {
            assert_eq!(from_u[v], g.distance_to(u, v));
            assert_eq!(g.distance_to(u, v), g.distance_to(v, u));
        }
    }
    assert_eq!(
        distances_from(&g, 0),
        vec![Some(0), Some(1), Some(2), Some(1), Some(2), None, None]
    );
    assert_eq!(distances_from(&g, 9), vec![None; 7]);
}

#[test]
fn distances_obey_the_triangle_inequality() {
    let g = graph_of(&[(1, 2), (2, 3), (3, 4), (4, 5), (5, 1), (3, 6)]);
    let n = g.node_count();
    for a in 0..n {
        for b in 0..n {
            for c in 0..n {
                let ab = g.distance_to(a, b).unwrap();
                let bc = g.distance_to(b, c).unwrap();
                let ac = g.distance_to(a, c).unwrap();
                assert!(ac <= ab + bc);
            }
        }
    }
}

#[test]
fn path_totals_skip_unreachable_nodes() {
    let g = graph_of(&[(1, 2), (2, 3), (3, 4), (5, 6)]);
    assert_eq!(path_totals(&g, 0), PathTotals { total: 6, count: 3 });
    assert_eq!(path_totals(&g, 1), PathTotals { total: 4, count: 3 });
    assert_eq!(path_totals(&g, 4), PathTotals { total: 1, count: 1 });
    assert_eq!(path_totals(&g, 17), PathTotals { total: 0, count: 0 });
}

#[test]
fn single_node_graph_has_no_paths() {
    let g = graph_of(&[(1, 1)]);
    assert_eq!(g.node_count(), 1);
    assert_eq!(path_totals(&g, 0), PathTotals { total: 0, count: 0 });
}

#[test]
fn malformed_line_adds_no_node() {
    let mut g = GraphStore::new();
    assert_eq!(g.add_line("1 2".as_bytes()), Ok(true));
    assert_eq!(g.add_line("3".as_bytes()), Err(LineError::MalformedLine));
    assert_eq!(g.add_line("3 x".as_bytes()), Err(LineError::NonNumericToken));
    assert_eq!(g.node_count(), 2);
    assert_eq!(g.edge_count(), 1);
    assert_eq!(g.index_of(3), None);
    assert_eq!(path_totals(&g, 2), PathTotals { total: 0, count: 0 });
    assert_eq!(g.add_line("3 3".as_bytes()), Ok(true));
    assert_eq!(g.index_of(3), Some(2));
    assert_eq!(path_totals(&g, 2), PathTotals { total: 0, count: 0 });
}

#[test]
fn lines_parse_as_two_numbers() {
    assert_eq!(parse_line("1 2".as_bytes()), Ok((1, 2)));
    assert_eq!(parse_line("  12\t 340 \r\n".as_bytes()), Ok((12, 340)));
    assert_eq!(parse_line("+7 007".as_bytes()), Ok((7, 7)));
    assert_eq!(parse_line("4294967295 0".as_bytes()), Ok((4294967295, 0)));
    assert_eq!(parse_line("4294967296 0".as_bytes()), Err(LineError::NonNumericToken));
    assert_eq!(parse_line("99999999999999999999999 1".as_bytes()), Err(LineError::NonNumericToken));
    assert_eq!(parse_line("-1 2".as_bytes()), Err(LineError::NonNumericToken));
    assert_eq!(parse_line("+ 2".as_bytes()), Err(LineError::NonNumericToken));
    assert_eq!(parse_line("1 2x".as_bytes()), Err(LineError::NonNumericToken));
    assert_eq!(parse_line("a b".as_bytes()), Err(LineError::NonNumericToken));
    assert_eq!(parse_line("".as_bytes()), Err(LineError::MalformedLine));
    assert_eq!(parse_line("   ".as_bytes()), Err(LineError::MalformedLine));
    assert_eq!(parse_line("1".as_bytes()), Err(LineError::MalformedLine));
    assert_eq!(parse_line("1 2 3".as_bytes()), Err(LineError::MalformedLine));
    assert_eq!(parse_line("a b c".as_bytes()), Err(LineError::MalformedLine));
}

#[test]
fn analysis_reports_every_pair() {
    // a hub with four spokes, a pair, and a triangle
    let g = graph_of(&[(1, 2), (1, 3), (1, 4), (1, 5), (6, 7), (8, 9), (9, 10), (10, 8), (5, 8)]);
    let a = analyze(&g, 2, 3);
    assert_eq!(a.degrees, vec![4, 1, 1, 1, 2, 1, 1, 3, 2, 2]);
    assert_eq!(a.globals, vec![0, 7]);
    assert_eq!(a.partition.components, vec![vec![0, 1, 2, 3, 4, 7, 8, 9], vec![5, 6]]);
    assert_eq!(a.isolated, vec![vec![5, 6]]);
    assert_eq!(a.locals, vec![5]);
    assert_eq!(a.records.len(), 2);
    let r = a.records[0];
    assert_eq!((r.from_node, r.to_node, r.distance), (0, 5, None));
    assert_eq!(r.paths_from_global, PathTotals { total: 12, count: 7 });
    assert_eq!(r.paths_within_isolate, PathTotals { total: 1, count: 1 });
    let r = a.records[1];
    assert_eq!((r.from_node, r.to_node, r.distance), (7, 5, None));
    assert_eq!(r.paths_from_global, PathTotals { total: 14, count: 7 });
}

#[test]
fn analysis_orders_records_by_local_then_global() {
    let g = graph_of(&[(1, 2), (2, 3), (4, 5)]);
    let a = analyze(&g, 2, 4);
    assert_eq!(a.globals, vec![1, 0]);
    assert_eq!(a.isolated, vec![vec![0, 1, 2], vec![3, 4]]);
    assert_eq!(a.locals, vec![1, 3]);
    let pairs: Vec<(usize, usize, Option<u64>)> =
        a.records.iter().map(|r| (r.from_node, r.to_node, r.distance)).collect();
    assert_eq!(
        pairs,
        vec![(1, 1, Some(0)), (0, 1, Some(1)), (1, 3, None), (0, 3, None)]
    );
    assert_eq!(a.records[1].paths_from_global, PathTotals { total: 3, count: 2 });
    assert_eq!(a.records[1].paths_within_isolate, PathTotals { total: 2, count: 2 });
    assert_eq!(a.records[2].paths_within_isolate, PathTotals { total: 1, count: 1 });
}

#[test]
fn limited_search_gives_up_before_it_begins() {
    let g = graph_of(&[(1, 2), (2, 3), (4, 5)]);
    assert_eq!(distances_from_within(&g, 0, Some(4)), None);
    assert_eq!(distances_from_within(&g, 0, Some(0)), None);
    assert_eq!(distances_from_within(&g, 0, Some(5)), Some(distances_from(&g, 0)));
    assert_eq!(
        distances_from_within(&g, 0, None),
        Some(vec![Some(0), Some(1), Some(2), None, None])
    );
}

#[test]
fn self_loops_are_counted_once_in_the_degree_sum() {
    let g = graph_of(&[(1, 1), (1, 2), (2, 2), (3, 4)]);
    let sum: usize = g.degrees().iter().sum();
    assert_eq!(sum, 2 * g.edge_count() - 2);
    assert_eq!(g.degrees(), vec![2, 2, 1, 1]);
}
