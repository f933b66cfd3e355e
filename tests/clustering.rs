use proximity::cluster::{
    bottleneck_edge, first_challenge, merge_connections, product_of_largest_three,
    second_challenge,
};
use proximity::error::ClusterError;
use proximity::graph::{distance_graph, squared_distance, Edge, Point};
use proximity::merger::ConnectivityMerger;

fn pt(x: i64, y: i64, z: i64) -> Point {
    Point { x, y, z }
}

fn path_points() -> Vec<Point> {
    vec![pt(0, 0, 0), pt(1, 0, 0), pt(2, 0, 0), pt(10, 10, 10)]
}

fn sample_points() -> Vec<Point> {
    let raw: [(i64, i64, i64); 20] = [
        (162, 817, 812),
        (57, 618, 57),
        (906, 360, 560),
        (592, 479, 940),
        (352, 342, 300),
        (466, 668, 158),
        (542, 29, 236),
        (431, 825, 988),
        (739, 650, 466),
        (52, 470, 668),
        (216, 146, 977),
        (819, 987, 18),
        (117, 168, 530),
        (805, 96, 715),
        (346, 949, 466),
        (970, 615, 88),
        (941, 993, 340),
        (862, 61, 35),
        (984, 92, 344),
        (425, 690, 689),
    ];
    raw.iter().map(|&(x, y, z)| pt(x, y, z)).collect()
}

fn sorted_components(m: &ConnectivityMerger) -> Vec<Vec<usize>> {
    let mut cs = m.components();
    cs.sort();
    cs
}

#[test]
fn squared_distance_is_exact() {
    assert_eq!(squared_distance(&pt(1, 2, 3), &pt(4, 6, 3)), 25);
    assert_eq!(squared_distance(&pt(-5, 0, 0), &pt(5, 0, 0)), 100);
    assert_eq!(squared_distance(&pt(7, 7, 7), &pt(7, 7, 7)), 0);
}

#[test]
fn graph_lists_all_edges_in_order() {
    let es = distance_graph(&path_points()).unwrap();
    assert_eq!(es.len(), 6);
    let keys: Vec<(u128, usize, usize)> = es.iter().map(|e| (e.dist2, e.a, e.b)).collect();
    assert_eq!(
        keys,
        vec![(1, 0, 1), (1, 1, 2), (4, 0, 2), (264, 2, 3), (281, 1, 3), (300, 0, 3)]
    );
}

#[test]
fn graph_needs_two_points() {
    assert_eq!(distance_graph(&vec![pt(1, 1, 1)]), Err(ClusterError::InvalidInput));
    assert_eq!(distance_graph(&vec![]), Err(ClusterError::InvalidInput));
}

#[test]
fn graph_keeps_enumeration_order_on_ties() {
    let ps = vec![pt(0, 0, 0), pt(0, 0, 1), pt(0, 1, 0), pt(1, 0, 0)];
    let es = distance_graph(&ps).unwrap();
    let pairs: Vec<(usize, usize)> = es.iter().map(|e| (e.a, e.b)).collect();
    assert_eq!(pairs, vec![(0, 1), (0, 2), (0, 3), (1, 2), (1, 3), (2, 3)]);
}

#[test]
fn partition_covers_every_index_once() {
    let mut m = ConnectivityMerger::new(7);
    m.merge(0, 3);
    m.merge(5, 3);
    m.merge(1, 6);
    let cs = m.components();
    let mut seen = vec![0usize; 7];
    for c in cs.iter() {
        assert!(!c.is_empty());
        for &j in c.iter() {
            seen[j] += 1;
        }
    }
    assert_eq!(seen, vec![1; 7]);
    assert_eq!(sorted_components(&m), vec![vec![0, 3, 5], vec![1, 6], vec![2], vec![4]]);
    assert_eq!(m.count(), 4);
}

#[test]
fn merging_an_edge_twice_changes_nothing() {
    let mut m = ConnectivityMerger::new(4);
    assert!(m.merge(1, 2));
    let before = sorted_components(&m);
    assert!(!m.merge(1, 2));
    assert!(!m.merge(2, 1));
    assert_eq!(sorted_components(&m), before);
    assert_eq!(m.count(), 3);
}

#[test]
fn final_partition_ignores_edge_order() {
    let edges = [(0usize, 1usize), (2, 3), (1, 2), (5, 6), (6, 5)];
    let mut m1 = ConnectivityMerger::new(8);
    for &(a, b) in edges.iter() {
        m1.merge(a, b);
    }
    let mut m2 = ConnectivityMerger::new(8);
    for &(a, b) in edges.iter().rev() {
        m2.merge(a, b);
    }
    assert_eq!(sorted_components(&m1), sorted_components(&m2));
    assert_eq!(m1.count(), m2.count());
}

#[test]
fn component_count_drops_exactly_on_merges() {
    let mut m = ConnectivityMerger::new(5);
    assert_eq!(m.count(), 5);
    let steps = [(0usize, 1usize, true), (1, 0, false), (2, 3, true), (0, 3, true), (1, 2, false), (4, 4, false), (4, 2, true)];
    let mut expected = 5;
    for &(a, b, merged) in steps.iter() {
        assert_eq!(m.merge(a, b), merged);
        if merged {
            expected -= 1;
        }
        assert_eq!(m.count(), expected);
    }
    assert_eq!(m.count(), 1);
}

#[test]
fn find_names_the_component() {
    let mut m = ConnectivityMerger::new(4);
    m.merge(0, 2);
    assert_eq!(m.find(0), m.find(2));
    assert_ne!(m.find(0), m.find(1));
    assert_ne!(m.find(1), m.find(3));
    assert_eq!(m.len(), 4);
}

#[test]
fn two_shortest_edges_on_a_path() {
    let ps = path_points();
    let es = distance_graph(&ps).unwrap();
    let m = merge_connections(4, &es, 2);
    assert_eq!(sorted_components(&m), vec![vec![0, 1, 2], vec![3]]);
    let sizes: Vec<usize> = m.components().iter().map(|c| c.len()).collect();
    assert_eq!(sizes.iter().product::<usize>(), 3);
    assert_eq!(first_challenge(&ps, 2), Err(ClusterError::InsufficientComponents));
}

#[test]
fn full_connectivity_on_a_path() {
    let ps = path_points();
    let e = bottleneck_edge(&ps).unwrap();
    assert_eq!(e, Edge { a: 2, b: 3, dist2: 264 });
    let es = distance_graph(&ps).unwrap();
    assert_eq!(merge_connections(4, &es, 3).count(), 2);
    assert_eq!(merge_connections(4, &es, 4).count(), 1);
    assert_eq!(second_challenge(&ps), Ok(20));
}

#[test]
fn single_point_is_rejected() {
    let ps = vec![pt(3, 4, 5)];
    assert_eq!(bottleneck_edge(&ps), Err(ClusterError::InsufficientPoints));
    assert_eq!(second_challenge(&ps), Err(ClusterError::InsufficientPoints));
    assert_eq!(second_challenge(&vec![]), Err(ClusterError::InsufficientPoints));
}

#[test]
fn zero_or_too_many_connections_are_rejected() {
    let ps = path_points();
    assert_eq!(first_challenge(&ps, 0), Err(ClusterError::InvalidInput));
    assert_eq!(first_challenge(&ps, 7), Err(ClusterError::InvalidInput));
    assert_eq!(first_challenge(&vec![pt(0, 0, 0)], 1), Err(ClusterError::InvalidInput));
}

#[test]
fn three_largest_clusters_on_a_line() {
    let ps = vec![
        pt(0, 0, 0),
        pt(1, 0, 0),
        pt(100, 0, 0),
        pt(101, 0, 0),
        pt(1000, 0, 0),
        pt(5000, 0, 0),
        pt(10000, 0, 0),
    ];
    assert_eq!(first_challenge(&ps, 2), Ok(4));
    assert_eq!(first_challenge(&ps, 1), Ok(2));
    assert_eq!(first_challenge(&ps, 3), Ok(4));
}

#[test]
fn product_of_largest_three_values() {
    assert_eq!(product_of_largest_three(&vec![0, 3, 5, 2, 4]), Some(60));
    assert_eq!(product_of_largest_three(&vec![2, 0, 2, 2, 1]), Some(8));
    assert_eq!(product_of_largest_three(&vec![1, 0, 1]), None);
    assert_eq!(product_of_largest_three(&vec![]), None);
}

#[test]
fn sample_clusters_after_ten_connections() {
    assert_eq!(first_challenge(&sample_points(), 10), Ok(40));
}

#[test]
fn sample_bottleneck_product() {
    assert_eq!(second_challenge(&sample_points()), Ok(25272));
}
