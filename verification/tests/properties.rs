use rate_graph::Edge;
use rate_graph::Graph;
use rate_graph::Path;
use rate_graph::Rate;
use rate_graph::Vertex;

#[test]
fn inverse_rate_of_single_edge() {
    // with only A -> B = 1.4 inserted, the rate from B back to A is 1/1.4
    let mut graph = Graph::new();
    graph.add_rate(['A', 'B'].into(), Rate::new(14, 10));

    let src = 'B'.into();
    let dst = 'A'.into();
    let rate = graph.find_best_rate(&src, &dst);
    assert!(rate.is_some());
    assert!(rate.unwrap().eq_rate(&Rate::new(10, 14)));
}

#[test]
fn disconnected_pair_has_no_rate() {
    let mut graph = Graph::new();
    graph.add_rate(['A', 'B'].into(), Rate::new(14, 10));
    graph.add_rate(['C', 'D'].into(), Rate::new(2, 10));

    let src = 'A'.into();
    let dst = 'C'.into();
    assert_eq!(graph.find_best_rate(&src, &dst), None);
    assert!(graph.find_best_path(&src, &dst).is_none());
}

#[test]
fn self_pair_has_no_rate() {
    let mut graph = Graph::new();
    graph.add_rate(['A', 'B'].into(), Rate::new(14, 10));

    let v = 'A'.into();
    assert_eq!(graph.find_best_rate(&v, &v), None);
    let lone = 'Z'.into();
    assert_eq!(graph.find_best_rate(&lone, &lone), None);
}

#[test]
fn reinsertion_overwrites_both_directions() {
    let mut graph = Graph::new();
    graph.add_rate(['A', 'B'].into(), Rate::new(14, 10));
    graph.add_rate(['A', 'B'].into(), Rate::new(2, 1));

    let a = 'A'.into();
    let b = 'B'.into();
    let forward = graph.find_best_rate(&a, &b).unwrap();
    assert!(forward.eq_rate(&Rate::new(2, 1)));
    let backward = graph.find_best_rate(&b, &a).unwrap();
    assert!(backward.eq_rate(&Rate::new(1, 2)));
}

#[test]
fn unknown_vertex_has_no_rate() {
    let mut graph = Graph::new();
    graph.add_rate(['A', 'B'].into(), Rate::new(14, 10));

    let src = 'A'.into();
    let dst = 'Q'.into();
    assert_eq!(graph.find_best_rate(&src, &dst), None);
}

#[test]
fn vertices_are_enumerated_in_order() {
    let mut graph = Graph::new();
    graph.add_rate(['D', 'F'].into(), Rate::new(25, 10));
    graph.add_rate(['B', 'A'].into(), Rate::new(14, 10));
    graph.add_rate(['C', 'A'].into(), Rate::new(1, 10));

    let expected: Vec<Vertex> = vec![
        'A'.into(),
        'B'.into(),
        'C'.into(),
        'D'.into(),
        'F'.into(),
    ];
    assert_eq!(graph.vertices(), expected);
}

#[test]
fn neighbors_hold_both_directions() {
    let mut graph = Graph::new();
    graph.add_rate(['A', 'B'].into(), Rate::new(14, 10));
    graph.add_rate(['A', 'C'].into(), Rate::new(1, 10));

    let a = 'A'.into();
    let row = graph.neighbors(&a);
    assert_eq!(row.len(), 2);
    assert!(row.contains(&('B'.into(), Rate::new(14, 10))));
    assert!(row.contains(&('C'.into(), Rate::new(1, 10))));

    let b = 'B'.into();
    let row = graph.neighbors(&b);
    assert_eq!(row, vec![('A'.into(), Rate::new(10, 14))]);

    let lone = 'Z'.into();
    assert!(graph.neighbors(&lone).is_empty());
}

#[test]
fn edge_endpoints_are_sorted() {
    let ab: Edge = ['A', 'B'].into();
    let ba: Edge = ['B', 'A'].into();
    assert_eq!(ab, ba);
    assert_eq!(ab.0, Vertex('A'));
    assert_eq!(ab.1, Vertex('B'));
}

#[test]
fn rate_comparisons_are_representation_independent() {
    assert!(Rate::new(14, 10).eq_rate(&Rate::new(7, 5)));
    assert!(!Rate::new(14, 10).eq_rate(&Rate::new(7, 4)));
    assert!(Rate::new(1, 10).lt(&Rate::new(2, 10)));
    assert!(!Rate::new(2, 10).lt(&Rate::new(1, 10)));
    assert!(Rate::new(3, 10).le(&Rate::new(30, 100)));
    assert_eq!(Rate::new(14, 10).inv(), Rate::new(10, 14));
}

#[test]
fn path_append_rejects_revisits() {
    let mut path = Path::new(Vertex('A'));
    assert!(path.append(Vertex('B'), Rate::new(14, 10)));
    assert!(!path.append(Vertex('A'), Rate::new(2, 1)));
    assert!(!path.append(Vertex('B'), Rate::new(2, 1)));
    assert!(path.append(Vertex('C'), Rate::new(2, 10)));
    assert_eq!(path.length(), 3);
    assert_eq!(path.terminal(), Vertex('C'));
    assert!(path.contains(&Vertex('B')));
    assert!(!path.contains(&Vertex('D')));
    assert!(path.rate().eq_rate(&Rate::new(28, 100)));
}

#[test]
fn path_append_rejects_overflowing_fractions() {
    let mut path = Path::new(Vertex('A'));
    assert!(path.append(Vertex('B'), Rate::new(u64::MAX, 1)));
    assert!(!path.append(Vertex('C'), Rate::new(2, 1)));
    assert_eq!(path.length(), 2);
    assert!(path.rate().eq_rate(&Rate::new(u64::MAX, 1)));
}

#[test]
fn longer_chain_compounds_exactly() {
    // a five-vertex chain: the only route compounds all four edges
    let mut graph = Graph::new();
    graph.add_rate(['A', 'B'].into(), Rate::new(3, 2));
    graph.add_rate(['B', 'C'].into(), Rate::new(5, 4));
    graph.add_rate(['C', 'D'].into(), Rate::new(7, 3));
    graph.add_rate(['D', 'E'].into(), Rate::new(11, 6));

    let src = 'A'.into();
    let dst = 'E'.into();
    let rate = graph.find_best_rate(&src, &dst).unwrap();
    assert!(rate.eq_rate(&Rate::new(3 * 5 * 7 * 11, 2 * 4 * 3 * 6)));
}
