use rate_graph::Graph;
use rate_graph::Rate;

#[test]
fn test_test_direct() {
    let mut graph = Graph::new();
    graph.add_rate(['A', 'B'].into(), Rate::new(14, 10));
    graph.add_rate(['A', 'C'].into(), Rate::new(29, 100));
    graph.add_rate(['B', 'C'].into(), Rate::new(2, 10));

    let src = 'A'.into();
    let dst = 'C'.into();
    let path = graph.find_best_path(&src, &dst).unwrap();
    assert!(path.rate().eq_rate(&Rate::new(29, 100)));
    assert_eq!(path.vertices(), vec!['A'.into(), 'C'.into()]);
}

#[test]
fn test_test_one_hop() {
    let mut graph = Graph::new();
    graph.add_rate(['A', 'B'].into(), Rate::new(14, 10));
    graph.add_rate(['A', 'C'].into(), Rate::new(1, 10));
    graph.add_rate(['B', 'C'].into(), Rate::new(2, 10));

    let src = 'A'.into();
    let dst = 'C'.into();
    let path = graph.find_best_path(&src, &dst).unwrap();
    assert!(path.rate().eq_rate(&Rate::new(28, 100)));
    assert_eq!(path.vertices(), vec!['A'.into(), 'B'.into(), 'C'.into()]);
}

#[test]
fn test_test_two_hops() {
    let mut graph = Graph::new();
    graph.add_rate(['A', 'B'].into(), Rate::new(14, 10));
    graph.add_rate(['A', 'C'].into(), Rate::new(1, 10));
    graph.add_rate(['A', 'D'].into(), Rate::new(55, 1000));
    graph.add_rate(['B', 'C'].into(), Rate::new(2, 10));
    graph.add_rate(['C', 'D'].into(), Rate::new(2, 10));
    graph.add_rate(['D', 'F'].into(), Rate::new(25, 10));

    let src = 'A'.into();
    let dst = 'D'.into();
    let path = graph.find_best_path(&src, &dst).unwrap();
    assert!(path.rate().eq_rate(&Rate::new(56, 1000)));
    assert_eq!(
        path.vertices(),
        vec!['A'.into(), 'B'.into(), 'C'.into(), 'D'.into()]
    );
}

#[test]
fn test_test_loop() {
    let mut graph = Graph::new();
    graph.add_rate(['A', 'B'].into(), Rate::new(14, 10));
    graph.add_rate(['A', 'C'].into(), Rate::new(1, 10));
    graph.add_rate(['B', 'C'].into(), Rate::new(2, 10));
    graph.add_rate(['C', 'D'].into(), Rate::new(2, 10));
    graph.add_rate(['D', 'F'].into(), Rate::new(25, 10));

    let src = 'D'.into();
    let dst = 'F'.into();
    let path = graph.find_best_path(&src, &dst).unwrap();
    assert!(path.rate().eq_rate(&Rate::new(25, 10)));
    assert_eq!(path.vertices(), vec!['D'.into(), 'F'.into()]);
}
