use rate_graph::Graph;
use rate_graph::Rate;

#[test]
fn test_direct() {
    let mut graph = Graph::new();
    graph.add_rate(['A', 'B'].into(), Rate::new(14, 10));
    graph.add_rate(['A', 'C'].into(), Rate::new(29, 100));
    graph.add_rate(['B', 'C'].into(), Rate::new(2, 10));

    let src = 'A'.into();
    let dst = 'C'.into();
    let rate = graph.find_best_rate(&src, &dst);
    assert!(rate.is_some());
    // max(0.29, 1.4 * 0.2 = 0.28) = 0.29: the direct edge wins
    assert!(rate.unwrap().eq_rate(&Rate::new(29, 100)));
}

#[test]
fn test_one_hop() {
    let mut graph = Graph::new();
    graph.add_rate(['A', 'B'].into(), Rate::new(14, 10));
    graph.add_rate(['A', 'C'].into(), Rate::new(1, 10));
    graph.add_rate(['B', 'C'].into(), Rate::new(2, 10));

    let src = 'A'.into();
    let dst = 'C'.into();
    let rate = graph.find_best_rate(&src, &dst);
    assert!(rate.is_some());
    // max(0.1, 1.4 * 0.2) = 0.28: one hop through B wins
    assert!(rate.unwrap().eq_rate(&Rate::new(28, 100)));
}

#[test]
fn test_two_hops() {
    let mut graph = Graph::new();
    graph.add_rate(['A', 'B'].into(), Rate::new(14, 10));
    graph.add_rate(['A', 'C'].into(), Rate::new(1, 10));
    graph.add_rate(['A', 'D'].into(), Rate::new(55, 1000));
    graph.add_rate(['B', 'C'].into(), Rate::new(2, 10));
    graph.add_rate(['C', 'D'].into(), Rate::new(2, 10));
    graph.add_rate(['D', 'F'].into(), Rate::new(25, 10));

    let src = 'A'.into();
    let dst = 'D'.into();
    let rate = graph.find_best_rate(&src, &dst);
    assert!(rate.is_some());
    // max(0.055, 0.1 * 0.2, 1.4 * 0.2 * 0.2) = 0.056: two hops through B and C
    assert!(rate.unwrap().eq_rate(&Rate::new(56, 1000)));
}

#[test]
fn test_loop() {
    let mut graph = Graph::new();
    graph.add_rate(['A', 'B'].into(), Rate::new(14, 10));
    graph.add_rate(['A', 'C'].into(), Rate::new(1, 10));
    graph.add_rate(['B', 'C'].into(), Rate::new(2, 10));
    graph.add_rate(['C', 'D'].into(), Rate::new(2, 10));
    graph.add_rate(['D', 'F'].into(), Rate::new(25, 10));

    let src = 'D'.into();
    let dst = 'F'.into();
    let rate = graph.find_best_rate(&src, &dst);
    assert!(rate.is_some());
    // the A-B-C triangle is a cycle; the search still terminates
    assert!(rate.unwrap().eq_rate(&Rate::new(25, 10)));
}
