use raphtory::graph::{Graph, NodeId};
use raphtory::props::Prop;
use raphtory::view::Layer;

fn nid(n: u64) -> NodeId {
    NodeId::U64(n)
}

fn name(s: &str) -> NodeId {
    NodeId::Name(s.to_string())
}

fn no_props() -> Vec<(String, Prop)> {
    Vec::new()
}

#[test]
fn has_edge() {
    let mut g = Graph::new();
    g.add_edge(1, nid(7), nid(8), no_props(), None).unwrap();

    assert!(!g.has_edge(&nid(8), &nid(7), &Layer::All));
    assert!(g.has_edge(&nid(7), &nid(8), &Layer::All));

    g.add_edge(1, nid(7), nid(9), no_props(), None).unwrap();

    assert!(!g.has_edge(&nid(9), &nid(7), &Layer::All));
    assert!(g.has_edge(&nid(7), &nid(9), &Layer::All));

    g.add_edge(2, name("haaroon"), name("northLondon"), no_props(), None)
        .unwrap();
    assert!(g.has_edge(&name("haaroon"), &name("northLondon"), &Layer::All));
}

#[test]
fn graph_edge() {
    let mut g = Graph::new();
    let es = vec![(1, 1, 2), (2, 1, 3), (-1, 2, 1), (0, 1, 1), (7, 3, 2), (1, 1, 1)];
    for (t, src, dst) in es {
        g.add_edge(t, nid(src), nid(dst), no_props(), None).unwrap();
    }

    let view = g.window(i64::MIN, i64::MAX);
    let view = view.layer(&Layer::Default).unwrap();
    let e = view.edge(&nid(1), &nid(3)).unwrap();
    assert_eq!(e.src().id(), 1u64);
    assert_eq!(e.dst().id(), 3u64);
}

#[test]
fn graph_degree_window() {
    let vs = vec![(1, 1, 2), (2, 1, 3), (-1, 2, 1), (0, 1, 1), (7, 3, 2), (1, 1, 1)];

    let mut g = Graph::new();
    for (t, src, dst) in &vs {
        g.add_edge(*t, nid(*src), nid(*dst), no_props(), None).unwrap();
    }

    let expected = vec![(2, 3, 1), (1, 0, 0), (1, 0, 0)];
    let actual: Vec<(usize, usize, usize)> = (1..=3)
        .map(|i| {
            let v = g.vertex(&nid(i)).unwrap();
            (
                v.window(-1, 7).in_degree(),
                v.window(1, 7).out_degree(),
                v.window(0, 1).degree(),
            )
        })
        .collect();

    assert_eq!(actual, expected);
}

#[test]
fn graph_edges_window() {
    let vs = vec![(1, 1, 2), (2, 1, 3), (-1, 2, 1), (0, 1, 1), (7, 3, 2), (1, 1, 1)];

    let mut g = Graph::new();
    for (t, src, dst) in &vs {
        g.add_edge(*t, nid(*src), nid(*dst), no_props(), None).unwrap();
    }

    let expected = vec![(2, 3, 2), (1, 0, 0), (1, 0, 0)];
    let actual: Vec<(usize, usize, usize)> = (1..=3)
        .map(|i| {
            let v = g.vertex(&nid(i)).unwrap();
            (
                v.window(-1, 7).in_edges().len(),
                v.window(1, 7).out_edges().len(),
                v.window(0, 1).edges().len(),
            )
        })
        .collect();

    assert_eq!(actual, expected);
}

#[test]
fn graph_neighbours_window() {
    let vs = vec![(1, 1, 2), (2, 1, 3), (-1, 2, 1), (0, 1, 1), (7, 3, 2), (1, 1, 1)];

    let mut g = Graph::new();
    for (t, src, dst) in &vs {
        g.add_edge(*t, nid(*src), nid(*dst), no_props(), None).unwrap();
    }

    let expected = vec![
        (vec![1u64, 2], vec![1u64, 2, 3], vec![1u64]),
        (vec![1], vec![], vec![]),
        (vec![1], vec![], vec![]),
    ];
    let actual: Vec<(Vec<u64>, Vec<u64>, Vec<u64>)> = (1..=3)
        .map(|i| {
            let v = g.vertex(&nid(i)).unwrap();
            (
                v.window(-1, 7).in_neighbours().ids(),
                v.window(1, 7).out_neighbours().ids(),
                v.window(0, 1).neighbours().ids(),
            )
        })
        .collect();

    assert_eq!(actual, expected);
}

#[test]
fn time_test() {
    let mut g = Graph::new();

    assert_eq!(g.latest_time(), None);
    assert_eq!(g.earliest_time(), None);

    g.add_vertex(5, nid(1), no_props()).unwrap();

    assert_eq!(g.latest_time(), Some(5));
    assert_eq!(g.earliest_time(), Some(5));

    let mut g = Graph::new();

    g.add_edge(10, nid(1), nid(2), no_props(), None).unwrap();
    assert_eq!(g.latest_time(), Some(10));
    assert_eq!(g.earliest_time(), Some(10));

    g.add_vertex(5, nid(1), no_props()).unwrap();
    assert_eq!(g.latest_time(), Some(10));
    assert_eq!(g.earliest_time(), Some(5));

    g.add_edge(20, nid(3), nid(4), no_props(), None).unwrap();
    assert_eq!(g.latest_time(), Some(20));
    assert_eq!(g.earliest_time(), Some(5));
}

#[test]
fn test_time_range_on_empty_graph() {
    let g = Graph::new();

    let mut rolling = g.rolling(raphtory::time::Interval::discrete(1), None);
    assert!(rolling.next().is_none());

    let mut expanding = g.expanding(raphtory::time::Interval::discrete(1));
    assert!(expanding.next().is_none());
}

#[test]
fn test_add_vertex_with_strings() {
    let mut g = Graph::new();

    g.add_vertex(0, name("haaroon"), no_props()).unwrap();
    g.add_vertex(1, name("hamza"), no_props()).unwrap();
    g.add_vertex(1, nid(831), no_props()).unwrap();

    assert!(g.has_vertex(&nid(831)));
    assert!(g.has_vertex(&name("haaroon")));
    assert!(g.has_vertex(&name("hamza")));

    assert_eq!(g.num_vertices(), 3);
}

#[test]
fn check_vertex_history() {
    let mut g = Graph::new();

    g.add_vertex(1, nid(1), no_props()).unwrap();
    g.add_vertex(2, nid(1), no_props()).unwrap();
    g.add_vertex(3, nid(1), no_props()).unwrap();
    g.add_vertex(4, nid(1), no_props()).unwrap();
    g.add_vertex(8, nid(1), no_props()).unwrap();

    g.add_vertex(4, name("Lord Farquaad"), no_props()).unwrap();
    g.add_vertex(6, name("Lord Farquaad"), no_props()).unwrap();
    g.add_vertex(7, name("Lord Farquaad"), no_props()).unwrap();
    g.add_vertex(8, name("Lord Farquaad"), no_props()).unwrap();

    let times_of_one = g.vertex(&nid(1)).unwrap().history();
    let times_of_farquaad = g.vertex(&name("Lord Farquaad")).unwrap().history();

    assert_eq!(times_of_one, [1, 2, 3, 4, 8]);
    assert_eq!(times_of_farquaad, [4, 6, 7, 8]);

    let view = g.window(1, 8);

    let windowed_times_of_one = view.vertex(&nid(1)).unwrap().history();
    let windowed_times_of_farquaad = view.vertex(&name("Lord Farquaad")).unwrap().history();
    assert_eq!(windowed_times_of_one, [1, 2, 3, 4]);
    assert_eq!(windowed_times_of_farquaad, [4, 6, 7]);
}

#[test]
fn check_vertex_history_multiple_shards() {
    let mut g = Graph::new();

    g.add_vertex(1, nid(1), no_props()).unwrap();
    g.add_vertex(2, nid(1), no_props()).unwrap();
    g.add_vertex(3, nid(1), no_props()).unwrap();
    g.add_vertex(4, nid(1), no_props()).unwrap();
    g.add_vertex(5, nid(2), no_props()).unwrap();
    g.add_vertex(6, nid(2), no_props()).unwrap();
    g.add_vertex(7, nid(2), no_props()).unwrap();
    g.add_vertex(8, nid(1), no_props()).unwrap();
    g.add_vertex(9, nid(2), no_props()).unwrap();
    g.add_vertex(10, nid(2), no_props()).unwrap();

    g.add_vertex(4, name("Lord Farquaad"), no_props()).unwrap();
    g.add_vertex(6, name("Lord Farquaad"), no_props()).unwrap();
    g.add_vertex(7, name("Lord Farquaad"), no_props()).unwrap();
    g.add_vertex(8, name("Lord Farquaad"), no_props()).unwrap();

    let times_of_one = g.vertex(&nid(1)).unwrap().history();
    let times_of_farquaad = g.vertex(&name("Lord Farquaad")).unwrap().history();
    let times_of_upper = g.vertex(&nid(2)).unwrap().history();

    assert_eq!(times_of_one, [1, 2, 3, 4, 8]);
    assert_eq!(times_of_farquaad, [4, 6, 7, 8]);
    assert_eq!(times_of_upper, [5, 6, 7, 9, 10]);

    let view = g.window(1, 8);
    let windowed_times_of_one = view.vertex(&nid(1)).unwrap().history();
    let windowed_times_of_two = view.vertex(&nid(2)).unwrap().history();
    let windowed_times_of_farquaad = view.vertex(&name("Lord Farquaad")).unwrap().history();

    assert_eq!(windowed_times_of_one, [1, 2, 3, 4]);
    assert_eq!(windowed_times_of_farquaad, [4, 6, 7]);
    assert_eq!(windowed_times_of_two, [5, 6, 7]);
}

#[test]
fn test_vertex_early_late_times() {
    let mut g = Graph::new();
    g.add_vertex(1, nid(1), no_props()).unwrap();
    g.add_vertex(2, nid(1), no_props()).unwrap();
    g.add_vertex(3, nid(1), no_props()).unwrap();

    assert_eq!(g.vertex(&nid(1)).unwrap().earliest_time(), Some(1));
    assert_eq!(g.vertex(&nid(1)).unwrap().latest_time(), Some(3));

    // the view of time point 2 is the window [2, 3): both bounds clamp
    assert_eq!(g.at(2).vertex(&nid(1)).unwrap().earliest_time(), Some(2));
    assert_eq!(g.at(2).vertex(&nid(1)).unwrap().latest_time(), Some(2));
}

#[test]
fn test_vertex_ids() {
    let mut g = Graph::new();
    g.add_vertex(1, nid(1), no_props()).unwrap();
    g.add_vertex(1, nid(2), no_props()).unwrap();
    g.add_vertex(2, nid(3), no_props()).unwrap();

    let ids: Vec<u64> = g.vertices().iter().map(|v| v.id()).collect();
    assert_eq!(ids, vec![1, 2, 3]);

    let g_at = g.at(1);
    let ids: Vec<u64> = g_at.vertices().iter().map(|v| v.id()).collect();
    assert_eq!(ids, vec![1, 2]);
}

#[test]
fn simple_triangle() {
    let mut g = Graph::new();

    let vs = vec![(1, 1, 2), (2, 1, 3), (3, 2, 1), (4, 3, 2)];

    for (t, src, dst) in &vs {
        g.add_edge(*t, nid(*src), nid(*dst), no_props(), None).unwrap();
    }

    let windowed_graph = g.window(0, 5);
    let one = windowed_graph.vertex(&nid(1)).expect("vertex");
    let ns_win = one.neighbours().ids();

    let view = g.window(i64::MIN, i64::MAX);
    let one = view.vertex(&nid(1)).expect("vertex");
    let ns = one.neighbours().ids();
    assert_eq!(ns, vec![2, 3]);
    assert_eq!(ns_win, ns);
}

#[test]
fn test_vertex_view_ops() {
    let mut g = Graph::new();

    g.add_edge(0, nid(1), nid(2), no_props(), None).unwrap();

    let n = g.vertex(&nid(1)).unwrap().neighbours().ids();
    assert_eq!(n, [2]);
}

#[test]
fn layered_views_count_nodes_by_their_layers() {
    let mut g = Graph::new();
    g.add_edge(1, nid(1), nid(2), no_props(), Some("layer1".to_string())).unwrap();
    g.add_edge(2, nid(3), nid(4), no_props(), Some("layer2".to_string())).unwrap();

    assert_eq!(g.num_vertices(), 4);
    let l1 = g.layer(&raphtory::view::Layer::One("layer1".to_string())).unwrap();
    assert_eq!(l1.num_vertices(), 2);
    let ids: Vec<u64> = l1.vertices().iter().map(|v| v.id()).collect();
    assert_eq!(ids, vec![1, 2]);
    assert!(l1.has_node(&nid(1)));
    assert!(!l1.has_node(&nid(3)));

    // nodes with their own events stay visible under any layer selection
    g.add_vertex(5, nid(3), no_props()).unwrap();
    let l1 = g.layer(&raphtory::view::Layer::One("layer1".to_string())).unwrap();
    assert_eq!(l1.num_vertices(), 3);

    // and the window narrows both kinds of visibility
    let w = g.window(2, 3);
    let ids: Vec<u64> = w.vertices().iter().map(|v| v.id()).collect();
    assert_eq!(ids, vec![3, 4]);
}

#[test]
fn window_size_is_end_minus_start() {
    let mut g = Graph::new();
    g.add_vertex(3, nid(1), no_props()).unwrap();
    g.add_vertex(9, nid(1), no_props()).unwrap();
    assert_eq!(g.window(2, 12).window_size(), Some(10));
    assert_eq!(g.as_view().window_size(), Some(7));
    assert_eq!(Graph::new().as_view().window_size(), None);
}

#[test]
fn observable_equality_ignores_graph_properties() {
    let g1 = Graph::new();
    let mut g2 = Graph::new();
    g2.add_static_properties(vec![(
        "title".to_string(),
        raphtory::props::Prop::Str("demo".into()),
    )])
    .unwrap();
    // same nodes, edges and events: observably equal both ways
    assert!(raphtory::snapshot::graph_equal(&g1, &g2));
    assert!(raphtory::snapshot::graph_equal(&g2, &g1));

    let mut g3 = Graph::new();
    g3.add_edge(1, nid(1), nid(2), no_props(), None).unwrap();
    assert!(!raphtory::snapshot::graph_equal(&g1, &g3));
    assert!(!raphtory::snapshot::graph_equal(&g3, &g1));

    // same pair, different event times: counts match but activity differs
    let mut g4 = Graph::new();
    g4.add_edge(7, nid(1), nid(2), no_props(), None).unwrap();
    assert!(!raphtory::snapshot::graph_equal(&g3, &g4));
}
