use raphtory::graph::{Graph, NodeId};
use raphtory::props::Prop;
use raphtory::view::Layer;

fn nid(n: u64) -> NodeId {
    NodeId::U64(n)
}

fn no_props() -> Vec<(String, Prop)> {
    Vec::new()
}

fn lay(s: &str) -> Option<String> {
    Some(s.to_string())
}

#[test]
fn check_edge_history() {
    let mut g = Graph::new();

    g.add_edge(1, nid(1), nid(2), no_props(), None).unwrap();
    g.add_edge(2, nid(1), nid(3), no_props(), None).unwrap();
    g.add_edge(3, nid(1), nid(2), no_props(), None).unwrap();
    g.add_edge(4, nid(1), nid(4), no_props(), None).unwrap();

    let times_of_onetwo = g.edge(&nid(1), &nid(2)).unwrap().history();
    let times_of_four = g.edge(&nid(1), &nid(4)).unwrap().window(1, 5).history();
    let view = g.window(2, 5);
    let windowed_times_of_four = view.edge(&nid(1), &nid(4)).unwrap().window(2, 4).history();

    assert_eq!(times_of_onetwo, [1, 3]);
    assert_eq!(times_of_four, [4]);
    assert!(windowed_times_of_four.is_empty());
}

#[test]
fn check_edge_history_on_multiple_shards() {
    let mut g = Graph::new();

    g.add_edge(1, nid(1), nid(2), no_props(), None).unwrap();
    g.add_edge(2, nid(1), nid(3), no_props(), None).unwrap();
    g.add_edge(3, nid(1), nid(2), no_props(), None).unwrap();
    g.add_edge(4, nid(1), nid(4), no_props(), None).unwrap();
    g.add_edge(5, nid(1), nid(4), no_props(), None).unwrap();
    g.add_edge(6, nid(1), nid(4), no_props(), None).unwrap();
    g.add_edge(7, nid(1), nid(4), no_props(), None).unwrap();
    g.add_edge(8, nid(1), nid(4), no_props(), None).unwrap();
    g.add_edge(9, nid(1), nid(4), no_props(), None).unwrap();
    g.add_edge(10, nid(1), nid(4), no_props(), None).unwrap();

    let times_of_onetwo = g.edge(&nid(1), &nid(2)).unwrap().history();
    let times_of_four = g.edge(&nid(1), &nid(4)).unwrap().window(1, 5).history();
    let times_of_outside_window = g.edge(&nid(1), &nid(4)).unwrap().window(1, 4).history();
    let times_of_four_higher = g.edge(&nid(1), &nid(4)).unwrap().window(6, 11).history();

    let view = g.window(1, 11);
    let windowed_times_of_four = view.edge(&nid(1), &nid(4)).unwrap().window(2, 5).history();
    let windowed_times_of_four_higher =
        view.edge(&nid(1), &nid(4)).unwrap().window(8, 11).history();

    assert_eq!(times_of_onetwo, [1, 3]);
    assert_eq!(times_of_four, [4]);
    assert_eq!(times_of_four_higher, [6, 7, 8, 9, 10]);
    assert!(times_of_outside_window.is_empty());
    assert_eq!(windowed_times_of_four, [4]);
    assert_eq!(windowed_times_of_four_higher, [8, 9, 10]);
}

#[test]
fn test_edge_earliest_latest() {
    let mut g = Graph::new();
    g.add_edge(0, nid(1), nid(2), no_props(), None).unwrap();
    g.add_edge(1, nid(1), nid(2), no_props(), None).unwrap();
    g.add_edge(2, nid(1), nid(2), no_props(), None).unwrap();
    g.add_edge(0, nid(1), nid(3), no_props(), None).unwrap();
    g.add_edge(1, nid(1), nid(3), no_props(), None).unwrap();
    g.add_edge(2, nid(1), nid(3), no_props(), None).unwrap();

    let mut res = g.edge(&nid(1), &nid(2)).unwrap().earliest_time().unwrap();
    assert_eq!(res, 0);

    res = g.edge(&nid(1), &nid(2)).unwrap().latest_time().unwrap();
    assert_eq!(res, 2);

    // the view of time point 1 is the window [1, 2): both bounds clamp
    res = g.at(1).edge(&nid(1), &nid(2)).unwrap().earliest_time().unwrap();
    assert_eq!(res, 1);

    res = g.at(1).edge(&nid(1), &nid(2)).unwrap().latest_time().unwrap();
    assert_eq!(res, 1);

    let res_list: Vec<i64> = g
        .vertex(&nid(1))
        .unwrap()
        .edges()
        .iter()
        .filter_map(|e| e.earliest_time())
        .collect();
    assert_eq!(res_list, vec![0, 0]);

    let res_list: Vec<i64> = g
        .vertex(&nid(1))
        .unwrap()
        .edges()
        .iter()
        .filter_map(|e| e.latest_time())
        .collect();
    assert_eq!(res_list, vec![2, 2]);

    let res_list: Vec<i64> = g
        .vertex(&nid(1))
        .unwrap()
        .at(1)
        .edges()
        .iter()
        .filter_map(|e| e.earliest_time())
        .collect();
    assert_eq!(res_list, vec![1, 1]);

    let res_list: Vec<i64> = g
        .vertex(&nid(1))
        .unwrap()
        .at(1)
        .edges()
        .iter()
        .filter_map(|e| e.latest_time())
        .collect();
    assert_eq!(res_list, vec![1, 1]);
}

#[test]
fn test_edge_from_single_layer() {
    let mut g = Graph::new();
    g.add_edge(0, nid(1), nid(2), no_props(), lay("layer")).unwrap();

    assert!(g.edge(&nid(1), &nid(2)).is_some());
    let view = g.layer(&Layer::One("layer".to_string())).unwrap();
    assert!(view.edge(&nid(1), &nid(2)).is_some());
}

#[test]
fn test_unique_layers() {
    let mut g = Graph::new();
    g.add_edge(0, nid(1), nid(2), no_props(), lay("layer1")).unwrap();
    g.add_edge(0, nid(1), nid(2), no_props(), lay("layer2")).unwrap();
    let view = g.layer(&Layer::One("layer2".to_string())).unwrap();
    assert_eq!(view.get_unique_layers(), vec!["layer2"]);
}

#[test]
fn test_layer_explode() {
    let mut g = Graph::new();
    g.add_edge(0, nid(1), nid(2), no_props(), lay("layer1")).unwrap();
    g.add_edge(1, nid(1), nid(2), no_props(), lay("layer2")).unwrap();
    g.add_edge(2, nid(1), nid(2), no_props(), lay("layer1")).unwrap();
    g.add_edge(3, nid(1), nid(2), no_props(), None).unwrap();

    let e = g.edge(&nid(1), &nid(2)).expect("edge");

    let layer_exploded: Vec<(u64, u64, usize)> = e
        .explode_layers()
        .iter()
        .map(|ev| (ev.src().id(), ev.dst().id(), ev.layer_id().unwrap()))
        .collect();

    assert_eq!(layer_exploded, vec![(1, 2, 0), (1, 2, 1), (1, 2, 2)]);
}

#[test]
fn test_layer_explode_window() {
    let mut g = Graph::new();
    g.add_edge(0, nid(1), nid(2), no_props(), lay("layer1")).unwrap();
    g.add_edge(1, nid(1), nid(2), no_props(), lay("layer2")).unwrap();
    g.add_edge(2, nid(1), nid(2), no_props(), lay("layer1")).unwrap();
    g.add_edge(3, nid(1), nid(2), no_props(), None).unwrap();

    let view = g.window(0, 3);
    let e = view.edge(&nid(1), &nid(2)).expect("edge");

    let layer_exploded: Vec<(u64, u64, usize)> = e
        .explode_layers()
        .iter()
        .map(|ev| (ev.src().id(), ev.dst().id(), ev.layer_id().unwrap()))
        .collect();

    assert_eq!(layer_exploded, vec![(1, 2, 1), (1, 2, 2)]);
}

#[test]
fn test_layer_explode_stacking() {
    let mut g = Graph::new();
    g.add_edge(0, nid(1), nid(2), no_props(), lay("layer1")).unwrap();
    g.add_edge(1, nid(1), nid(2), no_props(), lay("layer2")).unwrap();
    g.add_edge(2, nid(1), nid(2), no_props(), lay("layer1")).unwrap();
    g.add_edge(3, nid(1), nid(2), no_props(), None).unwrap();

    let e = g.edge(&nid(1), &nid(2)).expect("edge");

    let mut layer_exploded: Vec<(i64, u64, u64, usize)> = Vec::new();
    for lv in e.explode_layers() {
        for ee in lv.explode() {
            layer_exploded.push((
                ee.time().unwrap(),
                ee.src().id(),
                ee.dst().id(),
                ee.layer_id().unwrap(),
            ));
        }
    }

    assert_eq!(
        layer_exploded,
        vec![(3, 1, 2, 0), (0, 1, 2, 1), (2, 1, 2, 1), (1, 1, 2, 2)]
    );
}

#[test]
fn test_layer_explode_stacking_window() {
    let mut g = Graph::new();
    g.add_edge(0, nid(1), nid(2), no_props(), lay("layer1")).unwrap();
    g.add_edge(1, nid(1), nid(2), no_props(), lay("layer2")).unwrap();
    g.add_edge(2, nid(1), nid(2), no_props(), lay("layer1")).unwrap();
    g.add_edge(3, nid(1), nid(2), no_props(), None).unwrap();

    let view = g.window(0, 3);
    let e = view.edge(&nid(1), &nid(2)).expect("edge");

    let mut layer_exploded: Vec<(i64, u64, u64, usize)> = Vec::new();
    for lv in e.explode_layers() {
        for ee in lv.explode() {
            layer_exploded.push((
                ee.time().unwrap(),
                ee.src().id(),
                ee.dst().id(),
                ee.layer_id().unwrap(),
            ));
        }
    }

    assert_eq!(layer_exploded, vec![(0, 1, 2, 1), (2, 1, 2, 1), (1, 1, 2, 2)]);
}

#[test]
fn test_edge_layer_name() {
    let mut g = Graph::new();
    g.add_edge(0, nid(0), nid(1), no_props(), None).unwrap();
    g.add_edge(0, nid(0), nid(1), no_props(), lay("awesome name")).unwrap();

    let what: Vec<(u64, u64)> = g
        .edges()
        .iter()
        .map(|e| (e.src().id(), e.dst().id()))
        .collect();
    assert_eq!(what, vec![(0, 1)]);

    let mut layer_names: Vec<String> = g
        .edges()
        .iter()
        .flat_map(|e| e.layer_names())
        .collect();
    layer_names.sort();
    assert_eq!(layer_names, vec!["_default", "awesome name"]);
}

#[test]
fn exploded_edge_times_is_consistent_1() {
    // one edge, events at t = 0 and t = 1
    let mut g = Graph::new();
    g.add_edge(0, nid(0), nid(0), no_props(), None).unwrap();
    g.add_edge(1, nid(0), nid(0), no_props(), None).unwrap();

    let all = g.edges();
    assert_eq!(all.len(), 1);
    let e = &all[0];
    let mut times: Vec<i64> = Vec::new();
    for ee in e.explode() {
        assert_eq!(ee.earliest_time(), ee.latest_time());
        let t = ee.earliest_time().unwrap();
        assert!(ee.active(t));
        assert!(e.active(t));
        times.push(t);
    }
    times.sort();
    assert_eq!(times, vec![0, 1]);
    assert_eq!(e.src().id(), 0);
    assert_eq!(e.dst().id(), 0);
}
