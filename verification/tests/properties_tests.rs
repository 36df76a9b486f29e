use raphtory::graph::{Graph, NodeId};
use raphtory::props::Prop;
use raphtory::view::Layer;

fn nid(n: u64) -> NodeId {
    NodeId::U64(n)
}

fn no_props() -> Vec<(String, Prop)> {
    Vec::new()
}

fn props(ps: &[(&str, Prop)]) -> Vec<(String, Prop)> {
    ps.iter().map(|(k, v)| (k.to_string(), v.clone())).collect()
}

fn lay(s: &str) -> Option<String> {
    Some(s.to_string())
}

fn key(s: &str) -> String {
    s.to_string()
}

#[test]
fn static_properties() {
    let mut g = Graph::new();
    g.add_edge(0, nid(11), nid(22), no_props(), None).unwrap();
    g.add_edge(0, nid(11), nid(11), props(&[("temp", Prop::Bool(true))]), None)
        .unwrap();
    g.add_edge(0, nid(22), nid(33), no_props(), None).unwrap();
    g.add_edge(0, nid(33), nid(11), no_props(), None).unwrap();
    g.add_vertex(0, nid(11), props(&[("temp", Prop::Bool(true))])).unwrap();

    g.add_vertex_properties(nid(11), props(&[("a", Prop::U64(11)), ("b", Prop::I64(11))]))
        .unwrap();
    g.add_vertex_properties(nid(11), props(&[("c", Prop::U32(11))])).unwrap();
    g.add_vertex_properties(nid(22), props(&[("b", Prop::U64(22))])).unwrap();
    g.add_edge_properties(nid(11), nid(11), props(&[("d", Prop::U64(1111))]), None)
        .unwrap();
    g.add_edge_properties(nid(33), nid(11), props(&[("a", Prop::U64(3311))]), None)
        .unwrap();

    let v11 = g.vertex(&nid(11)).unwrap();
    let v22 = g.vertex(&nid(22)).unwrap();
    let v33 = g.vertex(&nid(33)).unwrap();
    let edge1111 = g.edge(&nid(11), &nid(11)).unwrap();
    let edge2233 = g.edge(&nid(22), &nid(33)).unwrap();
    let edge3311 = g.edge(&nid(33), &nid(11)).unwrap();

    assert_eq!(v11.properties().constant().keys(), vec!["a", "b", "c"]);
    assert_eq!(v22.properties().constant().keys(), vec!["b"]);
    assert!(v33.properties().constant().keys().is_empty());
    assert_eq!(edge1111.properties().constant().keys(), vec!["d"]);
    assert_eq!(edge3311.properties().constant().keys(), vec!["a"]);
    assert!(edge2233.properties().constant().keys().is_empty());

    assert_eq!(v11.properties().constant().get(&key("a")), Some(Prop::U64(11)));
    assert_eq!(v11.properties().constant().get(&key("b")), Some(Prop::I64(11)));
    assert_eq!(v11.properties().constant().get(&key("c")), Some(Prop::U32(11)));
    assert_eq!(v22.properties().constant().get(&key("b")), Some(Prop::U64(22)));
    assert_eq!(v22.properties().constant().get(&key("a")), None);
    assert_eq!(edge1111.properties().constant().get(&key("d")), Some(Prop::U64(1111)));
    assert_eq!(edge3311.properties().constant().get(&key("a")), Some(Prop::U64(3311)));
    assert_eq!(edge2233.properties().constant().get(&key("a")), None);
}

#[test]
fn constant_property_type_clash_is_rejected() {
    let mut g = Graph::new();
    g.add_vertex(0, nid(1), no_props()).unwrap();
    g.add_vertex_properties(nid(1), props(&[("a", Prop::U64(1))])).unwrap();
    // same type overwrites
    g.add_vertex_properties(nid(1), props(&[("a", Prop::U64(2))])).unwrap();
    let v = g.vertex(&nid(1)).unwrap();
    assert_eq!(v.properties().constant().get(&key("a")), Some(Prop::U64(2)));
    // another type is rejected and the prior value kept
    let r = g.add_vertex_properties(nid(1), props(&[("a", Prop::Str("x".into()))]));
    assert_eq!(r, Err(raphtory::GraphError::PropertyTypeError));
    let v = g.vertex(&nid(1)).unwrap();
    assert_eq!(v.properties().constant().get(&key("a")), Some(Prop::U64(2)));
    // unknown entities are reported
    assert_eq!(
        g.add_vertex_properties(nid(9), no_props()),
        Err(raphtory::GraphError::MissingNode)
    );
    assert_eq!(
        g.add_edge_properties(nid(1), nid(9), no_props(), None),
        Err(raphtory::GraphError::MissingEdge)
    );
    assert_eq!(
        g.add_edge_properties(nid(1), nid(1), no_props(), lay("nope")),
        Err(raphtory::GraphError::UnknownLayer)
    );
}

#[test]
fn temporal_props_vertex() {
    let mut g = Graph::new();

    g.add_vertex(0, nid(1), props(&[("cool", Prop::Bool(true))])).unwrap();

    let actual = g.vertex(&nid(1)).unwrap().properties().get(&key("cool"));
    assert_eq!(actual, Some(Prop::Bool(true)));

    // we flip cool from true to false after t 3
    g.add_vertex(3, nid(1), props(&[("cool", Prop::Bool(false))])).unwrap();

    let wg = g.window(3, 15);
    let v = wg.vertex(&nid(1)).unwrap();

    let actual = v.properties().get(&key("cool"));
    assert_eq!(actual, Some(Prop::Bool(false)));

    let hist: Vec<(i64, Prop)> = v
        .properties()
        .temporal()
        .get(&key("cool"))
        .unwrap()
        .iter();
    assert_eq!(hist, vec![(3, Prop::Bool(false))]);

    let v = g.vertex(&nid(1)).unwrap();

    let hist: Vec<(i64, Prop)> = v
        .properties()
        .temporal()
        .get(&key("cool"))
        .unwrap()
        .iter();
    assert_eq!(hist, vec![(0, Prop::Bool(true)), (3, Prop::Bool(false))]);
}

#[test]
fn temporal_props_edge() {
    let mut g = Graph::new();

    g.add_edge(1, nid(0), nid(1), props(&[("distance", Prop::U32(5))]), None)
        .expect("add edge");

    let e = g.edge(&nid(0), &nid(1)).unwrap();

    let prop = e.properties().get(&key("distance")).unwrap();
    assert_eq!(prop, Prop::U32(5));
}

#[test]
fn test_exploded_edge() {
    let mut g = Graph::new();
    g.add_edge(0, nid(1), nid(2), props(&[("weight", Prop::I64(1))]), None)
        .unwrap();
    g.add_edge(1, nid(1), nid(2), props(&[("weight", Prop::I64(2))]), None)
        .unwrap();
    g.add_edge(2, nid(1), nid(2), props(&[("weight", Prop::I64(3))]), None)
        .unwrap();

    let exploded = g.edge(&nid(1), &nid(2)).unwrap().explode();
    let res: Vec<Vec<(String, Prop)>> = exploded.iter().map(|e| e.properties().as_vec()).collect();

    let mut expected = Vec::new();
    for i in 1..4 {
        expected.push(vec![("weight".to_string(), Prop::I64(i))]);
    }

    assert_eq!(res, expected);

    let e: Vec<Vec<(String, Prop)>> = g
        .vertex(&nid(1))
        .unwrap()
        .edges()
        .iter()
        .flat_map(|e| e.explode())
        .map(|e| e.properties().as_vec())
        .collect();
    assert_eq!(e, expected);
}

#[test]
fn test_temporral_edge_props_window() {
    let mut g = Graph::new();
    g.add_edge(1, nid(1), nid(2), props(&[("weight", Prop::I64(1))]), None)
        .unwrap();
    g.add_edge(2, nid(1), nid(2), props(&[("weight", Prop::I64(2))]), None)
        .unwrap();
    g.add_edge(3, nid(1), nid(2), props(&[("weight", Prop::I64(3))]), None)
        .unwrap();

    let binding = g.vertex(&nid(1)).unwrap().out_edges();
    let e = binding.first().unwrap();
    let res: Vec<(String, Vec<(i64, Prop)>)> = e
        .window(1, 3)
        .properties()
        .temporal()
        .iter()
        .into_iter()
        .map(|(k, v)| (k, v.iter()))
        .collect();

    let exp = vec![(
        "weight".to_string(),
        vec![(1, Prop::I64(1)), (2, Prop::I64(2))],
    )];
    assert_eq!(res, exp);
}

#[test]
fn test_multiple_layers_fundamentals() {
    let mut g = Graph::new();

    g.add_edge(1, nid(1), nid(2), props(&[("tx_sent", Prop::U64(10))]), lay("btc"))
        .expect("failed");
    g.add_edge(1, nid(1), nid(2), props(&[("tx_sent", Prop::U64(20))]), lay("eth"))
        .expect("failed");
    g.add_edge(1, nid(1), nid(2), props(&[("tx_sent", Prop::U64(70))]), lay("tether"))
        .expect("failed");

    let sum_all = |e: &raphtory::edge::EdgeView<'_>| -> u64 {
        e.properties()
            .temporal()
            .get(&key("tx_sent"))
            .unwrap()
            .iter()
            .into_iter()
            .filter_map(|(_, p)| p.into_u64())
            .sum()
    };

    let e = g.edge(&nid(1), &nid(2)).expect("failed to get edge");
    assert_eq!(sum_all(&e), 100);

    let lg = g
        .layer(&Layer::Many(vec!["eth".to_string(), "btc".to_string()]))
        .expect("failed to layer graph");

    let e = lg.edge(&nid(1), &nid(2)).expect("failed to get edge");
    assert_eq!(sum_all(&e), 30);

    assert_eq!(lg.num_edges(), 1);

    let e = g.edge(&nid(1), &nid(2)).expect("failed to get edge");

    let e_btc = e.layer(&Layer::One("btc".to_string())).expect("failed to get btc layer");
    let e_eth = e.layer(&Layer::One("eth".to_string())).expect("failed to get eth layer");

    let edge_btc_sum = sum_all(&e_btc);
    let edge_eth_sum = sum_all(&e_eth);
    assert!(edge_btc_sum < edge_eth_sum);

    // narrowing a single-layer edge by more names intersects: eth stays
    let e_eth = e_eth
        .layer(&Layer::Many(vec!["eth".to_string(), "btc".to_string()]))
        .expect("failed to get eth,btc layers");
    assert_eq!(sum_all(&e_eth), 20);
}

#[test]
fn layers() {
    let mut g = Graph::new();
    g.add_edge(0, nid(11), nid(22), no_props(), None).unwrap();
    g.add_edge(0, nid(11), nid(33), no_props(), None).unwrap();
    g.add_edge(0, nid(33), nid(11), no_props(), None).unwrap();
    g.add_edge(0, nid(11), nid(22), no_props(), lay("layer1")).unwrap();
    g.add_edge(0, nid(11), nid(33), no_props(), lay("layer2")).unwrap();
    g.add_edge(0, nid(11), nid(44), no_props(), lay("layer2")).unwrap();

    assert!(g.has_edge(&nid(11), &nid(22), &Layer::All));
    assert!(g.has_edge(&nid(11), &nid(22), &Layer::Default));
    assert!(!g.has_edge(&nid(11), &nid(44), &Layer::Default));
    assert!(!g.has_edge(&nid(11), &nid(22), &Layer::One("layer2".to_string())));
    assert!(g.has_edge(&nid(11), &nid(44), &Layer::One("layer2".to_string())));

    assert!(g.edge(&nid(11), &nid(22)).is_some());
    let dft = g.layer(&Layer::Default).unwrap();
    assert!(dft.edge(&nid(11), &nid(44)).is_none());
    // narrowing an edge to a layer it has no events in leaves a view that
    // sees nothing
    let e_22_l2 = g
        .edge(&nid(11), &nid(22))
        .unwrap()
        .layer(&Layer::One("layer2".to_string()))
        .unwrap();
    assert!(e_22_l2.layer_names().is_empty());
    let e_44_l2 = g
        .edge(&nid(11), &nid(44))
        .unwrap()
        .layer(&Layer::One("layer2".to_string()))
        .unwrap();
    assert!(!e_44_l2.layer_names().is_empty());

    let dft_layer = g.default_layer();
    let layer1 = g.layer(&Layer::One("layer1".to_string())).expect("layer1");
    let layer2 = g.layer(&Layer::One("layer2".to_string())).expect("layer2");
    assert!(g.layer(&Layer::One("missing layer".to_string())).is_none());

    assert_eq!(g.num_vertices(), 4);
    assert_eq!(g.num_edges(), 4);
    assert_eq!(dft_layer.num_edges(), 3);
    assert_eq!(layer1.num_edges(), 1);
    assert_eq!(layer2.num_edges(), 2);

    let vertex = g.vertex(&nid(11)).unwrap();
    let vertex_dft = dft_layer.vertex(&nid(11)).unwrap();
    let vertex1 = layer1.vertex(&nid(11)).unwrap();
    let vertex2 = layer2.vertex(&nid(11)).unwrap();

    assert_eq!(vertex.degree(), 3);
    assert_eq!(vertex_dft.degree(), 2);
    assert_eq!(vertex1.degree(), 1);
    assert_eq!(vertex2.degree(), 2);

    assert_eq!(vertex.out_degree(), 3);
    assert_eq!(vertex_dft.out_degree(), 2);
    assert_eq!(vertex1.out_degree(), 1);
    assert_eq!(vertex2.out_degree(), 2);

    assert_eq!(vertex.in_degree(), 1);
    assert_eq!(vertex_dft.in_degree(), 1);
    assert_eq!(vertex1.in_degree(), 0);
    assert_eq!(vertex2.in_degree(), 0);

    let to_tuples = |edges: Vec<raphtory::edge::EdgeView<'_>>| -> Vec<(u64, u64)> {
        let mut v: Vec<(u64, u64)> = edges.iter().map(|e| (e.src().id(), e.dst().id())).collect();
        v.sort();
        v
    };

    assert_eq!(
        to_tuples(vertex.edges()),
        vec![(11, 22), (11, 33), (11, 44), (33, 11)]
    );
    assert_eq!(
        to_tuples(vertex_dft.edges()),
        vec![(11, 22), (11, 33), (33, 11)]
    );
    assert_eq!(to_tuples(vertex1.edges()), vec![(11, 22)]);
    assert_eq!(to_tuples(vertex2.edges()), vec![(11, 33), (11, 44)]);

    assert_eq!(to_tuples(vertex.in_edges()), vec![(33, 11)]);
    assert_eq!(to_tuples(vertex_dft.in_edges()), vec![(33, 11)]);
    assert_eq!(to_tuples(vertex1.in_edges()), vec![]);
    assert_eq!(to_tuples(vertex2.in_edges()), vec![]);

    assert_eq!(
        to_tuples(vertex.out_edges()),
        vec![(11, 22), (11, 33), (11, 44)]
    );
    assert_eq!(to_tuples(vertex_dft.out_edges()), vec![(11, 22), (11, 33)]);
    assert_eq!(to_tuples(vertex1.out_edges()), vec![(11, 22)]);
    assert_eq!(to_tuples(vertex2.out_edges()), vec![(11, 33), (11, 44)]);

    let to_ids = |ns: raphtory::path::PathFromVertex<'_>| -> Vec<u64> {
        let mut v = ns.ids();
        v.sort();
        v
    };

    assert_eq!(to_ids(vertex.neighbours()), vec![22, 33, 44]);
    assert_eq!(to_ids(vertex_dft.neighbours()), vec![22, 33]);
    assert_eq!(to_ids(vertex1.neighbours()), vec![22]);
    assert_eq!(to_ids(vertex2.neighbours()), vec![33, 44]);

    assert_eq!(to_ids(vertex.out_neighbours()), vec![22, 33, 44]);
    assert_eq!(to_ids(vertex_dft.out_neighbours()), vec![22, 33]);
    assert_eq!(to_ids(vertex1.out_neighbours()), vec![22]);
    assert_eq!(to_ids(vertex2.out_neighbours()), vec![33, 44]);

    assert_eq!(to_ids(vertex.in_neighbours()), vec![33]);
    assert_eq!(to_ids(vertex_dft.in_neighbours()), vec![33]);
    assert!(to_ids(vertex1.in_neighbours()).is_empty());
    assert!(to_ids(vertex2.in_neighbours()).is_empty());
}

#[test]
fn test_edge_layer_intersect_layer() {
    let mut g = Graph::new();

    g.add_edge(1, nid(1), nid(2), no_props(), lay("layer1")).expect("add edge");
    g.add_edge(1, nid(1), nid(3), no_props(), lay("layer3")).expect("add edge");
    g.add_edge(1, nid(1), nid(4), no_props(), None).expect("add edge");

    let g_layers = g
        .layer(&Layer::Many(vec!["layer1".to_string(), "layer3".to_string()]))
        .expect("layer");

    assert!(g_layers
        .edge(&nid(1), &nid(2))
        .unwrap()
        .layer(&Layer::One("layer1".to_string()))
        .is_some());
    assert!(g_layers
        .edge(&nid(1), &nid(3))
        .unwrap()
        .layer(&Layer::One("layer3".to_string()))
        .is_some());
    assert!(g_layers.edge(&nid(1), &nid(2)).is_some());
    assert!(g_layers.edge(&nid(1), &nid(3)).is_some());

    assert!(g_layers.edge(&nid(1), &nid(4)).is_none());

    let one = g_layers.vertex(&nid(1)).expect("vertex");
    let ns = one.neighbours().ids();
    assert_eq!(ns, vec![2, 3]);

    let g_layers2 = g_layers
        .layer(&Layer::Many(vec!["layer1".to_string()]))
        .expect("layer");

    assert!(g_layers2
        .edge(&nid(1), &nid(2))
        .unwrap()
        .layer(&Layer::One("layer1".to_string()))
        .is_some());
    assert!(g_layers2.edge(&nid(1), &nid(2)).is_some());

    assert!(g_layers2.edge(&nid(1), &nid(3)).is_none());
    assert!(g_layers2.edge(&nid(1), &nid(4)).is_none());

    let one = g_layers2.vertex(&nid(1)).expect("vertex");
    let ns = one.neighbours().ids();
    assert_eq!(ns, vec![2]);
}
