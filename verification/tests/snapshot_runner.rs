use raphtory::graph::{Graph, NodeId};
use raphtory::node::Direction;
use raphtory::props::Prop;
use raphtory::runner::{run_partitioned, AccKind};
use raphtory::snapshot::graph_equal;

fn nid(n: u64) -> NodeId {
    NodeId::U64(n)
}

fn name(s: &str) -> NodeId {
    NodeId::Name(s.to_string())
}

fn no_props() -> Vec<(String, Prop)> {
    Vec::new()
}

#[test]
fn graph_save_to_load_from_file() {
    let vs = vec![(1, 1, 2), (2, 1, 3), (-1, 2, 1), (0, 1, 1), (7, 3, 2), (1, 1, 1)];

    let mut g = Graph::new();
    for (t, src, dst) in &vs {
        g.add_edge(*t, nid(*src), nid(*dst), no_props(), None).unwrap();
    }

    // the snapshot words stand in for the file; writing them out and
    // reading them back is byte shuffling around this round trip
    let words = g.encode();
    let g2 = Graph::decode(&words).expect("Failed to load graph");

    assert!(graph_equal(&g, &g2));
    assert_eq!(g2.num_vertices(), g.num_vertices());
    assert_eq!(g2.num_edges(), g.num_edges());
    assert_eq!(g2.earliest_time(), g.earliest_time());
    assert_eq!(g2.latest_time(), g.latest_time());
}

#[test]
fn snapshot_round_trip_with_properties_and_layers() {
    let mut g = Graph::new();
    g.add_edge(
        1,
        name("alice"),
        name("bob"),
        vec![("w".to_string(), Prop::F64Bits((2.5f64).to_bits()))],
        Some("btc".to_string()),
    )
    .unwrap();
    g.add_vertex(3, name("alice"), vec![("age".to_string(), Prop::U32(30))])
        .unwrap();
    g.add_vertex_properties(name("alice"), vec![("t".to_string(), Prop::Str("x".into()))])
        .unwrap();
    g.add_static_properties(vec![("title".to_string(), Prop::Str("demo".into()))])
        .unwrap();
    g.add_properties(5, vec![("tick".to_string(), Prop::I64(-7))]).unwrap();

    let g2 = g.snapshot_round_trip();
    assert!(graph_equal(&g, &g2));
    let v = g2.vertex(&name("alice")).unwrap();
    // the edge event at t=1 belongs to the edge; the node's own history
    // holds its addition at t=3
    assert_eq!(v.history(), vec![3]);
    assert_eq!(
        v.properties().constant().get(&"t".to_string()),
        Some(Prop::Str("x".into()))
    );
}

#[test]
fn snapshot_rejects_garbage() {
    assert!(Graph::decode(&vec![]).is_err());
    assert!(Graph::decode(&vec![99, 99, 99]).is_err());
    // a valid snapshot with trailing words is rejected
    let g = Graph::new();
    let mut words = g.encode();
    let g2 = Graph::decode(&words).unwrap();
    assert!(graph_equal(&g, &g2));
    words.push(0);
    assert!(Graph::decode(&words).is_err());
}

#[test]
fn runner_outputs_do_not_depend_on_chunking() {
    let values: Vec<i64> = vec![5, -3, 12, 0, 7, 7, -20, 1, 9, 4, -1];
    for kind in [AccKind::Sum, AccKind::Min, AccKind::Max] {
        let sequential = run_partitioned(kind, &values, values.len());
        for threads in 1..=8 {
            let chunk = values.len().div_ceil(threads);
            assert_eq!(run_partitioned(kind, &values, chunk), sequential);
        }
    }
}

#[test]
fn test_sum_float_weights() {
    let mut graph = Graph::new();

    let vs: Vec<(&str, &str, f64, i64)> = vec![
        ("1", "2", 10.0, 1),
        ("1", "4", 20.0, 2),
        ("2", "3", 5.0, 3),
        ("3", "2", 2.0, 4),
        ("3", "1", 1.0, 5),
        ("4", "3", 10.0, 6),
        ("4", "1", 5.0, 7),
        ("1", "5", 2.0, 8),
    ];

    for (src, dst, val, time) in &vs {
        graph
            .add_edge(
                *time,
                name(src),
                name(dst),
                vec![("value_dec".to_string(), Prop::F64Bits(val.to_bits()))],
                None,
            )
            .expect("Couldnt add edge");
    }

    // the library hands out the exactly-specified signed observations;
    // folding them as 64-bit floats is the caller's side of the analytic
    let balance = |g: &Graph, d: Direction| -> Vec<(u64, f64)> {
        let mut out = Vec::new();
        for v in g.vertices() {
            let contribs = v.balance_contributions(&"value_dec".to_string(), d);
            let mut acc = 0.0f64;
            for (neg, p) in contribs {
                let x = match p {
                    Prop::F64Bits(b) => f64::from_bits(b),
                    _ => 0.0,
                };
                acc += if neg { -x } else { x };
            }
            out.push((v.id(), acc));
        }
        out.sort_by_key(|p| p.0);
        out
    };

    let both = balance(&graph, Direction::BOTH);
    assert_eq!(
        both,
        vec![(1, -26.0), (2, 7.0), (3, 12.0), (4, 5.0), (5, 2.0)]
    );

    let inn = balance(&graph, Direction::IN);
    assert_eq!(inn, vec![(1, 6.0), (2, 12.0), (3, 15.0), (4, 20.0), (5, 2.0)]);

    let out = balance(&graph, Direction::OUT);
    assert_eq!(
        out,
        vec![(1, -32.0), (2, -5.0), (3, -3.0), (4, -15.0), (5, 0.0)]
    );
}
