use chrono::{NaiveDate, NaiveDateTime};
use raphtory::graph::{Graph, NodeId};
use raphtory::time::{parse_timestamp, Interval};
use raphtory::windowset::WindowSet;

fn no_props() -> Vec<(String, raphtory::props::Prop)> {
    Vec::new()
}

// start inclusive, end exclusive
fn graph_with_timeline(start: i64, end: i64) -> Graph {
    let mut g = Graph::new();
    g.add_node(start, NodeId::U64(0), no_props()).unwrap();
    g.add_node(end - 1, NodeId::U64(0), no_props()).unwrap();
    assert_eq!(g.start().unwrap(), start);
    assert_eq!(g.end().unwrap(), end);
    g
}

fn bounds(mut windows: WindowSet<'_>) -> Vec<(i64, i64)> {
    let mut out = Vec::new();
    while let Some(w) = windows.next() {
        out.push((w.start().unwrap(), w.end().unwrap()));
    }
    out
}

#[test]
fn rolling() {
    let g = graph_with_timeline(1, 7);
    let windows = g.rolling(Interval::discrete(2), None);
    let expected = vec![(1, 3), (3, 5), (5, 7)];
    assert_eq!(bounds(windows), expected);

    let g = graph_with_timeline(1, 6);
    let windows = g.rolling(Interval::discrete(3), Some(Interval::discrete(2)));
    let expected = vec![(0, 3), (2, 5), (4, 7)];
    assert_eq!(bounds(windows), expected.clone());

    let g = graph_with_timeline(0, 9);
    let view = g.window(1, 6);
    let windows = view.rolling(Interval::discrete(3), Some(Interval::discrete(2)));
    assert_eq!(bounds(windows), expected);
}

#[test]
fn expanding() {
    let g = graph_with_timeline(1, 7);
    let windows = g.expanding(Interval::discrete(2));
    let expected = vec![(1, 3), (1, 5), (1, 7)];
    assert_eq!(bounds(windows), expected);

    let g = graph_with_timeline(1, 6);
    let windows = g.expanding(Interval::discrete(2));
    let expected = vec![(1, 3), (1, 5), (1, 7)];
    assert_eq!(bounds(windows), expected.clone());

    let g = graph_with_timeline(0, 9);
    let view = g.window(1, 6);
    let windows = view.expanding(Interval::discrete(2));
    assert_eq!(bounds(windows), expected);
}

#[test]
fn rolling_dates() {
    let start = parse_timestamp("2020-06-06 00:00:00").unwrap();
    let end = parse_timestamp("2020-06-07 23:59:59.999").unwrap();
    let g = graph_with_timeline(start, end);
    let windows = g.rolling(Interval::parse("1 day").unwrap(), None);
    let expected = vec![
        (
            parse_timestamp("2020-06-06 00:00:00").unwrap(), // entire 2020-06-06
            parse_timestamp("2020-06-07 00:00:00").unwrap(),
        ),
        (
            parse_timestamp("2020-06-07 00:00:00").unwrap(), // entire 2020-06-07
            parse_timestamp("2020-06-08 00:00:00").unwrap(),
        ),
    ];
    assert_eq!(bounds(windows), expected);

    let start = parse_timestamp("2020-06-06 00:00:00").unwrap();
    let end = parse_timestamp("2020-06-08 00:00:00").unwrap();
    let g = graph_with_timeline(start, end);
    let windows = g.rolling(Interval::parse("1 day").unwrap(), None);
    let expected = vec![
        (
            parse_timestamp("2020-06-06 00:00:00").unwrap(),
            parse_timestamp("2020-06-07 00:00:00").unwrap(),
        ),
        (
            parse_timestamp("2020-06-07 00:00:00").unwrap(),
            parse_timestamp("2020-06-08 00:00:00").unwrap(),
        ),
    ];
    assert_eq!(bounds(windows), expected);
}

#[test]
fn expanding_dates() {
    let start = parse_timestamp("2020-06-06 00:00:00").unwrap();
    let end = parse_timestamp("2020-06-07 23:59:59.999").unwrap();
    let g = graph_with_timeline(start, end);
    let windows = g.expanding(Interval::parse("1 day").unwrap());
    let expected = vec![
        (start, parse_timestamp("2020-06-07 00:00:00").unwrap()),
        (start, parse_timestamp("2020-06-08 00:00:00").unwrap()),
    ];
    assert_eq!(bounds(windows), expected);

    let start = parse_timestamp("2020-06-06 00:00:00").unwrap();
    let end = parse_timestamp("2020-06-08 00:00:00").unwrap();
    let g = graph_with_timeline(start, end);
    let windows = g.expanding(Interval::parse("1 day").unwrap());
    let expected = vec![
        (start, parse_timestamp("2020-06-07 00:00:00").unwrap()),
        (start, parse_timestamp("2020-06-08 00:00:00").unwrap()),
    ];
    assert_eq!(bounds(windows), expected);
}

#[test]
fn timestamp_parse_agrees_with_chrono() {
    let cases = [
        "2020-06-06 00:00:00",
        "2020-06-07 23:59:59.999",
        "2022-06-06T12:34:00.000",
        "1969-12-31 23:59:59",
        "1600-02-29 01:02:03.004",
        "9999-12-31 23:59:59.999",
        "0001-01-01 00:00:00",
    ];
    for s in cases {
        let ours = parse_timestamp(s).unwrap();
        let norm = s.replace('T', " ");
        let theirs: NaiveDateTime = if norm.len() == 23 {
            NaiveDateTime::parse_from_str(&norm, "%Y-%m-%d %H:%M:%S%.3f").unwrap()
        } else {
            NaiveDateTime::parse_from_str(&norm, "%Y-%m-%d %H:%M:%S").unwrap()
        };
        assert_eq!(ours, theirs.and_utc().timestamp_millis(), "mismatch for {s}");
    }
    // a fixed anchor, independently of any library
    assert_eq!(parse_timestamp("1970-01-01 00:00:00").unwrap(), 0);
    assert_eq!(parse_timestamp("1970-01-02 00:00:00").unwrap(), 86_400_000);
    let d = NaiveDate::from_ymd_opt(2020, 6, 6).unwrap();
    assert_eq!(
        parse_timestamp("2020-06-06 00:00:00").unwrap(),
        d.and_hms_opt(0, 0, 0).unwrap().and_utc().timestamp_millis()
    );
}

#[test]
fn timestamp_parse_rejects_bad_shapes() {
    for s in [
        "2020-06-06",
        "2020-06-06 00:00",
        "2020-13-01 00:00:00",
        "2020-02-30 00:00:00",
        "2020-06-06 24:00:00",
        "2020-06-06 00:60:00",
        "2020-06-06 00:00:60",
        "2020-06-06 00:00:00.",
        "2020-06-06x00:00:00",
        "garbage",
    ] {
        assert!(parse_timestamp(s).is_err(), "accepted {s}");
    }
}

#[test]
fn interval_parse_shapes() {
    let one_day = Interval::parse("1 day").unwrap();
    assert_eq!(one_day.millis, 86_400_000);
    assert_eq!(one_day.months, 0);
    assert!(!one_day.aligned);

    let mixed = Interval::parse("2 weeks, 3 hours 5 seconds").unwrap();
    assert_eq!(mixed.millis, 2 * 604_800_000 + 3 * 3_600_000 + 5_000);

    let cal = Interval::parse("1 year 2 months").unwrap();
    assert_eq!(cal.months, 14);
    assert!(cal.aligned);

    assert!(Interval::parse("").is_err());
    assert!(Interval::parse("5").is_err());
    assert!(Interval::parse("five days").is_err());
    assert!(Interval::parse("3 fortnights").is_err());
}

#[test]
fn rolling_calendar_months() {
    let start = parse_timestamp("2020-01-01 00:00:00").unwrap();
    let end = parse_timestamp("2020-03-15 00:00:00").unwrap();
    let g = graph_with_timeline(start, end);
    let windows = g.rolling(Interval::parse("1 month").unwrap(), None);
    let expected: Vec<(i64, i64)> = vec![
        ("2020-01-01", "2020-02-01"),
        ("2020-02-01", "2020-03-01"),
        ("2020-03-01", "2020-04-01"),
    ]
    .into_iter()
    .map(|(a, b)| {
        let pa = NaiveDate::parse_from_str(a, "%Y-%m-%d").unwrap();
        let pb = NaiveDate::parse_from_str(b, "%Y-%m-%d").unwrap();
        (
            pa.and_hms_opt(0, 0, 0).unwrap().and_utc().timestamp_millis(),
            pb.and_hms_opt(0, 0, 0).unwrap().and_utc().timestamp_millis(),
        )
    })
    .collect();
    assert_eq!(bounds(windows), expected);
}

#[test]
fn test_ingesting_timestamps() {
    let earliest_time = parse_timestamp("2022-06-06 12:34:00").unwrap();
    let latest_time = parse_timestamp("2022-06-07 12:34:00").unwrap();

    let mut g = Graph::new();
    g.add_vertex(
        parse_timestamp("2022-06-06T12:34:00.000").unwrap(),
        NodeId::U64(0),
        no_props(),
    )
    .unwrap();
    g.add_edge(
        parse_timestamp("2022-06-07T12:34:00").unwrap(),
        NodeId::U64(1),
        NodeId::U64(2),
        no_props(),
        None,
    )
    .unwrap();
    assert_eq!(g.earliest_time().unwrap(), earliest_time);
    assert_eq!(g.latest_time().unwrap(), latest_time);

    // a caller-supplied parser: any route to an integer time serves
    let fmt = "%Y-%m-%d %H:%M";
    let custom = |s: &str| -> i64 {
        NaiveDateTime::parse_from_str(s, fmt)
            .unwrap()
            .and_utc()
            .timestamp_millis()
    };
    let mut g = Graph::new();
    g.add_vertex(custom("2022-06-06 12:34"), NodeId::U64(0), no_props()).unwrap();
    g.add_edge(custom("2022-06-07 12:34"), NodeId::U64(1), NodeId::U64(2), no_props(), None)
        .unwrap();
    assert_eq!(g.earliest_time().unwrap(), earliest_time);
    assert_eq!(g.latest_time().unwrap(), latest_time);
}

#[test]
fn rolling_children_intersect_parent_window() {
    let mut g = Graph::new();
    g.add_node(0, NodeId::U64(10), no_props()).unwrap();
    g.add_node(2, NodeId::U64(20), no_props()).unwrap();
    g.add_node(5, NodeId::U64(30), no_props()).unwrap();

    // the parent window [1, 6) hides the event at t = 0
    let view = g.window(1, 6);
    let mut windows = view.rolling(Interval::discrete(3), Some(Interval::discrete(2)));

    // the first child reports its raw slot [0, 3) ...
    let first = windows.next().unwrap();
    assert_eq!(first.start().unwrap(), 0);
    assert_eq!(first.end().unwrap(), 3);
    // ... but sees only the intersection [1, 3): the event at t = 0
    // stays hidden
    assert!(!first.has_node(&NodeId::U64(10)));
    assert!(first.has_node(&NodeId::U64(20)));
    assert_eq!(first.num_vertices(), 1);

    let second = windows.next().unwrap();
    assert_eq!((second.start().unwrap(), second.end().unwrap()), (2, 5));
    assert_eq!(second.num_vertices(), 1);

    // the last child's raw slot [4, 7) runs past the parent's end: the
    // event at t = 5 lies inside the parent window and is kept
    let third = windows.next().unwrap();
    assert_eq!((third.start().unwrap(), third.end().unwrap()), (4, 7));
    assert!(third.has_node(&NodeId::U64(30)));
    assert_eq!(third.num_vertices(), 1);

    assert!(windows.next().is_none());
}

#[test]
fn after_and_before_intersect_current_window() {
    let mut g = Graph::new();
    g.add_node(5, NodeId::U64(1), no_props()).unwrap();
    g.add_node(15, NodeId::U64(2), no_props()).unwrap();
    g.add_node(22, NodeId::U64(3), no_props()).unwrap();

    let view = g.window(10, 20);

    // after(0) cannot reopen the window below its current start
    let later = view.after(0);
    assert_eq!((later.start().unwrap(), later.end().unwrap()), (10, 20));
    assert!(!later.has_node(&NodeId::U64(1)));
    assert!(later.has_node(&NodeId::U64(2)));
    assert_eq!(later.num_vertices(), 1);

    // before(25) cannot extend the window past its current end
    let earlier = view.before(25);
    assert_eq!((earlier.start().unwrap(), earlier.end().unwrap()), (10, 20));
    assert!(!earlier.has_node(&NodeId::U64(3)));
    assert_eq!(earlier.num_vertices(), 1);

    // within the window both narrow it as a plain window would
    assert_eq!(view.after(14).num_vertices(), 1);
    assert_eq!(view.after(15).num_vertices(), 0);
    assert_eq!(view.before(15).num_vertices(), 0);
    assert_eq!(view.before(16).num_vertices(), 1);
}
