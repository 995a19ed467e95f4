use covid_graph::aggregate::{aggregate, aggregate_in_shards, bucket, buckets, checked_aggregate, dates, merge, CountyAggregate};
use covid_graph::graph::{build_graph, counties_fit, county_key_of, graph_for, try_build_graph, Graph, Metric, Node};
use covid_graph::record::{day_number, Kind, RawObservation};
use covid_graph::timestamp::day_timestamp;

const D1: i64 = 1_583_020_800_000; // 2020-03-01T00:00:00Z in milliseconds

fn obs(ms: i64, state: &str, county: &str, value: i64, kind: Kind) -> RawObservation {
    RawObservation { timestamp_ms: ms, county: county.to_string(), state: state.to_string(), value, kind }
}

fn scenario() -> Vec<RawObservation> {
    vec![
        obs(D1, "CA", "Alpha", 10, Kind::Confirmed),
        obs(D1, "CA", "Alpha", 2, Kind::Deaths),
        obs(D1, "CA", "Beta", 5, Kind::Confirmed),
        obs(D1, "NY", "Alpha", 7, Kind::Confirmed),
    ]
}

fn sorted(a: &[CountyAggregate]) -> Vec<(i64, String, String, i64, i64)> {
    let mut v: Vec<_> = a
        .iter()
        .map(|c| (c.date, c.state.clone(), c.display_name.clone(), c.confirmed, c.deaths))
        .collect();
    v.sort();
    v
}

fn node<'a>(g: &'a Graph, name: &str) -> &'a Node {
    let found: Vec<&Node> = g.nodes.iter().filter(|n| n.name == name).collect();
    assert_eq!(found.len(), 1, "node {} should occur once", name);
    found[0]
}

fn edges(n: &Node) -> Vec<String> {
    let mut e = n.edges.clone();
    e.sort();
    e
}

#[test]
fn concrete_scenario_graph() {
    let agg = aggregate(&scenario());
    let bs = buckets(&agg);
    assert_eq!(bs.len(), 1);
    let g = graph_for(&bs[0]).expect("day in range");
    assert_eq!(g.timestamp, "2020-03-01T00:00:00+00:00");
    assert_eq!(g.nodes.len(), 5);

    let a = node(&g, "CA - Alpha");
    assert_eq!((a.confirmed, a.deaths), (Some(10), Some(2)));
    assert_eq!(a.display_name.as_deref(), Some("Alpha"));
    assert!(a.edges.is_empty());
    let b = node(&g, "CA - Beta");
    assert_eq!((b.confirmed, b.deaths), (Some(5), Some(0)));
    let n = node(&g, "NY - Alpha");
    assert_eq!((n.confirmed, n.deaths), (Some(7), Some(0)));

    let ca = node(&g, "CA");
    assert_eq!((ca.confirmed, ca.deaths), (Some(15), Some(2)));
    assert_eq!(edges(ca), vec!["CA - Alpha".to_string(), "CA - Beta".to_string()]);
    assert_eq!(ca.display_name, None);
    let ny = node(&g, "NY");
    assert_eq!((ny.confirmed, ny.deaths), (Some(7), Some(0)));
    assert_eq!(edges(ny), vec!["NY - Alpha".to_string()]);
}

#[test]
fn state_sums_equal_county_sums() {
    let recs = vec![
        obs(D1, "TX", "Harris", 4, Kind::Confirmed),
        obs(D1, "TX", "Dallas", 6, Kind::Confirmed),
        obs(D1, "TX", "Dallas", 1, Kind::Deaths),
        obs(D1, "OK", "Tulsa", 3, Kind::Deaths),
        obs(D1 + 86_400_000, "TX", "Harris", 9, Kind::Confirmed),
    ];
    let agg = aggregate(&recs);
    for b in buckets(&agg) {
        let g = graph_for(&b).unwrap();
        for st in g.nodes.iter().filter(|n| n.display_name.is_none()) {
            let members: Vec<&CountyAggregate> = b.counties.iter().filter(|c| c.state == st.name).collect();
            let c: i64 = members.iter().map(|c| c.confirmed).sum();
            let d: i64 = members.iter().map(|c| c.deaths).sum();
            assert_eq!(st.confirmed, Some(c));
            assert_eq!(st.deaths, Some(d));
            let mut keys: Vec<String> = members.iter().map(|c| format!("{} - {}", c.state, c.display_name)).collect();
            keys.sort();
            assert_eq!(edges(st), keys);
        }
    }
}

#[test]
fn every_partition_gives_the_same_accumulation() {
    let mut recs = scenario();
    recs.push(obs(D1 + 5, "CA", "Alpha", 1, Kind::Confirmed));
    recs.push(obs(D1 + 86_400_000, "CA", "Alpha", 3, Kind::Deaths));
    recs.push(obs(D1, "NY", "Alpha", 2, Kind::Deaths));
    let whole = sorted(&aggregate(&recs));
    for n in 1..=recs.len() + 1 {
        assert_eq!(sorted(&aggregate_in_shards(&recs, n)), whole, "shards of {}", n);
    }
    for cut in 0..=recs.len() {
        let left: Vec<RawObservation> = recs[..cut].iter().map(|r| obs(r.timestamp_ms, &r.state, &r.county, r.value, r.kind)).collect();
        let right: Vec<RawObservation> = recs[cut..].iter().map(|r| obs(r.timestamp_ms, &r.state, &r.county, r.value, r.kind)).collect();
        let (a, b) = (aggregate(&left), aggregate(&right));
        assert_eq!(sorted(&merge(&a, &b)), whole);
        assert_eq!(sorted(&merge(&b, &a)), whole);
    }
}

#[test]
fn merge_adds_shared_keys_and_keeps_the_rest() {
    let a = aggregate(&vec![obs(D1, "CA", "Alpha", 10, Kind::Confirmed), obs(D1, "CA", "Beta", 1, Kind::Deaths)]);
    let b = aggregate(&vec![obs(D1, "CA", "Alpha", 5, Kind::Confirmed), obs(D1, "NY", "Kings", 2, Kind::Confirmed)]);
    let day = day_number(D1);
    assert_eq!(
        sorted(&merge(&a, &b)),
        vec![
            (day, "CA".to_string(), "Alpha".to_string(), 15, 0),
            (day, "CA".to_string(), "Beta".to_string(), 0, 1),
            (day, "NY".to_string(), "Kings".to_string(), 2, 0),
        ]
    );
}

#[test]
fn rerun_gives_identical_results() {
    let first = sorted(&aggregate(&scenario()));
    let second = sorted(&aggregate(&scenario()));
    assert_eq!(first, second);
    let g1 = graph_for(&bucket(&aggregate(&scenario()), day_number(D1))).unwrap();
    let g2 = graph_for(&bucket(&aggregate(&scenario()), day_number(D1))).unwrap();
    let flat = |g: &Graph| -> Vec<(String, Option<i64>, Option<i64>, Vec<String>)> {
        let mut v: Vec<_> = g.nodes.iter().map(|n| (n.name.clone(), n.confirmed, n.deaths, edges(n))).collect();
        v.sort();
        v
    };
    assert_eq!(g1.timestamp, g2.timestamp);
    assert_eq!(flat(&g1), flat(&g2));
}

#[test]
fn same_county_name_in_two_states_stays_apart() {
    let agg = aggregate(&vec![
        obs(D1, "CA", "Alpha", 10, Kind::Confirmed),
        obs(D1, "NY", "Alpha", 7, Kind::Confirmed),
    ]);
    assert_eq!(agg.len(), 2);
    let g = build_graph("t".to_string(), &agg);
    assert_eq!(node(&g, "CA - Alpha").confirmed, Some(10));
    assert_eq!(node(&g, "NY - Alpha").confirmed, Some(7));
    assert_ne!(county_key_of(&"CA".to_string(), &"Alpha".to_string()), county_key_of(&"NY".to_string(), &"Alpha".to_string()));
}

#[test]
fn unknown_kind_adds_nothing_and_does_not_fail() {
    assert_eq!(Kind::parse("Recovered"), Kind::Other);
    let agg = aggregate(&vec![
        obs(D1, "CA", "Alpha", 10, Kind::Confirmed),
        obs(D1, "CA", "Alpha", 99, Kind::parse("Recovered")),
        obs(D1, "WA", "King", 42, Kind::Other),
    ]);
    let day = day_number(D1);
    assert_eq!(
        sorted(&agg),
        vec![(day, "CA".to_string(), "Alpha".to_string(), 10, 0), (day, "WA".to_string(), "King".to_string(), 0, 0)]
    );
}

#[test]
fn kind_labels() {
    assert_eq!(Kind::parse("Confirmed"), Kind::Confirmed);
    assert_eq!(Kind::parse("Deaths"), Kind::Deaths);
    assert_eq!(Kind::parse("confirmed"), Kind::Other);
    assert_eq!(Kind::parse(""), Kind::Other);
}

#[test]
fn day_number_floors_to_utc_days() {
    assert_eq!(day_number(0), 0);
    assert_eq!(day_number(86_399_999), 0);
    assert_eq!(day_number(86_400_000), 1);
    assert_eq!(day_number(-1), -1);
    assert_eq!(day_number(-86_400_000), -1);
    assert_eq!(day_number(-86_400_001), -2);
    assert_eq!(day_number(D1 + 3_600_000), 18322);
}

#[test]
fn observations_within_one_day_share_a_bucket() {
    let agg = aggregate(&vec![
        obs(D1 + 1_000, "CA", "Alpha", 1, Kind::Confirmed),
        obs(D1 + 80_000_000, "CA", "Alpha", 2, Kind::Confirmed),
        obs(D1 + 86_400_000, "CA", "Alpha", 4, Kind::Confirmed),
    ]);
    assert_eq!(dates(&agg), vec![18322, 18323]);
    let bs = buckets(&agg);
    assert_eq!(bs.len(), 2);
    assert_eq!(bs[0].counties[0].confirmed, 3);
    assert_eq!(bs[1].counties[0].confirmed, 4);
    assert_eq!(graph_for(&bs[1]).unwrap().timestamp, "2020-03-02T00:00:00+00:00");
}

#[test]
fn empty_input_gives_no_buckets_and_empty_graphs() {
    let agg = aggregate(&Vec::new());
    assert!(agg.is_empty());
    assert!(buckets(&agg).is_empty());
    let g = build_graph("t".to_string(), &Vec::new());
    assert!(g.nodes.is_empty());
    assert_eq!(g.timestamp, "t");
}

#[test]
fn day_timestamps() {
    assert_eq!(day_timestamp(0), Some("1970-01-01T00:00:00+00:00".to_string()));
    assert_eq!(day_timestamp(-1), Some("1969-12-31T00:00:00+00:00".to_string()));
    assert_eq!(day_timestamp(i64::MAX), None);
    assert_eq!(day_timestamp(200_000_000), None);
}

fn county(state: &str, name: &str, confirmed: i64, deaths: i64) -> CountyAggregate {
    CountyAggregate { date: 0, state: state.to_string(), display_name: name.to_string(), confirmed, deaths }
}

#[test]
fn accumulator_overflow_is_detected() {
    assert!(checked_aggregate(&scenario()).is_some());
    assert!(checked_aggregate(&vec![obs(0, "A", "B", i64::MAX, Kind::Confirmed)]).is_some());
    // other kinds and other keys never count toward a bound
    let apart = vec![
        obs(0, "A", "B", i64::MAX, Kind::Confirmed),
        obs(0, "A", "B", i64::MAX, Kind::Other),
        obs(0, "A", "C", i64::MAX, Kind::Confirmed),
        obs(0, "A", "B", i64::MAX, Kind::Deaths),
    ];
    let agg = checked_aggregate(&apart).expect("no accumulator overflows");
    assert_eq!(
        sorted(&agg),
        vec![(0, "A".to_string(), "B".to_string(), i64::MAX, i64::MAX), (0, "A".to_string(), "C".to_string(), i64::MAX, 0)]
    );
    assert!(checked_aggregate(&vec![obs(0, "A", "B", i64::MAX, Kind::Confirmed), obs(0, "A", "B", 1, Kind::Confirmed)]).is_none());
    assert!(checked_aggregate(&vec![obs(0, "A", "B", i64::MIN, Kind::Deaths), obs(0, "A", "B", -1, Kind::Deaths)]).is_none());
    // a running total that overflows midway is caught even if later values bring it back
    assert!(checked_aggregate(&vec![
        obs(0, "A", "B", i64::MAX, Kind::Confirmed),
        obs(0, "A", "B", 1, Kind::Confirmed),
        obs(0, "A", "B", -1, Kind::Confirmed),
    ])
    .is_none());
}

#[test]
fn state_total_overflow_is_detected() {
    assert!(counties_fit(&vec![county("A", "B", i64::MAX, 1)]));
    assert!(counties_fit(&vec![county("A", "B", i64::MAX, 0), county("C", "D", i64::MAX, 0)]));
    assert!(!counties_fit(&vec![county("A", "B", i64::MAX, 0), county("A", "D", 1, 0)]));
    assert!(!counties_fit(&vec![county("A", "B", 0, i64::MIN), county("A", "D", 0, -1)]));
    assert!(try_build_graph("t".to_string(), &vec![county("A", "B", i64::MAX, 0), county("A", "D", 1, 0)]).is_none());
    let g = try_build_graph("t".to_string(), &vec![county("A", "B", i64::MAX, 1)]).unwrap();
    assert_eq!(node(&g, "A").confirmed, Some(i64::MAX));
    assert_eq!(node(&g, "A").deaths, Some(1));
}

#[test]
fn add_metric_starts_from_zero_and_accumulates() {
    let mut n = Node::named("CA".to_string());
    assert_eq!(n.confirmed, None);
    n.add_metric(Metric::Confirmed, 5);
    assert_eq!((n.confirmed, n.deaths), (Some(5), None));
    n.add_metric(Metric::Confirmed, 3);
    n.add_metric(Metric::Deaths, 0);
    assert_eq!((n.confirmed, n.deaths), (Some(8), Some(0)));
}

#[test]
fn add_edge_keeps_names_distinct() {
    let mut n = Node::named("CA".to_string());
    n.add_edge("CA - Alpha".to_string());
    n.add_edge("CA - Beta".to_string());
    n.add_edge("CA - Alpha".to_string());
    assert_eq!(n.edges, vec!["CA - Alpha".to_string(), "CA - Beta".to_string()]);
}

#[test]
fn county_keys_join_with_separator() {
    assert_eq!(county_key_of(&"CA".to_string(), &"Alpha".to_string()), "CA - Alpha");
    assert_eq!(county_key_of(&"".to_string(), &"".to_string()), " - ");
}
