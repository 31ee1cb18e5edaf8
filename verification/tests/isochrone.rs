use chrono::NaiveDate;
use fastreach_core::graph::{Error, Graph};
use fastreach_core::isochrone::{EdgeLengths, IsochroneDijsktra, TimedNode};

const MINUTE: i64 = 60_000;

fn station(blob: &mut Vec<u8>, id: u64) {
    blob.extend_from_slice(&id.to_le_bytes());
    blob.extend_from_slice(&50.0f32.to_le_bytes());
    blob.extend_from_slice(&11.0f32.to_le_bytes());
    blob.extend_from_slice(&0u32.to_le_bytes());
}

fn period(start: u32, end: u32, valid_days: &[u8]) -> Vec<u8> {
    let mut out = Vec::new();
    out.extend_from_slice(&start.to_le_bytes());
    out.extend_from_slice(&end.to_le_bytes());
    out.extend_from_slice(&(valid_days.len() as u32).to_le_bytes());
    out.extend_from_slice(valid_days);
    out
}

struct EdgeSpec {
    source: u32,
    destination: u32,
    walk: u16,
    journeys: Vec<(u16, u16, u16)>,
    periods: Vec<Vec<u8>>,
    length: u64,
}

fn walk_edge(source: u32, destination: u32, seconds: u16, length: u64) -> EdgeSpec {
    EdgeSpec {
        source,
        destination,
        walk: seconds,
        journeys: vec![],
        periods: vec![],
        length,
    }
}

fn ride_edge(
    source: u32,
    destination: u32,
    departure: u16,
    arrival: u16,
    valid_days: &[u8],
    length: u64,
) -> EdgeSpec {
    EdgeSpec {
        source,
        destination,
        walk: 0xFFFF,
        journeys: vec![(arrival, departure, 0)],
        periods: vec![period(231_018, 231_025, valid_days)],
        length,
    }
}

fn blob_of(stations: u32, edges: &[EdgeSpec]) -> Vec<u8> {
    let mut blob = Vec::new();
    blob.extend_from_slice(&stations.to_le_bytes());
    for i in 0..stations {
        station(&mut blob, 1000 + u64::from(i));
    }
    blob.extend_from_slice(&(edges.len() as u32).to_le_bytes());
    for e in edges {
        blob.extend_from_slice(&e.source.to_le_bytes());
        blob.extend_from_slice(&e.destination.to_le_bytes());
        blob.extend_from_slice(&e.walk.to_le_bytes());
        blob.extend_from_slice(&((e.journeys.len() * 6) as u32).to_le_bytes());
        for (arrival, departure, index) in &e.journeys {
            blob.extend_from_slice(&arrival.to_le_bytes());
            blob.extend_from_slice(&departure.to_le_bytes());
            blob.extend_from_slice(&index.to_le_bytes());
        }
        let total: usize = e.periods.iter().map(|p| p.len()).sum();
        blob.extend_from_slice(&(total as u32).to_le_bytes());
        for p in &e.periods {
            blob.extend_from_slice(p);
        }
    }
    blob
}

fn lengths_of(stations: u32, edges: &[EdgeSpec]) -> Vec<Vec<u64>> {
    let mut table = vec![Vec::new(); stations as usize];
    for e in edges {
        table[e.source as usize].push(e.length);
    }
    table
}

fn at(day: u32, minutes: u32, seconds: u32) -> i64 {
    NaiveDate::from_ymd_opt(2023, 10, day)
        .unwrap()
        .and_hms_opt(minutes / 60, minutes % 60, seconds)
        .unwrap()
        .and_utc()
        .timestamp_millis()
}

fn search(
    stations: u32,
    edges: &[EdgeSpec],
    source: usize,
    start: i64,
    budget: i64,
) -> Result<Vec<TimedNode>, Error> {
    let blob = blob_of(stations, edges);
    let graph = Graph::from_slice(&blob).expect("well-formed blob");
    let lengths = EdgeLengths::new(&graph, lengths_of(stations, edges)).expect("one per edge");
    let mut algo = IsochroneDijsktra::new(&graph, &lengths);
    algo.nodes_within(source, start, budget)
}

#[test]
fn trivial_budget_reaches_only_the_source() {
    let edges = [walk_edge(0, 1, 0, 500_000), walk_edge(1, 0, 10, 500_000)];
    let reached = search(2, &edges, 1, at(18, 600, 0), 0).unwrap();
    assert_eq!(reached, vec![TimedNode::new(1, 0)]);
    let edges = [walk_edge(0, 1, 1, 500_000)];
    let reached = search(2, &edges, 0, at(18, 600, 0), 0).unwrap();
    assert_eq!(reached, vec![TimedNode::new(0, 0)]);
}

#[test]
fn walk_only_edge() {
    let edges = [walk_edge(0, 1, 300, 500_000)];
    let reached = search(2, &edges, 0, at(18, 600, 0), 6 * MINUTE).unwrap();
    assert_eq!(
        reached,
        vec![TimedNode::new(0, 6 * MINUTE), TimedNode::new(1, MINUTE)]
    );
}

#[test]
fn walk_that_ends_with_the_budget_counts() {
    let edges = [walk_edge(0, 1, 360, 600_000)];
    let reached = search(2, &edges, 0, at(18, 600, 0), 6 * MINUTE).unwrap();
    assert_eq!(
        reached,
        vec![TimedNode::new(0, 6 * MINUTE), TimedNode::new(1, 0)]
    );
    // A cap that only touches the rim of the cap before it adds no ground.
    let edges = [walk_edge(0, 1, 360, 500_000)];
    let reached = search(2, &edges, 0, at(18, 600, 0), 6 * MINUTE).unwrap();
    assert_eq!(reached, vec![TimedNode::new(0, 6 * MINUTE)]);
    let edges = [walk_edge(0, 1, 361, 600_000)];
    let reached = search(2, &edges, 0, at(18, 600, 0), 6 * MINUTE).unwrap();
    assert_eq!(reached, vec![TimedNode::new(0, 6 * MINUTE)]);
}

#[test]
fn scheduled_ride() {
    let edges = [ride_edge(0, 1, 600, 610, &[1], 2_000_000)];
    let reached = search(2, &edges, 0, at(18, 600, 0), 30 * MINUTE).unwrap();
    assert_eq!(
        reached,
        vec![
            TimedNode::new(0, 30 * MINUTE),
            TimedNode::new(1, 20 * MINUTE)
        ]
    );
    let reached = search(2, &edges, 0, at(18, 601, 0), 30 * MINUTE).unwrap();
    assert_eq!(reached, vec![TimedNode::new(0, 30 * MINUTE)]);
}

#[test]
fn ride_is_missed_by_one_millisecond() {
    let edges = [ride_edge(0, 1, 600, 610, &[1], 2_000_000)];
    let reached = search(2, &edges, 0, at(18, 600, 0) + 1, 30 * MINUTE).unwrap();
    assert_eq!(reached, vec![TimedNode::new(0, 30 * MINUTE)]);
    let reached = search(2, &edges, 0, at(18, 600, 0) - 1, 30 * MINUTE).unwrap();
    assert_eq!(
        reached,
        vec![
            TimedNode::new(0, 30 * MINUTE),
            TimedNode::new(1, 20 * MINUTE - 1)
        ]
    );
}

#[test]
fn midnight_wrap() {
    let edges = [ride_edge(0, 1, 1430, 10, &[1], 9_000_000)];
    let reached = search(2, &edges, 0, at(18, 1425, 0), 30 * MINUTE).unwrap();
    assert_eq!(
        reached,
        vec![
            TimedNode::new(0, 30 * MINUTE),
            TimedNode::new(1, 5 * MINUTE)
        ]
    );
    let reached = search(2, &edges, 0, at(18, 1425, 0), 25 * MINUTE - 1).unwrap();
    assert_eq!(reached, vec![TimedNode::new(0, 25 * MINUTE - 1)]);
}

#[test]
fn calendar_exclusion() {
    let edges = [ride_edge(0, 1, 600, 610, &[0b1111_1110], 2_000_000)];
    let reached = search(2, &edges, 0, at(18, 600, 0), 30 * MINUTE).unwrap();
    assert_eq!(reached, vec![TimedNode::new(0, 30 * MINUTE)]);
    let reached = search(2, &edges, 0, at(19, 600, 0), 30 * MINUTE).unwrap();
    assert_eq!(
        reached,
        vec![
            TimedNode::new(0, 30 * MINUTE),
            TimedNode::new(1, 20 * MINUTE)
        ]
    );
    let reached = search(2, &edges, 0, at(17, 600, 0), 30 * MINUTE).unwrap();
    assert_eq!(reached, vec![TimedNode::new(0, 30 * MINUTE)]);
    let reached = search(2, &edges, 0, at(26, 600, 0), 30 * MINUTE).unwrap();
    assert_eq!(reached, vec![TimedNode::new(0, 30 * MINUTE)]);
}

#[test]
fn no_search_on_the_next_day() {
    let edges = [ride_edge(0, 1, 5, 15, &[0xFF], 2_000_000)];
    let reached = search(2, &edges, 0, at(18, 1435, 0), 60 * MINUTE).unwrap();
    assert_eq!(reached, vec![TimedNode::new(0, 60 * MINUTE)]);
}

#[test]
fn shorter_of_walk_and_ride() {
    let mut edge = ride_edge(0, 1, 600, 610, &[1], 2_000_000);
    edge.walk = 540;
    let reached = search(2, &[edge], 0, at(18, 600, 0), 30 * MINUTE).unwrap();
    assert_eq!(
        reached,
        vec![
            TimedNode::new(0, 30 * MINUTE),
            TimedNode::new(1, 21 * MINUTE)
        ]
    );
    let mut edge = ride_edge(0, 1, 600, 610, &[1], 2_000_000);
    edge.walk = 660;
    let reached = search(2, &[edge], 0, at(18, 600, 0), 30 * MINUTE).unwrap();
    assert_eq!(
        reached,
        vec![
            TimedNode::new(0, 30 * MINUTE),
            TimedNode::new(1, 20 * MINUTE)
        ]
    );
}

#[test]
fn station_inside_the_cap_of_its_predecessor_is_dropped() {
    // 60 s on foot over 50 m: the new cap reaches 50 m + 0 m, the old one 83 m.
    let edges = [walk_edge(0, 1, 30, 50_000)];
    let reached = search(2, &edges, 0, at(18, 600, 0), MINUTE).unwrap();
    assert_eq!(reached, vec![TimedNode::new(0, MINUTE)]);
    // With half the budget neither cap has a radius, and the station counts.
    let reached = search(2, &edges, 0, at(18, 600, 0), MINUTE / 2).unwrap();
    assert_eq!(
        reached,
        vec![TimedNode::new(0, MINUTE / 2), TimedNode::new(1, 0)]
    );
}

#[test]
fn dropped_station_is_still_passed_through() {
    let edges = [walk_edge(0, 1, 30, 50_000), walk_edge(1, 2, 30, 400_000)];
    let reached = search(3, &edges, 0, at(18, 600, 0), 2 * MINUTE).unwrap();
    assert_eq!(
        reached,
        vec![TimedNode::new(0, 2 * MINUTE), TimedNode::new(2, MINUTE)]
    );
}

#[test]
fn better_arrival_replaces_the_first() {
    let edges = [
        walk_edge(0, 2, 600, 3_000_000),
        walk_edge(0, 1, 60, 1_000_000),
        walk_edge(1, 2, 60, 2_000_000),
    ];
    let reached = search(3, &edges, 0, at(18, 600, 0), 20 * MINUTE).unwrap();
    assert_eq!(
        reached,
        vec![
            TimedNode::new(0, 20 * MINUTE),
            TimedNode::new(2, 18 * MINUTE),
            TimedNode::new(1, 19 * MINUTE),
        ]
    );
}

#[test]
fn cycle_ends() {
    let edges = [walk_edge(0, 1, 0, 1_000_000), walk_edge(1, 0, 0, 1_000_000)];
    let reached = search(2, &edges, 0, at(18, 600, 0), 5 * MINUTE).unwrap();
    assert_eq!(
        reached,
        vec![TimedNode::new(0, 5 * MINUTE), TimedNode::new(1, 5 * MINUTE)]
    );
}

#[test]
fn larger_budget_reaches_further_along_a_line() {
    let edges = [
        walk_edge(0, 1, 120, 1_000_000),
        walk_edge(1, 2, 120, 1_000_000),
        walk_edge(2, 3, 120, 1_000_000),
    ];
    let mut seen = 0;
    for minutes in 0..8 {
        let reached = search(4, &edges, 0, at(18, 600, 0), minutes * MINUTE).unwrap();
        assert!(reached.len() >= seen);
        seen = reached.len();
        assert_eq!(reached.len() as i64, 1 + (minutes / 2).min(3));
        assert_eq!(reached[0], TimedNode::new(0, minutes * MINUTE));
        for t in &reached {
            assert_eq!(t.duration, minutes * MINUTE - 2 * MINUTE * t.node as i64);
        }
    }
}

#[test]
fn negative_budget_returns_the_source() {
    let edges = [walk_edge(0, 1, 0, 1_000_000)];
    let reached = search(2, &edges, 0, at(18, 600, 0), -5).unwrap();
    assert_eq!(reached, vec![TimedNode::new(0, -5)]);
}

#[test]
fn unknown_source_is_invalid_input() {
    let edges = [walk_edge(0, 1, 0, 1_000_000)];
    assert_eq!(
        search(2, &edges, 2, at(18, 600, 0), MINUTE),
        Err(Error::InvalidInput)
    );
    assert_eq!(
        search(0, &[], 0, at(18, 600, 0), MINUTE),
        Err(Error::InvalidInput)
    );
}

#[test]
fn period_index_out_of_range_is_malformed() {
    let mut edge = ride_edge(0, 1, 600, 610, &[1], 2_000_000);
    edge.journeys[0].2 = 1;
    assert_eq!(
        search(2, &[edge], 0, at(18, 600, 0), 30 * MINUTE),
        Err(Error::MalformedGraph)
    );
    // A journey that has left is not looked at.
    let mut edge = ride_edge(0, 1, 600, 610, &[1], 2_000_000);
    edge.journeys[0].2 = 1;
    assert!(search(2, &[edge], 0, at(18, 601, 0), 30 * MINUTE).is_ok());
}

#[test]
fn impossible_date_is_malformed() {
    let mut edge = ride_edge(0, 1, 600, 610, &[1], 2_000_000);
    edge.periods = vec![period(230_230, 231_025, &[1])];
    assert_eq!(
        search(2, &[edge], 0, at(18, 600, 0), 30 * MINUTE),
        Err(Error::MalformedGraph)
    );
    let mut edge = ride_edge(0, 1, 600, 610, &[1], 2_000_000);
    edge.periods = vec![period(231_018, 1_280_101, &[1])];
    assert_eq!(
        search(2, &[edge], 0, at(18, 600, 0), 30 * MINUTE),
        Err(Error::MalformedGraph)
    );
}

#[test]
fn minute_outside_the_day_is_malformed() {
    let edge = ride_edge(0, 1, 1440, 10, &[1], 2_000_000);
    assert_eq!(
        search(2, &[edge], 0, at(18, 600, 0), 30 * MINUTE),
        Err(Error::MalformedGraph)
    );
    let edge = ride_edge(0, 1, 600, 1440, &[1], 2_000_000);
    assert_eq!(
        search(2, &[edge], 0, at(18, 600, 0), 30 * MINUTE),
        Err(Error::MalformedGraph)
    );
}

#[test]
fn bitmap_too_short_is_malformed() {
    let edge = ride_edge(0, 1, 600, 610, &[], 2_000_000);
    assert_eq!(
        search(2, &[edge], 0, at(18, 600, 0), 30 * MINUTE),
        Err(Error::MalformedGraph)
    );
}

#[test]
fn lengths_must_match_the_graph() {
    let edges = [walk_edge(0, 1, 0, 1_000_000)];
    let blob = blob_of(2, &edges);
    let graph = Graph::from_slice(&blob).unwrap();
    assert!(EdgeLengths::new(&graph, vec![vec![1], vec![]]).is_some());
    assert!(EdgeLengths::new(&graph, vec![vec![1]]).is_none());
    assert!(EdgeLengths::new(&graph, vec![vec![], vec![1]]).is_none());
    assert!(EdgeLengths::new(&graph, vec![vec![1, 2], vec![]]).is_none());
    let lengths = EdgeLengths::new(&graph, vec![vec![7], vec![]]).unwrap();
    assert_eq!(lengths.get(0, 0), 7);
}

#[test]
fn valid_on_first_day_is_lowest_bit() {
    for (bitmap, expected) in [
        (&[1u8][..], true),
        (&[0xFE][..], false),
        (&[3, 0][..], true),
    ] {
        let edge = ride_edge(0, 1, 600, 610, bitmap, 2_000_000);
        let blob = blob_of(2, &[edge]);
        let graph = Graph::from_slice(&blob).unwrap();
        let first = graph.nodes[0].edge(0).operating_periods().next().unwrap();
        let day = at(18, 0, 0) / 86_400_000;
        assert_eq!(IsochroneDijsktra::valid_on(&first, day), Ok(expected));
        assert_eq!(IsochroneDijsktra::valid_on(&first, day - 1), Ok(false));
    }
    let edge = ride_edge(0, 1, 600, 610, &[0b0100_0000, 0b1], 2_000_000);
    let blob = blob_of(2, &[edge]);
    let graph = Graph::from_slice(&blob).unwrap();
    let first = graph.nodes[0].edge(0).operating_periods().next().unwrap();
    let day = at(18, 0, 0) / 86_400_000;
    assert_eq!(IsochroneDijsktra::valid_on(&first, day + 5), Ok(false));
    assert_eq!(IsochroneDijsktra::valid_on(&first, day + 6), Ok(true));
    assert_eq!(IsochroneDijsktra::valid_on(&first, day + 7), Ok(false));
    assert_eq!(IsochroneDijsktra::valid_on(&first, day + 8), Ok(false));
}

#[test]
fn earliest_departure_is_caught() {
    let mut edge = ride_edge(0, 1, 620, 640, &[1], 2_000_000);
    edge.journeys = vec![(640, 620, 0), (615, 605, 0), (700, 590, 0), (612, 605, 0)];
    let blob = blob_of(2, &[edge]);
    let graph = Graph::from_slice(&blob).unwrap();
    let lengths = EdgeLengths::new(&graph, vec![vec![1], vec![]]).unwrap();
    let mut algo = IsochroneDijsktra::new(&graph, &lengths);
    let e = graph.nodes[0].edge(0);
    let day = at(18, 0, 0) / 86_400_000;
    let caught = algo.next_journey(e, day, 600 * 60_000).unwrap().unwrap();
    assert_eq!((caught.departure(), caught.arrival()), (605, 612));
    assert_eq!(
        algo.next_journey_duration(e, day, 600 * 60_000),
        Ok(Some(12 * MINUTE))
    );
    let caught = algo.next_journey(e, day, 606 * 60_000).unwrap().unwrap();
    assert_eq!((caught.departure(), caught.arrival()), (620, 640));
    assert!(algo.next_journey(e, day, 621 * 60_000).unwrap().is_none());
    assert_eq!(algo.next_journey_duration(e, day, 621 * 60_000), Ok(None));
    assert_eq!(
        algo.next_journey_duration(e, day + 1, 600 * 60_000),
        Ok(None)
    );
    assert_eq!(IsochroneDijsktra::get_walk(e), None);
}

#[test]
fn walk_is_in_seconds() {
    let blob = blob_of(2, &[walk_edge(0, 1, 65_534, 1), walk_edge(0, 1, 0, 1)]);
    let graph = Graph::from_slice(&blob).unwrap();
    assert_eq!(
        IsochroneDijsktra::get_walk(graph.nodes[0].edge(0)),
        Some(65_534_000)
    );
    assert_eq!(IsochroneDijsktra::get_walk(graph.nodes[0].edge(1)), Some(0));
}
