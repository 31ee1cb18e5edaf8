use fastreach_core::graph::{Error, Graph};

fn station(blob: &mut Vec<u8>, id: u64, lat: f32, lon: f32, name: &[u8]) {
    blob.extend_from_slice(&id.to_le_bytes());
    blob.extend_from_slice(&lat.to_le_bytes());
    blob.extend_from_slice(&lon.to_le_bytes());
    blob.extend_from_slice(&(name.len() as u32).to_le_bytes());
    blob.extend_from_slice(name);
}

fn period(start: u32, end: u32, valid_days: &[u8]) -> Vec<u8> {
    let mut out = Vec::new();
    out.extend_from_slice(&start.to_le_bytes());
    out.extend_from_slice(&end.to_le_bytes());
    out.extend_from_slice(&(valid_days.len() as u32).to_le_bytes());
    out.extend_from_slice(valid_days);
    out
}

fn edge(
    blob: &mut Vec<u8>,
    source: u32,
    destination: u32,
    walk: u16,
    journeys: &[(u16, u16, u16)],
    periods: &[Vec<u8>],
) {
    blob.extend_from_slice(&source.to_le_bytes());
    blob.extend_from_slice(&destination.to_le_bytes());
    blob.extend_from_slice(&walk.to_le_bytes());
    blob.extend_from_slice(&((journeys.len() * 6) as u32).to_le_bytes());
    for (arrival, departure, index) in journeys {
        blob.extend_from_slice(&arrival.to_le_bytes());
        blob.extend_from_slice(&departure.to_le_bytes());
        blob.extend_from_slice(&index.to_le_bytes());
    }
    let total: usize = periods.iter().map(|p| p.len()).sum();
    blob.extend_from_slice(&(total as u32).to_le_bytes());
    for p in periods {
        blob.extend_from_slice(p);
    }
}

fn two_stations() -> Vec<u8> {
    let mut blob = Vec::new();
    blob.extend_from_slice(&2u32.to_le_bytes());
    station(&mut blob, 77, 50.5, 11.25, "Anger".as_bytes());
    station(
        &mut blob,
        13_973_471_588_854_917_578,
        50.75,
        11.5,
        "Hauptbahnhof".as_bytes(),
    );
    blob.extend_from_slice(&2u32.to_le_bytes());
    edge(
        &mut blob,
        1,
        0,
        300,
        &[(610, 600, 0), (700, 690, 1)],
        &[
            period(231_018, 231_020, &[0b101]),
            period(231_018, 231_018, &[1, 2, 3]),
        ],
    );
    edge(&mut blob, 0, 1, 0xFFFF, &[], &[]);
    blob
}

#[test]
fn parses_stations_and_edges() {
    let blob = two_stations();
    let graph = Graph::from_slice(&blob).expect("well-formed blob");
    assert_eq!(graph.nodes.len(), 2);
    assert_eq!(graph.nodes[0].id(), 77);
    assert_eq!(graph.nodes[1].id(), 13_973_471_588_854_917_578);
    assert_eq!(f32::from_bits(graph.nodes[0].lat()), 50.5);
    assert_eq!(f32::from_bits(graph.nodes[0].lon()), 11.25);
    assert_eq!(graph.nodes[1].name(), Ok("Hauptbahnhof"));
    assert_eq!(graph.ids.get(&77), Some(&0));
    assert_eq!(graph.ids.get(&13_973_471_588_854_917_578), Some(&1));
    assert_eq!(graph.ids.get(&5), None);
    assert_eq!(graph.nodes[0].edge_count(), 1);
    assert_eq!(graph.nodes[1].edge_count(), 1);
    let ride = graph.nodes[1].edge(0);
    assert_eq!(ride.start(), 1);
    assert_eq!(ride.end(), 0);
    assert_eq!(ride.walk(), 300);
    assert_eq!(ride.journey_count(), 2);
    let journeys = ride.journeys();
    assert_eq!(journeys.len(), 2);
    assert_eq!(journeys[0].arrival(), 610);
    assert_eq!(journeys[0].departure(), 600);
    assert_eq!(journeys[0].operating_period_index(), 0);
    assert_eq!(journeys[1].arrival(), 700);
    assert_eq!(ride.journey(1).departure(), 690);
    assert_eq!(ride.journey(1).operating_period_index(), 1);
    let mut periods = ride.operating_periods();
    let first = periods.next().expect("first period");
    assert_eq!(first.start(), 231_018);
    assert_eq!(first.end(), 231_020);
    assert_eq!(first.valid_days(), &[0b101u8][..]);
    let second = periods.next().expect("second period");
    assert_eq!(second.valid_days(), &[1u8, 2, 3][..]);
    assert!(periods.next().is_none());
    assert!(periods.next().is_none());
    let walk_only = graph.nodes[0].edge(0);
    assert_eq!(walk_only.walk(), 0xFFFF);
    assert_eq!(walk_only.journey_count(), 0);
    assert!(walk_only.operating_periods().next().is_none());
}

#[test]
fn rejects_truncated_blob() {
    let blob = two_stations();
    for cut in 0..blob.len() {
        assert!(
            matches!(Graph::from_slice(&blob[..cut]), Err(Error::MalformedGraph)),
            "prefix of {cut} bytes"
        );
    }
    assert!(Graph::from_slice(&blob).is_ok());
}

#[test]
fn rejects_edge_to_missing_station() {
    let mut blob = Vec::new();
    blob.extend_from_slice(&1u32.to_le_bytes());
    station(&mut blob, 1, 0.0, 0.0, &[]);
    blob.extend_from_slice(&1u32.to_le_bytes());
    edge(&mut blob, 0, 1, 10, &[], &[]);
    assert!(matches!(
        Graph::from_slice(&blob),
        Err(Error::MalformedGraph)
    ));
    let mut blob = Vec::new();
    blob.extend_from_slice(&1u32.to_le_bytes());
    station(&mut blob, 1, 0.0, 0.0, &[]);
    blob.extend_from_slice(&1u32.to_le_bytes());
    edge(&mut blob, 1, 0, 10, &[], &[]);
    assert!(matches!(
        Graph::from_slice(&blob),
        Err(Error::MalformedGraph)
    ));
}

#[test]
fn empty_graph_and_trailing_bytes() {
    let mut blob = Vec::new();
    blob.extend_from_slice(&0u32.to_le_bytes());
    blob.extend_from_slice(&0u32.to_le_bytes());
    {
        let graph = Graph::from_slice(&blob).expect("empty graph");
        assert_eq!(graph.nodes.len(), 0);
        assert!(graph.ids.is_empty());
    }
    blob.extend_from_slice(&[9, 9, 9]);
    assert!(Graph::from_slice(&blob).is_ok());
}

#[test]
fn name_that_is_not_utf8() {
    let mut blob = Vec::new();
    blob.extend_from_slice(&1u32.to_le_bytes());
    station(&mut blob, 1, 0.0, 0.0, &[0xC3, 0x28]);
    blob.extend_from_slice(&0u32.to_le_bytes());
    let graph = Graph::from_slice(&blob).expect("names are not checked on parse");
    assert_eq!(graph.nodes[0].name(), Err(Error::MalformedGraph));
}

#[test]
fn later_station_wins_shared_identifier() {
    let mut blob = Vec::new();
    blob.extend_from_slice(&3u32.to_le_bytes());
    station(&mut blob, 5, 0.0, 0.0, "a".as_bytes());
    station(&mut blob, 6, 0.0, 0.0, "b".as_bytes());
    station(&mut blob, 5, 0.0, 0.0, "c".as_bytes());
    blob.extend_from_slice(&0u32.to_le_bytes());
    let graph = Graph::from_slice(&blob).expect("well-formed blob");
    assert_eq!(graph.ids.get(&5), Some(&2));
    assert_eq!(graph.ids.get(&6), Some(&1));
    assert_eq!(graph.ids.len(), 2);
}

#[test]
fn truncated_period_ends_the_list() {
    let mut blob = Vec::new();
    blob.extend_from_slice(&1u32.to_le_bytes());
    station(&mut blob, 1, 0.0, 0.0, &[]);
    blob.extend_from_slice(&1u32.to_le_bytes());
    let mut cut = period(231_018, 231_020, &[1, 2]);
    cut.pop();
    edge(
        &mut blob,
        0,
        0,
        10,
        &[(1, 2, 3)],
        &[period(231_018, 231_018, &[1]), cut],
    );
    let graph = Graph::from_slice(&blob).expect("periods are not checked on parse");
    let mut periods = graph.nodes[0].edge(0).operating_periods();
    assert!(periods.next().is_some());
    assert!(periods.next().is_none());
}
