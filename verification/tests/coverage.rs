use fastreach_core::coverage::{
    cap_radius_thirds, covers_new_ground, dedup_by_coords, dedup_by_coverage, lies_strictly_inside,
    Separation,
};
use fastreach_core::graph::{Error, Graph};
use fastreach_core::isochrone::TimedNode;
use fastreach_core::places::{coverage_candidates, ordered_key, CapBox};
use geo::{Destination, Distance, Haversine, Point};

const MINUTE: i64 = 60_000;

fn blob_of(stations: &[(f32, f32)]) -> Vec<u8> {
    let mut blob = Vec::new();
    blob.extend_from_slice(&(stations.len() as u32).to_le_bytes());
    for (i, (lat, lon)) in stations.iter().enumerate() {
        blob.extend_from_slice(&(i as u64).to_le_bytes());
        blob.extend_from_slice(&lat.to_le_bytes());
        blob.extend_from_slice(&lon.to_le_bytes());
        blob.extend_from_slice(&0u32.to_le_bytes());
    }
    blob.extend_from_slice(&0u32.to_le_bytes());
    blob
}

fn millimetres(a: (f32, f32), b: (f32, f32)) -> u64 {
    let metres: f64 = Haversine.distance(
        Point::new(f64::from(a.1), f64::from(a.0)),
        Point::new(f64::from(b.1), f64::from(b.0)),
    );
    (metres * 1000.0).round() as u64
}

fn cap_box(centre: (f32, f32), remaining: i64) -> CapBox {
    let radius = 1000.0f32 / 12.0 * (remaining / MINUTE) as f32;
    let origin = Point::new(centre.1, centre.0);
    let upper = Haversine.destination(origin, 45.0, radius);
    let lower = Haversine.destination(origin, 225.0, radius);
    CapBox {
        lower_lat: lower.y().to_bits(),
        lower_lon: lower.x().to_bits(),
        upper_lat: upper.y().to_bits(),
        upper_lon: upper.x().to_bits(),
    }
}

#[test]
fn radius_is_a_twelfth_of_a_kilometre_per_whole_minute() {
    assert_eq!(cap_radius_thirds(0), 0);
    assert_eq!(cap_radius_thirds(59_999), 0);
    assert_eq!(cap_radius_thirds(MINUTE), 250_000);
    assert_eq!(cap_radius_thirds(12 * MINUTE), 3_000_000);
    assert_eq!(cap_radius_thirds(12 * MINUTE + 59_999), 3_000_000);
    assert_eq!(cap_radius_thirds(-MINUTE), 0);
    assert_eq!(
        cap_radius_thirds(i64::MAX),
        250_000 * (i64::MAX as u128 / 60_000)
    );
}

#[test]
fn guard_compares_far_sides() {
    // 500 m apart, 6 min and 1 min left: 500 + 83.3 > 500.
    assert!(covers_new_ground(500_000, 6 * MINUTE, MINUTE));
    // 416.6 m is where the far sides meet.
    assert!(!covers_new_ground(416_666, 6 * MINUTE, MINUTE));
    assert!(covers_new_ground(416_667, 6 * MINUTE, MINUTE));
    assert!(!covers_new_ground(0, MINUTE, MINUTE));
    assert!(covers_new_ground(1, MINUTE, MINUTE));
    assert!(covers_new_ground(u64::MAX, i64::MAX, 0));
    assert!(!covers_new_ground(0, i64::MAX, 0));
}

#[test]
fn strictly_inside_excludes_the_rim() {
    assert!(lies_strictly_inside(416_666, MINUTE, 6 * MINUTE));
    assert!(!lies_strictly_inside(416_667, MINUTE, 6 * MINUTE));
    // 250 m apart, nothing and 3 min left: the rim is at 250 m.
    assert!(!lies_strictly_inside(250_000, 0, 3 * MINUTE));
    assert!(lies_strictly_inside(249_999, 0, 3 * MINUTE));
    assert!(!lies_strictly_inside(0, MINUTE, MINUTE));
}

#[test]
fn dedup_by_coords_keeps_the_best_of_each_place() {
    let blob = blob_of(&[
        (50.0, 11.0),
        (50.0, 11.0),
        (50.0, 11.5),
        (50.0, 11.0),
        (50.0, 11.5),
    ]);
    let graph = Graph::from_slice(&blob).unwrap();
    let reached = vec![
        TimedNode::new(0, 5 * MINUTE),
        TimedNode::new(2, 3 * MINUTE),
        TimedNode::new(1, 7 * MINUTE),
        TimedNode::new(4, 3 * MINUTE),
        TimedNode::new(3, 7 * MINUTE),
    ];
    let kept = dedup_by_coords(&graph, &reached).unwrap();
    assert_eq!(
        kept,
        vec![TimedNode::new(1, 7 * MINUTE), TimedNode::new(2, 3 * MINUTE)]
    );
    assert_eq!(dedup_by_coords(&graph, &kept).unwrap(), kept);
    assert_eq!(dedup_by_coords(&graph, &Vec::new()).unwrap(), Vec::new());
}

#[test]
fn dedup_by_coords_tells_bit_patterns_apart() {
    let close = f32::from_bits(50.0f32.to_bits() + 1);
    let blob = blob_of(&[(50.0, 11.0), (close, 11.0), (0.0, 0.0), (-0.0, 0.0)]);
    let graph = Graph::from_slice(&blob).unwrap();
    let reached = vec![
        TimedNode::new(0, MINUTE),
        TimedNode::new(1, 2 * MINUTE),
        TimedNode::new(2, MINUTE),
        TimedNode::new(3, 2 * MINUTE),
    ];
    assert_eq!(dedup_by_coords(&graph, &reached).unwrap(), reached);
}

#[test]
fn dedup_by_coords_rejects_unknown_station() {
    let blob = blob_of(&[(50.0, 11.0)]);
    let graph = Graph::from_slice(&blob).unwrap();
    let reached = vec![TimedNode::new(0, MINUTE), TimedNode::new(1, MINUTE)];
    assert_eq!(dedup_by_coords(&graph, &reached), Err(Error::InvalidInput));
}

#[test]
fn coverage_dominance() {
    // A, B and C on one meridian, with radii of 10 km, 3 km and 3 km.
    let a = TimedNode::new(0, 120 * MINUTE);
    let b = TimedNode::new(1, 36 * MINUTE);
    let c = TimedNode::new(2, 36 * MINUTE);
    let pairs = vec![
        Separation {
            outer: 0,
            inner: 1,
            distance: 5_000_000,
        },
        Separation {
            outer: 0,
            inner: 2,
            distance: 6_000_000,
        },
        Separation {
            outer: 1,
            inner: 0,
            distance: 5_000_000,
        },
        Separation {
            outer: 2,
            inner: 0,
            distance: 6_000_000,
        },
        Separation {
            outer: 1,
            inner: 2,
            distance: 1_000_000,
        },
        Separation {
            outer: 2,
            inner: 1,
            distance: 1_000_000,
        },
    ];
    assert_eq!(dedup_by_coverage(&vec![b, a, c], &rotate(&pairs)), vec![a]);
    // C moves out to where its far side passes the rim of A.
    let mut wider = rotate(&pairs);
    wider[1].distance = 7_000_000;
    wider[3].distance = 7_000_000;
    assert_eq!(dedup_by_coverage(&vec![b, a, c], &wider), vec![a, c]);
}

/// The pairs of `coverage_dominance` for the order B, A, C.
fn rotate(pairs: &[Separation]) -> Vec<Separation> {
    let place = [1usize, 0, 2];
    pairs
        .iter()
        .map(|p| Separation {
            outer: place[p.outer],
            inner: place[p.inner],
            distance: p.distance,
        })
        .collect()
}

#[test]
fn dedup_by_coverage_orders_by_remaining() {
    let stations = vec![
        TimedNode::new(0, 3 * MINUTE),
        TimedNode::new(1, 9 * MINUTE),
        TimedNode::new(2, 3 * MINUTE),
        TimedNode::new(3, 5 * MINUTE),
        TimedNode::new(4, 9 * MINUTE),
    ];
    let kept = dedup_by_coverage(&stations, &Vec::new());
    assert_eq!(
        kept,
        vec![
            TimedNode::new(1, 9 * MINUTE),
            TimedNode::new(4, 9 * MINUTE),
            TimedNode::new(3, 5 * MINUTE),
            TimedNode::new(0, 3 * MINUTE),
            TimedNode::new(2, 3 * MINUTE),
        ]
    );
    assert_eq!(dedup_by_coverage(&kept, &Vec::new()), kept);
}

#[test]
fn dedup_by_coverage_ignores_pairs_that_show_nothing() {
    let stations = vec![TimedNode::new(0, 9 * MINUTE), TimedNode::new(1, MINUTE)];
    let pairs = vec![
        Separation {
            outer: 1,
            inner: 1,
            distance: 0,
        },
        Separation {
            outer: 0,
            inner: 0,
            distance: 0,
        },
        Separation {
            outer: 2,
            inner: 1,
            distance: 0,
        },
        Separation {
            outer: 0,
            inner: 2,
            distance: 0,
        },
        Separation {
            outer: 1,
            inner: 0,
            distance: 0,
        },
        Separation {
            outer: 0,
            inner: 1,
            distance: 666_667,
        },
    ];
    assert_eq!(dedup_by_coverage(&stations, &pairs), stations);
    let pairs = vec![Separation {
        outer: 0,
        inner: 1,
        distance: 666_666,
    }];
    assert_eq!(dedup_by_coverage(&stations, &pairs), vec![stations[0]]);
}

#[test]
fn ordered_key_grows_with_the_float() {
    let floats = [
        f32::NEG_INFINITY,
        -180.0,
        -1.5,
        -f32::MIN_POSITIVE,
        -0.0,
        0.0,
        f32::MIN_POSITIVE,
        1.5,
        11.0,
        180.0,
        f32::INFINITY,
    ];
    for pair in floats.windows(2) {
        let (low, high) = (
            ordered_key(pair[0].to_bits()),
            ordered_key(pair[1].to_bits()),
        );
        if pair[0] == pair[1] {
            assert_eq!(low, high);
        } else {
            assert!(low < high, "{} and {}", pair[0], pair[1]);
        }
    }
    assert_eq!(ordered_key(0), 0);
    assert_eq!(ordered_key(0x8000_0000), 0);
    assert_eq!(ordered_key(0xFFFF_FFFF), -0x7FFF_FFFF);
    assert_eq!(ordered_key(0x7FFF_FFFF), 0x7FFF_FFFF);
}

#[test]
fn candidates_are_the_stations_in_the_box() {
    // Erfurt, 2 km north, 2 km east, 20 km east, and one south of the equator.
    let places = [
        (50.97f32, 11.03f32),
        (50.988, 11.03),
        (50.97, 11.0586),
        (50.97, 11.316),
        (-50.97, 11.03),
    ];
    let blob = blob_of(&places);
    let graph = Graph::from_slice(&blob).unwrap();
    let stations = vec![
        TimedNode::new(0, 60 * MINUTE),
        TimedNode::new(1, 6 * MINUTE),
        TimedNode::new(2, 6 * MINUTE),
        TimedNode::new(3, 6 * MINUTE),
        TimedNode::new(4, 6 * MINUTE),
    ];
    let boxes: Vec<CapBox> = stations
        .iter()
        .map(|t| cap_box(places[t.node], t.duration))
        .collect();
    let mut near = coverage_candidates(&graph, &stations, &boxes).unwrap();
    for list in &mut near {
        list.sort_unstable();
    }
    assert_eq!(near, vec![vec![1, 2], vec![], vec![], vec![], vec![]]);
    let mut pairs = Vec::new();
    for (outer, list) in near.iter().enumerate() {
        for &inner in list {
            let distance = millimetres(places[stations[outer].node], places[stations[inner].node]);
            pairs.push(Separation {
                outer,
                inner,
                distance,
            });
        }
    }
    let kept = dedup_by_coverage(&stations, &pairs);
    assert_eq!(kept, vec![stations[0], stations[3], stations[4]]);
}

#[test]
fn candidates_need_one_box_each_and_known_stations() {
    let blob = blob_of(&[(50.0, 11.0)]);
    let graph = Graph::from_slice(&blob).unwrap();
    let stations = vec![TimedNode::new(0, MINUTE)];
    assert_eq!(
        coverage_candidates(&graph, &stations, &Vec::new()),
        Err(Error::InvalidInput)
    );
    let whole = CapBox {
        lower_lat: 0,
        lower_lon: 0,
        upper_lat: 0,
        upper_lon: 0,
    };
    let stations = vec![TimedNode::new(1, MINUTE)];
    assert_eq!(
        coverage_candidates(&graph, &stations, &vec![whole]),
        Err(Error::InvalidInput)
    );
    assert_eq!(
        coverage_candidates(&graph, &Vec::new(), &Vec::new()),
        Ok(Vec::new())
    );
}

#[test]
fn box_corners_may_come_in_either_order() {
    let blob = blob_of(&[(1.0, 1.0), (2.0, 2.0), (3.0, 3.0)]);
    let graph = Graph::from_slice(&blob).unwrap();
    let stations = vec![
        TimedNode::new(0, 0),
        TimedNode::new(1, 0),
        TimedNode::new(2, 0),
    ];
    let corner = |lat: f32, lon: f32, lat2: f32, lon2: f32| CapBox {
        lower_lat: lat.to_bits(),
        lower_lon: lon.to_bits(),
        upper_lat: lat2.to_bits(),
        upper_lon: lon2.to_bits(),
    };
    let boxes = vec![
        corner(2.0, 2.0, 0.0, 0.0),
        corner(0.0, 3.0, 3.0, 0.0),
        corner(2.5, 2.5, 4.0, 4.0),
    ];
    let mut near = coverage_candidates(&graph, &stations, &boxes).unwrap();
    for list in &mut near {
        list.sort_unstable();
    }
    assert_eq!(near, vec![vec![1], vec![0, 2], vec![]]);
}

#[test]
fn many_stations_are_all_found() {
    let places: Vec<(f32, f32)> = (0..400)
        .map(|i| ((i % 20) as f32 - 10.0, (i / 20) as f32 - 10.0))
        .collect();
    let blob = blob_of(&places);
    let graph = Graph::from_slice(&blob).unwrap();
    let stations: Vec<TimedNode> = (0..400).map(|i| TimedNode::new(i, 0)).collect();
    let boxes: Vec<CapBox> = places
        .iter()
        .map(|&(lat, lon)| CapBox {
            lower_lat: (lat - 1.0).to_bits(),
            lower_lon: (lon - 1.0).to_bits(),
            upper_lat: (lat + 1.0).to_bits(),
            upper_lon: (lon + 1.0).to_bits(),
        })
        .collect();
    let near = coverage_candidates(&graph, &stations, &boxes).unwrap();
    for (outer, list) in near.iter().enumerate() {
        let mut found = list.clone();
        found.sort_unstable();
        let expected: Vec<usize> = (0..400)
            .filter(|&inner| {
                inner != outer
                    && (places[inner].0 - places[outer].0).abs() <= 1.0
                    && (places[inner].1 - places[outer].1).abs() <= 1.0
            })
            .collect();
        assert_eq!(found, expected);
    }
}
