use fastreach_core::graph::Graph;
use fastreach_core::isochrone::{EdgeLengths, TimedNode};
use fastreach_core::request::{
    examine, handle_isochrone, parse_id, refuse, validate, Fault, HandlerError, Request,
};

fn blob() -> Vec<u8> {
    let mut blob = Vec::new();
    blob.extend_from_slice(&2u32.to_le_bytes());
    for id in [42u64, u64::MAX] {
        blob.extend_from_slice(&id.to_le_bytes());
        blob.extend_from_slice(&[0; 8]);
        blob.extend_from_slice(&0u32.to_le_bytes());
    }
    blob.extend_from_slice(&2u32.to_le_bytes());
    // From station 0 to station 1: five minutes on foot.
    blob.extend_from_slice(&0u32.to_le_bytes());
    blob.extend_from_slice(&1u32.to_le_bytes());
    blob.extend_from_slice(&300u16.to_le_bytes());
    blob.extend_from_slice(&0u32.to_le_bytes());
    blob.extend_from_slice(&0u32.to_le_bytes());
    // From station 1 to station 0: a journey whose operating period is missing.
    blob.extend_from_slice(&1u32.to_le_bytes());
    blob.extend_from_slice(&0u32.to_le_bytes());
    blob.extend_from_slice(&0xFFFFu16.to_le_bytes());
    blob.extend_from_slice(&6u32.to_le_bytes());
    blob.extend_from_slice(&0u16.to_le_bytes());
    blob.extend_from_slice(&1439u16.to_le_bytes());
    blob.extend_from_slice(&0u16.to_le_bytes());
    blob.extend_from_slice(&0u32.to_le_bytes());
    blob
}

#[test]
fn identifiers_are_decimal_digits() {
    assert_eq!(parse_id("0"), Some(0));
    assert_eq!(parse_id("42"), Some(42));
    assert_eq!(parse_id("007"), Some(7));
    assert_eq!(
        parse_id("13973471588854917578"),
        Some(13_973_471_588_854_917_578)
    );
    assert_eq!(parse_id("18446744073709551615"), Some(u64::MAX));
    assert_eq!(parse_id("18446744073709551616"), None);
    assert_eq!(parse_id("99999999999999999999"), None);
    assert_eq!(parse_id("000000000000000000000000000000000001"), Some(1));
    assert_eq!(parse_id(""), None);
    assert_eq!(parse_id("+5"), None);
    assert_eq!(parse_id("-5"), None);
    assert_eq!(parse_id(" 5"), None);
    assert_eq!(parse_id("5a"), None);
    assert_eq!(parse_id("٣"), None);
}

#[test]
fn faults_are_found_in_order() {
    let blob = blob();
    let graph = Graph::from_slice(&blob).unwrap();
    assert_eq!(
        examine(&graph, "x", 0, -1, 120, false),
        Err(Fault::MinutesOutOfRange)
    );
    assert_eq!(
        examine(&graph, "x", 0, 121, 120, false),
        Err(Fault::MinutesOutOfRange)
    );
    assert_eq!(
        examine(&graph, "x", 0, 120, 120, false),
        Err(Fault::UnparsableId)
    );
    assert_eq!(
        examine(&graph, "7", 0, 0, 120, false),
        Err(Fault::UnknownStation)
    );
    assert_eq!(
        examine(&graph, "42", 0, 0, 120, false),
        Err(Fault::InvalidStart)
    );
    assert_eq!(
        examine(&graph, "42", 5, 2, 120, true),
        Ok(Request {
            source: 0,
            start: 5,
            budget: 120_000
        })
    );
    assert_eq!(
        examine(&graph, "18446744073709551615", -5, 120, 120, true),
        Ok(Request {
            source: 1,
            start: -5,
            budget: 7_200_000
        })
    );
}

#[test]
fn budget_must_fit_milliseconds() {
    let blob = blob();
    let graph = Graph::from_slice(&blob).unwrap();
    let most = i64::MAX / 60_000;
    assert_eq!(
        examine(&graph, "42", 0, most, i64::MAX, true),
        Ok(Request {
            source: 0,
            start: 0,
            budget: most * 60_000
        })
    );
    assert_eq!(
        examine(&graph, "42", 0, most + 1, i64::MAX, true),
        Err(Fault::MinutesOutOfRange)
    );
    assert_eq!(
        examine(&graph, "42", 0, 0, -1, true),
        Err(Fault::MinutesOutOfRange)
    );
}

#[test]
fn start_must_be_in_the_calendar() {
    let blob = blob();
    let graph = Graph::from_slice(&blob).unwrap();
    assert_eq!(
        validate(&graph, "42", 1_697_623_200_000, 10, 120),
        Ok(Request {
            source: 0,
            start: 1_697_623_200_000,
            budget: 600_000
        })
    );
    assert!(validate(&graph, "42", 0, 10, 120).is_ok());
    assert!(validate(&graph, "42", -1, 10, 120).is_ok());
    assert_eq!(
        validate(&graph, "42", i64::MAX, 10, 120),
        Err(Fault::InvalidStart)
    );
    assert_eq!(
        validate(&graph, "42", i64::MIN, 10, 120),
        Err(Fault::InvalidStart)
    );
    assert_eq!(
        validate(&graph, "43", i64::MIN, 10, 120),
        Err(Fault::UnknownStation)
    );
}

#[test]
fn refusals_have_their_words() {
    let words = |fault: Fault| match refuse(fault) {
        HandlerError::BadRequest(message) => message,
        HandlerError::InternalServerError(_) => panic!("a fault is the client's"),
    };
    assert_eq!(words(Fault::MinutesOutOfRange), "minutes out of range");
    assert_eq!(words(Fault::UnparsableId), "cannot parse id");
    assert_eq!(words(Fault::UnknownStation), "station not found");
    assert_eq!(words(Fault::InvalidStart), "invalid start time");
    assert_eq!(refuse(Fault::InvalidStart).message(), "invalid start time");
    assert_eq!(
        HandlerError::InternalServerError("x".to_owned()).message(),
        "x"
    );
}

#[test]
fn handler_answers_or_refuses() {
    let blob = blob();
    let graph = Graph::from_slice(&blob).unwrap();
    let lengths = EdgeLengths::new(&graph, vec![vec![500_000], vec![500_000]]).unwrap();
    let start = 1_697_623_200_000;
    let reached = handle_isochrone(&graph, &lengths, 120, "42", start, 4).unwrap();
    assert_eq!(reached, vec![TimedNode::new(0, 240_000)]);
    // With more time the search gets to the station whose edge is broken.
    assert!(handle_isochrone(&graph, &lengths, 120, "42", start, 6).is_err());
    match handle_isochrone(&graph, &lengths, 120, "42", start, 121) {
        Err(HandlerError::BadRequest(message)) => assert_eq!(message, "minutes out of range"),
        other => panic!("{other:?}"),
    }
    match handle_isochrone(&graph, &lengths, 120, "forty-two", start, 6) {
        Err(HandlerError::BadRequest(message)) => assert_eq!(message, "cannot parse id"),
        other => panic!("{other:?}"),
    }
    match handle_isochrone(&graph, &lengths, 120, "41", start, 6) {
        Err(HandlerError::BadRequest(message)) => assert_eq!(message, "station not found"),
        other => panic!("{other:?}"),
    }
    match handle_isochrone(&graph, &lengths, 120, "42", i64::MAX, 6) {
        Err(HandlerError::BadRequest(message)) => assert_eq!(message, "invalid start time"),
        other => panic!("{other:?}"),
    }
    match handle_isochrone(&graph, &lengths, 120, "18446744073709551615", start, 6) {
        Err(HandlerError::InternalServerError(message)) => assert_eq!(message, "failed dijsktra"),
        other => panic!("{other:?}"),
    }
}
