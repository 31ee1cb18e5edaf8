//! Requests for an isochrone: what is asked, what is refused, and why.

use crate::graph::Graph;
use crate::isochrone::{network_of, EdgeLengths, IsochroneDijsktra, TimedNode};
use crate::schedule::MILLIS_PER_MINUTE;
use crate::search::{reached, Query};
use crate::table;
use chrono::DateTime;
use vstd::prelude::*;
use vstd::string::StringSliceAdditionalSpecFns;

verus! {

/// Why a request was not answered.
#[derive(Debug)]
pub enum HandlerError {
    /// The request is at fault; the message says how.
    BadRequest(String),
    /// The search failed; the message says so.
    InternalServerError(String),
}

impl HandlerError {
    /// The message, as it is shown to the client.
    pub fn message(&self) -> (r: String)
        ensures
            r@ == self.text(),
    {
        match self {
            HandlerError::BadRequest(message) => message.clone(),
            HandlerError::InternalServerError(message) => message.clone(),
        }
    }

    /// The characters of the message.
    pub open spec fn text(&self) -> Seq<char> {
        match self {
            HandlerError::BadRequest(message) => message@,
            HandlerError::InternalServerError(message) => message@,
        }
    }
}

/// A request that can be answered: a station of the graph, an instant, and
/// a budget in milliseconds.
#[derive(Clone, Copy, Debug, PartialEq, Eq, Structural)]
pub struct Request {
    /// Index of the station to start from.
    pub source: usize,
    /// The instant to start at, in milliseconds since 1970-01-01 00:00 UTC.
    pub start: i64,
    /// The time to spend, in milliseconds.
    pub budget: i64,
}

/// The ways in which a request can be at fault, in the order in which they
/// are looked for.
#[derive(Clone, Copy, Debug, PartialEq, Eq, Structural)]
pub enum Fault {
    /// The budget is negative or above the limit.
    MinutesOutOfRange,
    /// The identifier is not a decimal number that fits 64 bits.
    UnparsableId,
    /// No station has the identifier.
    UnknownStation,
    /// The start is no instant of the calendar.
    InvalidStart,
}

/// The number that a string of decimal digits denotes; `None` where a
/// character is no digit. The empty string denotes zero.
pub open spec fn digits_value(digits: Seq<u8>) -> Option<nat>
    decreases digits.len(),
{
    if digits.len() == 0 {
        Some(0)
    } else {
        match digits_value(digits.drop_last()) {
            Some(value) => if 48 <= digits.last() <= 57 {
                Some((value * 10 + (digits.last() - 48)) as nat)
            } else {
                None
            },
            None => None,
        }
    }
}

/// The station identifier that a text denotes: a non-empty string of
/// decimal digits whose value fits 64 bits.
pub open spec fn id_value(text: Seq<u8>) -> Option<u64> {
    match digits_value(text) {
        Some(value) => if text.len() > 0 && value <= u64::MAX {
            Some(value as u64)
        } else {
            None
        },
        None => None,
    }
}

/// The digits before a digit denote a number, and no larger one.
proof fn lemma_digits_prefix(digits: Seq<u8>, k: int)
    requires
        0 <= k <= digits.len(),
        digits_value(digits) is Some,
    ensures
        digits_value(digits.take(k)) is Some,
        digits_value(digits.take(k))->0 <= digits_value(digits)->0,
    decreases digits.len(),
{
    if k == digits.len() {
        assert(digits.take(k) =~= digits);
    } else {
        assert(digits.drop_last().take(k) =~= digits.take(k));
        lemma_digits_prefix(digits.drop_last(), k);
    }
}

/// Reads a station identifier: a non-empty string of decimal digits whose
/// value fits 64 bits.
pub fn parse_id(text: &str) -> (r: Option<u64>)
    ensures
        r == id_value(text.spec_bytes()),
{
    let bytes = text.as_bytes();
    let n: usize = bytes.len();
    if n == 0 {
        return None;
    }
    let mut value: u64 = 0;
    let mut i: usize = 0;
    while i < n
        invariant
            i <= n,
            n == bytes@.len(),
            n > 0,
            bytes@ == text.spec_bytes(),
            digits_value(bytes@.take(i as int)) == Some(value as nat),
        decreases n - i,
    {
        let byte: u8 = bytes[i];
        proof {
            let longer = bytes@.take(i + 1);
            assert(longer.drop_last() =~= bytes@.take(i as int));
            assert(longer.last() == byte);
            assert(digits_value(longer) == if 48 <= byte <= 57 {
                Some((value * 10 + (byte - 48)) as nat)
            } else {
                None
            });
            if digits_value(bytes@) is Some {
                lemma_digits_prefix(bytes@, i + 1);
            }
        }
        if byte < 48 || byte > 57 {
            return None;
        }
        let digit: u64 = (byte - 48) as u64;
        if value > (u64::MAX - digit) / 10 {
            return None;
        }
        value = value * 10 + digit;
        i += 1;
    }
    proof {
        assert(bytes@.take(n as int) =~= bytes@);
    }
    Some(value)
}

/// Whether `chrono` has a date and time for the instant that lies `millis`
/// milliseconds after 1970-01-01 00:00 UTC.
pub uninterp spec fn instant_exists(millis: int) -> bool;

/// `chrono::DateTime::from_timestamp_millis`: whether the instant has a
/// date and time.
#[verifier::external_body]
fn has_date_time(millis: i64) -> (r: bool)
    ensures
        r == instant_exists(millis as int),
{
    DateTime::from_timestamp_millis(millis).is_some()
}

/// What is wrong with a request, if anything; else the request that is
/// answered. `start_exists` tells whether the start is an instant of the
/// calendar.
pub open spec fn examined(
    ids: Map<u64, usize>,
    id: Seq<u8>,
    start: i64,
    minutes: i64,
    max_minutes: i64,
    start_exists: bool,
) -> Result<Request, Fault> {
    if minutes < 0 || minutes > max_minutes || minutes > i64::MAX / MILLIS_PER_MINUTE {
        Err(Fault::MinutesOutOfRange)
    } else if id_value(id) is None {
        Err(Fault::UnparsableId)
    } else if !ids.contains_key(id_value(id)->0) {
        Err(Fault::UnknownStation)
    } else if !start_exists {
        Err(Fault::InvalidStart)
    } else {
        Ok(
            Request {
                source: ids[id_value(id)->0],
                start,
                budget: (minutes * MILLIS_PER_MINUTE) as i64,
            },
        )
    }
}

/// Examines a request. The budget must lie between zero and `max_minutes`,
/// the identifier must name a station of the graph, and the start must be
/// an instant of the calendar, which `start_exists` tells.
pub fn examine(
    graph: &Graph,
    id: &str,
    start: i64,
    minutes: i64,
    max_minutes: i64,
    start_exists: bool,
) -> (r: Result<Request, Fault>)
    ensures
        r == examined(graph.ids@, id.spec_bytes(), start, minutes, max_minutes, start_exists),
{
    if minutes < 0 || minutes > max_minutes || minutes > i64::MAX / MILLIS_PER_MINUTE {
        return Err(Fault::MinutesOutOfRange);
    }
    let station: u64 = match parse_id(id) {
        Some(station) => station,
        None => {
            return Err(Fault::UnparsableId);
        },
    };
    let source: usize = match table::get(&graph.ids, station) {
        Some(source) => source,
        None => {
            return Err(Fault::UnknownStation);
        },
    };
    if !start_exists {
        return Err(Fault::InvalidStart);
    }
    Ok(Request { source, start, budget: minutes * MILLIS_PER_MINUTE })
}

/// The words in which a fault is told to the client.
pub open spec fn fault_text(fault: Fault) -> Seq<char> {
    match fault {
        Fault::MinutesOutOfRange => "minutes out of range"@,
        Fault::UnparsableId => "cannot parse id"@,
        Fault::UnknownStation => "station not found"@,
        Fault::InvalidStart => "invalid start time"@,
    }
}

/// The words in which a failed search is told to the client.
pub open spec fn failure_text() -> Seq<char> {
    "failed dijsktra"@
}

/// The refusal of a request that is at fault.
pub fn refuse(fault: Fault) -> (r: HandlerError)
    ensures
        r is BadRequest,
        r.text() == fault_text(fault),
{
    HandlerError::BadRequest(
        match fault {
            Fault::MinutesOutOfRange => "minutes out of range".to_owned(),
            Fault::UnparsableId => "cannot parse id".to_owned(),
            Fault::UnknownStation => "station not found".to_owned(),
            Fault::InvalidStart => "invalid start time".to_owned(),
        },
    )
}

/// Examines a request, asking the calendar whether the start exists.
pub fn validate(graph: &Graph, id: &str, start: i64, minutes: i64, max_minutes: i64) -> (r: Result<
    Request,
    Fault,
>)
    ensures
        r == examined(
            graph.ids@,
            id.spec_bytes(),
            start,
            minutes,
            max_minutes,
            instant_exists(start as int),
        ),
{
    examine(graph, id, start, minutes, max_minutes, has_date_time(start))
}

/// Answers a request for the stations within reach: examines it, and
/// searches the graph from the station it names.
///
/// A request that is at fault is refused as `BadRequest` with the words for
/// its first fault. A search that meets a malformed record fails as
/// `InternalServerError`.
pub fn handle_isochrone(
    graph: &Graph,
    lengths: &EdgeLengths,
    max_minutes: i64,
    id: &str,
    start: i64,
    minutes: i64,
) -> (r: Result<Vec<TimedNode>, HandlerError>)
    requires
        graph.wf(),
        lengths.fits(graph),
    ensures
        match examined(
            graph.ids@,
            id.spec_bytes(),
            start,
            minutes,
            max_minutes,
            instant_exists(start as int),
        ) {
            Err(fault) => r is Err && r->Err_0 is BadRequest && r->Err_0.text() == fault_text(
                fault,
            ),
            Ok(request) => match reached(
                network_of(graph, lengths),
                Query {
                    source: request.source as u32,
                    start: request.start,
                    budget: request.budget,
                },
            ) {
                Ok(stations) => r is Ok && r->Ok_0@ == stations,
                Err(_) => r is Err && r->Err_0 is InternalServerError && r->Err_0.text()
                    == failure_text(),
            },
        },
{
    let request: Request = match validate(graph, id, start, minutes, max_minutes) {
        Ok(request) => request,
        Err(fault) => {
            return Err(refuse(fault));
        },
    };
    let mut algo = IsochroneDijsktra::new(graph, lengths);
    match algo.nodes_within(request.source, request.start, request.budget) {
        Ok(stations) => Ok(stations),
        Err(_) => Err(HandlerError::InternalServerError("failed dijsktra".to_owned())),
    }
}

} // verus!
