//! The zero-copy timetable graph.
//!
//! A graph is a set of views into one borrowed byte blob. Stations, edges,
//! journeys and operating periods keep the byte range that encodes them and
//! decode a field only when it is asked for. What a record *means* is given
//! by its view, a plain mathematical value computed from the bytes.
//!
//! All integers are little-endian.
//!
//! ```text
//! station   id:u64  lat:f32  lon:f32  name_len:u32  name:[u8; name_len]
//! edge      source:u32  destination:u32  walk_seconds:u16
//!           journeys_bytes:u32  journeys:[u8; journeys_bytes]
//!           periods_bytes:u32   periods:[u8; periods_bytes]
//! journey   arrival:u16  departure:u16  period_index:u16
//! period    start:u32  end:u32  valid_days_len:u32  valid_days:[u8; ..]
//! ```

use crate::bytes::{spec_u16_at, spec_u32_at, spec_u64_at, u16_at, u32_at, u64_at};
use crate::table;
use fnv::FnvHashMap;
use smallvec::SmallVec;
use vstd::prelude::*;
use vstd::slice::slice_subrange;
use vstd::string::StringSliceAdditionalSpecFns;
use vstd::utf8::valid_utf8;

verus! {

/// Bytes of a station record before its name.
pub const NODE_HEADER: usize = 20;

/// Bytes of an edge record before its journeys.
pub const EDGE_HEADER: usize = 14;

/// Bytes of one journey record.
pub const JOURNEY_SIZE: usize = 6;

/// Bytes of an operating period before its bitmap of valid days.
pub const PERIOD_HEADER: usize = 12;

/// Value of the walk field of an edge that cannot be walked.
pub const NO_WALK: u16 = 0xFFFF;

/// What can go wrong in the core.
#[derive(Clone, Copy, Debug, PartialEq, Eq, Structural)]
pub enum Error {
    /// The blob does not follow the file layout, or a record that was
    /// decoded on demand is inconsistent.
    MalformedGraph,
    /// An argument does not name anything in the graph.
    InvalidInput,
}

/// A scheduled traversal of an edge, as a value.
pub struct JourneyModel {
    /// Arrival, in minutes after midnight.
    pub arrival: u16,
    /// Departure, in minutes after midnight.
    pub departure: u16,
    /// Position of the operating period in the list of the same edge.
    pub period: u16,
}

/// A calendar window with one bit per day, as a value.
pub struct PeriodModel {
    /// First day, encoded as `(year - 2000) * 10000 + month * 100 + day`.
    pub start: u32,
    /// Last day, in the same encoding.
    pub end: u32,
    /// Bit `d % 8` of byte `d / 8` tells whether day `start + d` is served.
    pub valid_days: Seq<u8>,
}

/// An edge between two stations, as a value.
pub struct EdgeModel {
    /// Index of the station the edge leaves.
    pub start: u32,
    /// Index of the station the edge reaches.
    pub end: u32,
    /// Seconds on foot, or `NO_WALK`.
    pub walk: u16,
    /// The journeys, in file order.
    pub journeys: Seq<JourneyModel>,
    /// The operating periods, in file order.
    pub periods: Seq<PeriodModel>,
}

/// The journey that six bytes encode.
pub open spec fn journey_model(b: Seq<u8>) -> JourneyModel {
    JourneyModel {
        arrival: spec_u16_at(b, 0) as u16,
        departure: spec_u16_at(b, 2) as u16,
        period: spec_u16_at(b, 4) as u16,
    }
}

/// The operating period that a complete period record encodes.
pub open spec fn period_model(b: Seq<u8>) -> PeriodModel {
    PeriodModel {
        start: spec_u32_at(b, 0) as u32,
        end: spec_u32_at(b, 4) as u32,
        valid_days: b.subrange(PERIOD_HEADER as int, b.len() as int),
    }
}

/// End of the period record that starts at `offset` of a period section, if
/// a complete record starts there.
pub open spec fn period_end(section: Seq<u8>, offset: int) -> Option<int> {
    if 0 <= offset && offset + PERIOD_HEADER <= section.len() && offset + PERIOD_HEADER
        + spec_u32_at(section, offset + 8) <= section.len() {
        Some(offset + PERIOD_HEADER + spec_u32_at(section, offset + 8))
    } else {
        None
    }
}

/// The operating periods tiled in `section` from `offset` on. The list ends
/// where no complete record follows.
pub open spec fn periods_from(section: Seq<u8>, offset: int) -> Seq<PeriodModel>
    decreases section.len() - offset,
{
    match period_end(section, offset) {
        Some(end) => seq![period_model(section.subrange(offset, end))] + periods_from(
            section,
            end,
        ),
        None => Seq::empty(),
    }
}

/// Whether `b` has the extent of one edge record: the two length fields
/// account for every byte.
pub open spec fn edge_wf(b: Seq<u8>) -> bool {
    &&& b.len() >= EDGE_HEADER + 4
    &&& EDGE_HEADER + spec_u32_at(b, 10) + 4 <= b.len()
    &&& b.len() == EDGE_HEADER + spec_u32_at(b, 10) + 4 + spec_u32_at(
        b,
        EDGE_HEADER + spec_u32_at(b, 10),
    )
}

/// Number of complete journey records of an edge.
pub open spec fn journey_count(b: Seq<u8>) -> int {
    spec_u32_at(b, 10) / (JOURNEY_SIZE as int)
}

/// The bytes of journey `i` of an edge.
pub open spec fn journey_bytes(b: Seq<u8>, i: int) -> Seq<u8> {
    b.subrange(EDGE_HEADER + JOURNEY_SIZE * i, EDGE_HEADER + JOURNEY_SIZE * i + JOURNEY_SIZE)
}

/// The period section of an edge.
pub open spec fn period_section(b: Seq<u8>) -> Seq<u8> {
    b.subrange(EDGE_HEADER + spec_u32_at(b, 10) + 4, b.len() as int)
}

/// The edge that an edge record encodes.
pub open spec fn edge_model(b: Seq<u8>) -> EdgeModel {
    EdgeModel {
        start: spec_u32_at(b, 0) as u32,
        end: spec_u32_at(b, 4) as u32,
        walk: spec_u16_at(b, 8) as u16,
        journeys: Seq::new(journey_count(b) as nat, |i: int| journey_model(journey_bytes(b, i))),
        periods: periods_from(period_section(b), 0),
    }
}

/// A scheduled traversal of an edge.
pub struct Journey<'a> {
    data: &'a [u8],
}

impl<'a> View for Journey<'a> {
    type V = JourneyModel;

    open spec fn view(&self) -> JourneyModel {
        journey_model(self.bytes())
    }
}

impl<'a> Journey<'a> {
    /// The record.
    pub closed spec fn bytes(&self) -> Seq<u8> {
        self.data@
    }

    #[verifier::type_invariant]
    spec fn inv(self) -> bool {
        self.data@.len() == JOURNEY_SIZE
    }

    /// Arrival, in minutes after midnight.
    #[must_use]
    pub fn arrival(&self) -> (r: u16)
        ensures
            r == self@.arrival,
    {
        proof {
            use_type_invariant(self);
        }
        u16_at(self.data, 0)
    }

    /// Departure, in minutes after midnight.
    #[must_use]
    pub fn departure(&self) -> (r: u16)
        ensures
            r == self@.departure,
    {
        proof {
            use_type_invariant(self);
        }
        u16_at(self.data, 2)
    }

    /// Position of the operating period in the list of the same edge.
    #[must_use]
    pub fn operating_period_index(&self) -> (r: u16)
        ensures
            r == self@.period,
    {
        proof {
            use_type_invariant(self);
        }
        u16_at(self.data, 4)
    }
}

/// A calendar window with one bit per day.
pub struct OperatingPeriod<'a> {
    data: &'a [u8],
}

impl<'a> View for OperatingPeriod<'a> {
    type V = PeriodModel;

    open spec fn view(&self) -> PeriodModel {
        period_model(self.bytes())
    }
}

impl<'a> OperatingPeriod<'a> {
    /// The record.
    pub closed spec fn bytes(&self) -> Seq<u8> {
        self.data@
    }

    #[verifier::type_invariant]
    spec fn inv(self) -> bool {
        self.data@.len() >= PERIOD_HEADER
    }

    /// First day of the window, encoded.
    #[must_use]
    pub fn start(&self) -> (r: u32)
        ensures
            r == self@.start,
    {
        proof {
            use_type_invariant(self);
        }
        u32_at(self.data, 0)
    }

    /// Last day of the window, encoded.
    #[must_use]
    pub fn end(&self) -> (r: u32)
        ensures
            r == self@.end,
    {
        proof {
            use_type_invariant(self);
        }
        u32_at(self.data, 4)
    }

    /// The bitmap, one bit per day from the first day on.
    #[must_use]
    pub fn valid_days(&self) -> (r: &'a [u8])
        ensures
            r@ == self@.valid_days,
    {
        proof {
            use_type_invariant(self);
        }
        let len: usize = self.data.len();
        slice_subrange(self.data, PERIOD_HEADER, len)
    }
}

/// A cursor over the operating periods of an edge. Its view is the list of
/// the periods it has yet to hand out.
pub struct OperatingPeriodIter<'a> {
    offset: usize,
    data: &'a [u8],
}

impl<'a> View for OperatingPeriodIter<'a> {
    type V = Seq<PeriodModel>;

    closed spec fn view(&self) -> Seq<PeriodModel> {
        periods_from(self.data@, self.offset as int)
    }
}

impl<'a> OperatingPeriodIter<'a> {
    /// Hands out the next operating period, or `None` where no complete
    /// record follows.
    pub fn next(&mut self) -> (r: Option<OperatingPeriod<'a>>)
        ensures
            match r {
                Some(p) => old(self)@.len() > 0 && p@ == old(self)@[0] && final(self)@ == old(
                    self,
                )@.drop_first(),
                None => old(self)@.len() == 0 && final(self)@ == old(self)@,
            },
    {
        let len: usize = self.data.len();
        let start: usize = self.offset;
        if start > len || len - start < PERIOD_HEADER {
            return None;
        }
        let days: usize = u32_at(self.data, start + 8) as usize;
        if len - start - PERIOD_HEADER < days {
            return None;
        }
        let end: usize = start + PERIOD_HEADER + days;
        self.offset = end;
        let record = slice_subrange(self.data, start, end);
        proof {
            let rest = periods_from(self.data@, end as int);
            let head = seq![period_model(self.data@.subrange(start as int, end as int))];
            assert((head + rest).drop_first() =~= rest);
        }
        Some(OperatingPeriod { data: record })
    }
}

/// An edge between two stations.
pub struct Edge<'a> {
    data: &'a [u8],
}

impl<'a> View for Edge<'a> {
    type V = EdgeModel;

    open spec fn view(&self) -> EdgeModel {
        edge_model(self.bytes())
    }
}

impl<'a> Edge<'a> {
    /// The record.
    pub closed spec fn bytes(&self) -> Seq<u8> {
        self.data@
    }

    #[verifier::type_invariant]
    spec fn inv(self) -> bool {
        edge_wf(self.data@)
    }

    /// Index of the station the edge leaves.
    #[must_use]
    pub fn start(&self) -> (r: u32)
        ensures
            r == self@.start,
    {
        proof {
            use_type_invariant(self);
        }
        u32_at(self.data, 0)
    }

    /// Index of the station the edge reaches.
    #[must_use]
    pub fn end(&self) -> (r: u32)
        ensures
            r == self@.end,
    {
        proof {
            use_type_invariant(self);
        }
        u32_at(self.data, 4)
    }

    /// Seconds on foot, or `NO_WALK`.
    #[must_use]
    pub fn walk(&self) -> (r: u16)
        ensures
            r == self@.walk,
    {
        proof {
            use_type_invariant(self);
        }
        u16_at(self.data, 8)
    }

    /// Number of journeys on the edge.
    #[must_use]
    pub fn journey_count(&self) -> (r: usize)
        ensures
            r == self@.journeys.len(),
    {
        proof {
            use_type_invariant(self);
        }
        (u32_at(self.data, 10) as usize) / JOURNEY_SIZE
    }

    /// Journey `i` of the edge.
    #[must_use]
    pub fn journey(&self, i: usize) -> (r: Journey<'a>)
        requires
            i < self@.journeys.len(),
        ensures
            r@ == self@.journeys[i as int],
    {
        proof {
            use_type_invariant(self);
        }
        let len: usize = self.data.len();
        assert(JOURNEY_SIZE * i + JOURNEY_SIZE <= spec_u32_at(self.data@, 10));
        let from: usize = EDGE_HEADER + JOURNEY_SIZE * i;
        Journey { data: slice_subrange(self.data, from, from + JOURNEY_SIZE) }
    }

    /// The journeys of the edge, in file order.
    pub fn journeys(&self) -> (r: Vec<Journey<'a>>)
        ensures
            r@.len() == self@.journeys.len(),
            forall|i: int| 0 <= i < r@.len() ==> (#[trigger] r@[i])@ == self@.journeys[i],
    {
        let count: usize = self.journey_count();
        let mut out: Vec<Journey<'a>> = Vec::new();
        let mut i: usize = 0;
        while i < count
            invariant
                i <= count,
                count == self@.journeys.len(),
                out@.len() == i,
                forall|k: int| 0 <= k < i ==> (#[trigger] out@[k])@ == self@.journeys[k],
            decreases count - i,
        {
            out.push(self.journey(i));
            i += 1;
        }
        out
    }

    /// A cursor at the first operating period of the edge.
    #[must_use]
    pub fn operating_periods(&self) -> (r: OperatingPeriodIter<'a>)
        ensures
            r@ == self@.periods,
    {
        proof {
            use_type_invariant(self);
        }
        let len: usize = self.data.len();
        let journeys_bytes: usize = u32_at(self.data, 10) as usize;
        let from: usize = EDGE_HEADER + journeys_bytes + 4;
        OperatingPeriodIter { offset: 0, data: slice_subrange(self.data, from, len) }
    }
}

/// The edges that leave one station, in a `smallvec::SmallVec` that keeps up
/// to four of them inline.
#[verifier::external_body]
pub struct EdgeList<'a> {
    inner: SmallVec<[Edge<'a>; 4]>,
}

/// The records of the edges in a list, in the order they were added.
pub uninterp spec fn edge_records(list: EdgeList<'_>) -> Seq<Seq<u8>>;

/// `SmallVec::new`: a list without edges.
#[verifier::external_body]
fn edge_list_new<'a>() -> (list: EdgeList<'a>)
    ensures
        edge_records(list) == Seq::<Seq<u8>>::empty(),
{
    EdgeList { inner: SmallVec::new() }
}

/// `SmallVec::push`: the edge is added behind the others.
#[verifier::external_body]
fn edge_list_push<'a>(list: &mut EdgeList<'a>, edge: Edge<'a>)
    ensures
        edge_records(*final(list)) == edge_records(*old(list)).push(edge.bytes()),
{
    list.inner.push(edge);
}

/// `SmallVec::len`: the number of edges in the list.
#[verifier::external_body]
fn edge_list_len(list: &EdgeList<'_>) -> (n: usize)
    ensures
        n == edge_records(*list).len(),
{
    list.inner.len()
}

/// Indexing a `SmallVec`: edge `i` of the list. The outside index panics
/// past the end, which the precondition rules out.
#[verifier::external_body]
fn edge_list_get<'a, 'b>(list: &'b EdgeList<'a>, i: usize) -> (edge: &'b Edge<'a>)
    requires
        i < edge_records(*list).len(),
    ensures
        edge.bytes() == edge_records(*list)[i as int],
{
    &list.inner[i]
}

/// `std::str::from_utf8`: the text that `bytes` encode, if they are UTF-8.
#[verifier::external_body]
fn str_from_utf8<'a>(bytes: &'a [u8]) -> (r: Option<&'a str>)
    ensures
        r is Some <==> valid_utf8(bytes@),
        r is Some ==> r->0.spec_bytes() == bytes@,
{
    match std::str::from_utf8(bytes) {
        Ok(text) => Some(text),
        Err(_) => None,
    }
}

/// A station, as a value.
pub struct NodeModel {
    /// The stable identifier.
    pub id: u64,
    /// Latitude, as the bits of a 32-bit float.
    pub lat: u32,
    /// Longitude, as the bits of a 32-bit float.
    pub lon: u32,
    /// The bytes of the name.
    pub name: Seq<u8>,
}

/// The station that a station record encodes.
pub open spec fn node_model(b: Seq<u8>) -> NodeModel {
    NodeModel {
        id: spec_u64_at(b, 0) as u64,
        lat: spec_u32_at(b, 8) as u32,
        lon: spec_u32_at(b, 12) as u32,
        name: b.subrange(NODE_HEADER as int, b.len() as int),
    }
}

/// The bytes of one station record: at least the fixed-size header.
struct NodeRecord<'a> {
    bytes: &'a [u8],
}

impl<'a> NodeRecord<'a> {
    #[verifier::type_invariant]
    spec fn inv(self) -> bool {
        self.bytes@.len() >= NODE_HEADER
    }
}

/// A station and the edges that leave it.
pub struct Node<'a> {
    data: NodeRecord<'a>,
    outgoing: EdgeList<'a>,
}

impl<'a> View for Node<'a> {
    type V = NodeModel;

    open spec fn view(&self) -> NodeModel {
        node_model(self.bytes())
    }
}

impl<'a> Node<'a> {
    /// The record.
    pub closed spec fn bytes(&self) -> Seq<u8> {
        self.data.bytes@
    }

    /// The records of the outgoing edges, in file order.
    pub closed spec fn edge_bytes(&self) -> Seq<Seq<u8>> {
        edge_records(self.outgoing)
    }

    /// The outgoing edges, in file order.
    pub open spec fn edges(&self) -> Seq<EdgeModel> {
        self.edge_bytes().map_values(|b: Seq<u8>| edge_model(b))
    }

    /// The stable identifier of the station.
    #[must_use]
    pub fn id(&self) -> (r: u64)
        ensures
            r == self@.id,
    {
        proof {
            use_type_invariant(&self.data);
        }
        u64_at(self.data.bytes, 0)
    }

    /// Latitude, as the bits of a 32-bit float.
    #[must_use]
    pub fn lat(&self) -> (r: u32)
        ensures
            r == self@.lat,
    {
        proof {
            use_type_invariant(&self.data);
        }
        u32_at(self.data.bytes, 8)
    }

    /// Longitude, as the bits of a 32-bit float.
    #[must_use]
    pub fn lon(&self) -> (r: u32)
        ensures
            r == self@.lon,
    {
        proof {
            use_type_invariant(&self.data);
        }
        u32_at(self.data.bytes, 12)
    }

    /// The name of the station. The bytes are checked here, not when the
    /// graph is parsed: a name that is not UTF-8 is reported as
    /// `MalformedGraph`.
    pub fn name(&self) -> (r: Result<&'a str, Error>)
        ensures
            match r {
                Ok(text) => valid_utf8(self@.name) && text.spec_bytes() == self@.name,
                Err(e) => e == Error::MalformedGraph && !valid_utf8(self@.name),
            },
    {
        proof {
            use_type_invariant(&self.data);
        }
        let len: usize = self.data.bytes.len();
        match str_from_utf8(slice_subrange(self.data.bytes, NODE_HEADER, len)) {
            Some(text) => Ok(text),
            None => Err(Error::MalformedGraph),
        }
    }

    /// Number of edges that leave the station.
    #[must_use]
    pub fn edge_count(&self) -> (r: usize)
        ensures
            r == self.edges().len(),
    {
        edge_list_len(&self.outgoing)
    }

    /// Edge `i` of those that leave the station.
    #[must_use]
    pub fn edge(&self, i: usize) -> (r: &Edge<'a>)
        requires
            i < self.edges().len(),
        ensures
            r@ == self.edges()[i as int],
            r.bytes() == self.edge_bytes()[i as int],
    {
        edge_list_get(&self.outgoing, i)
    }
}

/// End of the station record that starts at `pos`, if a complete record
/// starts there.
pub open spec fn node_end(data: Seq<u8>, pos: int) -> Option<int> {
    if 0 <= pos && pos + NODE_HEADER <= data.len() && pos + NODE_HEADER + spec_u32_at(
        data,
        pos + 16,
    ) <= data.len() {
        Some(pos + NODE_HEADER + spec_u32_at(data, pos + 16))
    } else {
        None
    }
}

/// End of the edge record that starts at `pos`, if a complete record starts
/// there.
pub open spec fn edge_end(data: Seq<u8>, pos: int) -> Option<int> {
    if 0 <= pos && pos + EDGE_HEADER <= data.len() {
        let periods = pos + EDGE_HEADER + spec_u32_at(data, pos + 10);
        if periods + 4 <= data.len() && periods + 4 + spec_u32_at(data, periods) <= data.len() {
            Some(periods + 4 + spec_u32_at(data, periods))
        } else {
            None
        }
    } else {
        None
    }
}

/// Where station record `k` starts, if the `k` records before it are
/// complete. The records follow the station count without gaps.
pub open spec fn node_start(data: Seq<u8>, k: nat) -> Option<int>
    decreases k,
{
    if k == 0 {
        if data.len() >= 4 {
            Some(4)
        } else {
            None
        }
    } else {
        match node_start(data, (k - 1) as nat) {
            Some(pos) => node_end(data, pos),
            None => None,
        }
    }
}

/// Where edge record `k` starts, if the `k` records before it are complete.
/// The records follow one another from `first` on without gaps.
pub open spec fn edge_start(data: Seq<u8>, first: int, k: nat) -> Option<int>
    decreases k,
{
    if k == 0 {
        Some(first)
    } else {
        match edge_start(data, first, (k - 1) as nat) {
            Some(pos) => edge_end(data, pos),
            None => None,
        }
    }
}

/// The number of stations that the blob announces.
pub open spec fn node_count(data: Seq<u8>) -> nat {
    spec_u32_at(data, 0) as nat
}

/// Where the first edge record starts: behind the stations and the edge
/// count.
pub open spec fn first_edge(data: Seq<u8>) -> int {
    node_start(data, node_count(data)).unwrap() + 4
}

/// The number of edges that the blob announces.
pub open spec fn edge_count(data: Seq<u8>) -> nat {
    spec_u32_at(data, first_edge(data) - 4) as nat
}

/// The bytes of station record `k`.
pub open spec fn node_record(data: Seq<u8>, k: nat) -> Seq<u8> {
    data.subrange(node_start(data, k).unwrap(), node_start(data, k + 1).unwrap())
}

/// The bytes of edge record `k`.
pub open spec fn edge_record(data: Seq<u8>, k: nat) -> Seq<u8> {
    data.subrange(
        edge_start(data, first_edge(data), k).unwrap(),
        edge_start(data, first_edge(data), k + 1).unwrap(),
    )
}

/// Whether the blob follows the file layout: every announced record is
/// complete, and every edge joins two stations that exist.
pub open spec fn well_formed(data: Seq<u8>) -> bool {
    &&& data.len() >= 4
    &&& node_start(data, node_count(data)) is Some
    &&& first_edge(data) <= data.len()
    &&& edge_start(data, first_edge(data), edge_count(data)) is Some
    &&& forall|k: nat|
        k < edge_count(data) ==> {
            &&& (#[trigger] edge_model(edge_record(data, k))).start < node_count(data)
            &&& edge_model(edge_record(data, k)).end < node_count(data)
        }
}

/// The records of those of the first `k` edges that leave station `u`, in
/// file order.
pub open spec fn outgoing(data: Seq<u8>, k: nat, u: int) -> Seq<Seq<u8>>
    decreases k,
{
    if k == 0 {
        Seq::empty()
    } else {
        let before = outgoing(data, (k - 1) as nat, u);
        let record = edge_record(data, (k - 1) as nat);
        if edge_model(record).start == u {
            before.push(record)
        } else {
            before
        }
    }
}

/// The index of the first `k` stations by identifier. Where two stations
/// share an identifier, the later one is found.
pub open spec fn ids_of(data: Seq<u8>, k: nat) -> Map<u64, usize>
    decreases k,
{
    if k == 0 {
        Map::empty()
    } else {
        ids_of(data, (k - 1) as nat).insert(
            node_model(node_record(data, (k - 1) as nat)).id,
            (k - 1) as usize,
        )
    }
}

/// A record that is missing stays missing: no later record starts.
proof fn lemma_node_start_none(data: Seq<u8>, k: nat, n: nat)
    requires
        node_start(data, k) is None,
        k <= n,
    ensures
        node_start(data, n) is None,
    decreases n,
{
    if k < n {
        lemma_node_start_none(data, k, (n - 1) as nat);
    }
}

/// A record that is missing stays missing: no later record starts.
proof fn lemma_edge_start_none(data: Seq<u8>, first: int, k: nat, n: nat)
    requires
        edge_start(data, first, k) is None,
        k <= n,
    ensures
        edge_start(data, first, n) is None,
    decreases n,
{
    if k < n {
        lemma_edge_start_none(data, first, k, (n - 1) as nat);
    }
}

/// The stations, each with its outgoing edges, and the index of the stations
/// by identifier.
pub struct Graph<'a> {
    /// The stations, in file order.
    pub nodes: Vec<Node<'a>>,
    /// The position in `nodes` of the station with a given identifier.
    pub ids: FnvHashMap<u64, usize>,
}

impl<'a> Graph<'a> {
    /// The invariants of a graph: station indices fit 32 bits, every edge is
    /// listed at the station it leaves and reaches a station that exists, and
    /// the index finds exactly the identifiers of the stations.
    pub open spec fn wf(&self) -> bool {
        &&& self.nodes@.len() <= u32::MAX
        &&& forall|u: int, k: int|
            0 <= u < self.nodes@.len() && 0 <= k < self.nodes@[u].edges().len() ==> {
                &&& (#[trigger] self.nodes@[u].edges()[k]).start == u
                &&& self.nodes@[u].edges()[k].end < self.nodes@.len()
            }
        &&& forall|id: u64| #[trigger]
            self.ids@.contains_key(id) ==> {
                &&& self.ids@[id] < self.nodes@.len()
                &&& self.nodes@[self.ids@[id] as int]@.id == id
            }
        &&& forall|i: int|
            0 <= i < self.nodes@.len() ==> self.ids@.contains_key((#[trigger] self.nodes@[i])@.id)
    }

    /// Whether the graph is the one that the blob `data` encodes.
    pub open spec fn encoded_by(&self, data: Seq<u8>) -> bool {
        &&& well_formed(data)
        &&& self.nodes@.len() == node_count(data)
        &&& forall|i: int|
            0 <= i < self.nodes@.len() ==> (#[trigger] self.nodes@[i]).bytes() == node_record(
                data,
                i as nat,
            )
        &&& forall|i: int|
            0 <= i < self.nodes@.len() ==> (#[trigger] self.nodes@[i]).edge_bytes() == outgoing(
                data,
                edge_count(data),
                i,
            )
        &&& self.ids@ == ids_of(data, node_count(data))
    }

    /// Parses a blob into a graph. One forward pass finds the extent of each
    /// record; names, journeys and operating periods stay undecoded.
    ///
    /// Fails with `MalformedGraph` exactly when the blob does not follow the
    /// file layout: a record would end behind the blob, or an edge names a
    /// station that does not exist.
    pub fn from_slice(data: &'a [u8]) -> (r: Result<Graph<'a>, Error>)
        ensures
            match r {
                Ok(graph) => graph.encoded_by(data@) && graph.wf(),
                Err(e) => e == Error::MalformedGraph && !well_formed(data@),
            },
    {
        let len: usize = data.len();
        if len < 4 {
            return Err(Error::MalformedGraph);
        }
        let count: u32 = u32_at(data, 0);
        let mut nodes: Vec<Node<'a>> = Vec::new();
        let mut ids: FnvHashMap<u64, usize> = FnvHashMap::default();
        let mut pos: usize = 4;
        let mut i: u32 = 0;
        while i < count
            invariant
                len == data@.len(),
                count == node_count(data@),
                i <= count,
                4 <= pos <= len,
                node_start(data@, i as nat) == Some(pos as int),
                nodes@.len() == i,
                forall|k: int|
                    0 <= k < i ==> (#[trigger] nodes@[k]).bytes() == node_record(data@, k as nat),
                forall|k: int|
                    0 <= k < i ==> (#[trigger] nodes@[k]).edge_bytes() == Seq::<Seq<u8>>::empty(),
                ids@ == ids_of(data@, i as nat),
            decreases count - i,
        {
            if len - pos < NODE_HEADER {
                proof {
                    lemma_node_start_none(data@, (i + 1) as nat, count as nat);
                }
                return Err(Error::MalformedGraph);
            }
            let id: u64 = u64_at(data, pos);
            let name_len: usize = u32_at(data, pos + 16) as usize;
            if len - pos - NODE_HEADER < name_len {
                proof {
                    lemma_node_start_none(data@, (i + 1) as nat, count as nat);
                }
                return Err(Error::MalformedGraph);
            }
            let end: usize = pos + NODE_HEADER + name_len;
            let record = slice_subrange(data, pos, end);
            proof {
                assert(node_start(data@, (i + 1) as nat) == Some(end as int));
                assert(record@ == node_record(data@, i as nat));
                assert(spec_u64_at(record@, 0) == spec_u64_at(data@, pos as int));
            }
            nodes.push(Node { data: NodeRecord { bytes: record }, outgoing: edge_list_new() });
            table::insert(&mut ids, id, i as usize);
            pos = end;
            i = i + 1;
        }
        if len - pos < 4 {
            return Err(Error::MalformedGraph);
        }
        let edges: u32 = u32_at(data, pos);
        pos = pos + 4;
        let ghost first: int = pos as int;
        let mut j: u32 = 0;
        while j < edges
            invariant
                len == data@.len(),
                len >= 4,
                count == node_count(data@),
                node_start(data@, count as nat) is Some,
                first == first_edge(data@),
                first <= len,
                edges == edge_count(data@),
                j <= edges,
                first <= pos <= len,
                edge_start(data@, first, j as nat) == Some(pos as int),
                nodes@.len() == count,
                forall|k: int|
                    0 <= k < count ==> (#[trigger] nodes@[k]).bytes() == node_record(
                        data@,
                        k as nat,
                    ),
                forall|k: int|
                    0 <= k < count ==> (#[trigger] nodes@[k]).edge_bytes() == outgoing(
                        data@,
                        j as nat,
                        k,
                    ),
                forall|k: nat|
                    k < j ==> {
                        &&& (#[trigger] edge_model(edge_record(data@, k))).start < count
                        &&& edge_model(edge_record(data@, k)).end < count
                    },
                ids@ == ids_of(data@, count as nat),
            decreases edges - j,
        {
            if len - pos < EDGE_HEADER {
                proof {
                    lemma_edge_start_none(data@, first, (j + 1) as nat, edges as nat);
                }
                return Err(Error::MalformedGraph);
            }
            let source: u32 = u32_at(data, pos);
            let destination: u32 = u32_at(data, pos + 4);
            let journeys_bytes: usize = u32_at(data, pos + 10) as usize;
            if len - pos - EDGE_HEADER < journeys_bytes {
                proof {
                    lemma_edge_start_none(data@, first, (j + 1) as nat, edges as nat);
                }
                return Err(Error::MalformedGraph);
            }
            let periods: usize = pos + EDGE_HEADER + journeys_bytes;
            if len - periods < 4 {
                proof {
                    lemma_edge_start_none(data@, first, (j + 1) as nat, edges as nat);
                }
                return Err(Error::MalformedGraph);
            }
            let periods_bytes: usize = u32_at(data, periods) as usize;
            if len - periods - 4 < periods_bytes {
                proof {
                    lemma_edge_start_none(data@, first, (j + 1) as nat, edges as nat);
                }
                return Err(Error::MalformedGraph);
            }
            let end: usize = periods + 4 + periods_bytes;
            let record = slice_subrange(data, pos, end);
            proof {
                lemma_edge_fields(data@, pos as int, end as int);
                assert(edge_start(data@, first, (j + 1) as nat) == Some(end as int));
                assert(record@ == edge_record(data@, j as nat));
                assert(edge_model(record@).start == source);
                assert(edge_model(record@).end == destination);
            }
            if source >= count || destination >= count {
                proof {
                    if well_formed(data@) {
                        assert(edge_model(edge_record(data@, j as nat)).start < count);
                    }
                }
                return Err(Error::MalformedGraph);
            }
            let edge = Edge { data: record };
            let ghost before = nodes@;
            edge_list_push(&mut nodes[source as usize].outgoing, edge);
            proof {
                assert forall|k: int| 0 <= k < count implies (#[trigger] nodes@[k]).bytes()
                    == node_record(data@, k as nat) && nodes@[k].edge_bytes() == outgoing(
                    data@,
                    (j + 1) as nat,
                    k,
                ) by {
                    assert(before[k].bytes() == node_record(data@, k as nat));
                    assert(before[k].edge_bytes() == outgoing(data@, j as nat, k));
                    if k != source {
                        assert(nodes@[k] == before[k]);
                    }
                }
            }
            pos = end;
            j = j + 1;
        }
        let graph = Graph { nodes, ids };
        proof {
            assert(well_formed(data@));
            assert(graph.encoded_by(data@));
            lemma_encoded_graph_wf(graph, data@);
        }
        Ok(graph)
    }
}

/// The fields of an edge record are the fields of the blob at the record's
/// position, and the record has the extent its length fields announce.
proof fn lemma_edge_fields(data: Seq<u8>, pos: int, end: int)
    requires
        edge_end(data, pos) == Some(end),
    ensures
        edge_wf(data.subrange(pos, end)),
        spec_u32_at(data.subrange(pos, end), 0) == spec_u32_at(data, pos),
        spec_u32_at(data.subrange(pos, end), 4) == spec_u32_at(data, pos + 4),
{
    let record = data.subrange(pos, end);
    let journeys = spec_u32_at(data, pos + 10);
    assert(spec_u32_at(record, 10) == journeys);
    assert(spec_u32_at(record, EDGE_HEADER + journeys) == spec_u32_at(
        data,
        pos + EDGE_HEADER + journeys,
    ));
}

/// Every edge listed for station `u` leaves `u`, and reaches an existing
/// station where all of the first `k` edges do.
proof fn lemma_outgoing(data: Seq<u8>, k: nat, u: int)
    requires
        forall|j: nat|
            j < k ==> (#[trigger] edge_model(edge_record(data, j))).end < node_count(data),
    ensures
        forall|i: int|
            0 <= i < outgoing(data, k, u).len() ==> {
                &&& edge_model(#[trigger] outgoing(data, k, u)[i]).start == u
                &&& edge_model(outgoing(data, k, u)[i]).end < node_count(data)
            },
    decreases k,
{
    if k > 0 {
        lemma_outgoing(data, (k - 1) as nat, u);
        let before = outgoing(data, (k - 1) as nat, u);
        let record = edge_record(data, (k - 1) as nat);
        assert(edge_model(record).end < node_count(data));
        assert forall|i: int| 0 <= i < outgoing(data, k, u).len() implies {
            &&& edge_model(#[trigger] outgoing(data, k, u)[i]).start == u
            &&& edge_model(outgoing(data, k, u)[i]).end < node_count(data)
        } by {
            if i < before.len() {
                assert(outgoing(data, k, u)[i] == before[i]);
            } else {
                assert(outgoing(data, k, u)[i] == record);
            }
        }
    }
}

/// The index finds stations among the first `k`, each under its own
/// identifier, and misses none of them.
proof fn lemma_ids_of(data: Seq<u8>, k: nat)
    requires
        k <= usize::MAX,
    ensures
        forall|id: u64| #[trigger]
            ids_of(data, k).contains_key(id) ==> {
                &&& ids_of(data, k)[id] < k
                &&& node_model(node_record(data, ids_of(data, k)[id] as nat)).id == id
            },
        forall|i: nat|
            i < k ==> ids_of(data, k).contains_key(
                #[trigger] node_model(node_record(data, i)).id,
            ),
    decreases k,
{
    if k > 0 {
        let last = (k - 1) as nat;
        lemma_ids_of(data, last);
        let before = ids_of(data, last);
        let last_id = node_model(node_record(data, last)).id;
        assert(ids_of(data, k) == before.insert(last_id, last as usize));
        assert forall|id: u64| #[trigger] ids_of(data, k).contains_key(id) implies {
            &&& ids_of(data, k)[id] < k
            &&& node_model(node_record(data, ids_of(data, k)[id] as nat)).id == id
        } by {
            if id != last_id {
                assert(before.contains_key(id));
            }
        }
        assert forall|i: nat| i < k implies ids_of(data, k).contains_key(
            #[trigger] node_model(node_record(data, i)).id,
        ) by {
            if i < last {
                assert(before.contains_key(node_model(node_record(data, i)).id));
            }
        }
    }
}

/// No two identifiers find the same station.
pub proof fn lemma_ids_injective(graph: Graph<'_>, a: u64, b: u64)
    requires
        graph.wf(),
        graph.ids@.contains_key(a),
        graph.ids@.contains_key(b),
        graph.ids@[a] == graph.ids@[b],
    ensures
        a == b,
{
}

/// A graph that a blob encodes has the invariants of a graph.
proof fn lemma_encoded_graph_wf(graph: Graph<'_>, data: Seq<u8>)
    requires
        graph.encoded_by(data),
    ensures
        graph.wf(),
{
    lemma_ids_of(data, node_count(data));
    assert forall|u: int, k: int|
        0 <= u < graph.nodes@.len() && 0 <= k < graph.nodes@[u].edges().len() implies {
        &&& (#[trigger] graph.nodes@[u].edges()[k]).start == u
        &&& graph.nodes@[u].edges()[k].end < graph.nodes@.len()
    } by {
        lemma_outgoing(data, edge_count(data), u);
        assert(graph.nodes@[u].edge_bytes() == outgoing(data, edge_count(data), u));
    }
    assert forall|i: int| 0 <= i < graph.nodes@.len() implies graph.ids@.contains_key(
        (#[trigger] graph.nodes@[i])@.id,
    ) by {
        assert(graph.nodes@[i].bytes() == node_record(data, i as nat));
    }
}

} // verus!
