//! The time-dependent expansion: which stations a passenger reaches from a
//! station within a budget, and with how much of the budget to spare.

use crate::coverage::covers_new_ground;
use crate::graph::{Edge, Error, Graph, Journey, JourneyModel, OperatingPeriod, NO_WALK};
use crate::heap::{heap_entries, heap_new, heap_pop, heap_push, lemma_least_unique, Entry};
use crate::schedule::{
    decode_date, lemma_scan_error_stays, next_journey_duration_spec, next_journey_spec,
    runs_on_day, scan_journeys, split_instant, step_cost, valid_on_spec, walk_duration,
    MILLIS_PER_DAY, MILLIS_PER_MINUTE, MINUTES_PER_DAY,
};
use crate::search::{
    expand, improve, in_range, initial, lemma_expand, lemma_reached_is_reachable, lemma_relax_edge,
    lemma_relax_error_stays, lemma_source_comes_first, lemma_step_cost_nonnegative, listed, popped,
    potential, reached, relax_edge, relax_edges, retained, run, source_first, within_reach,
    Network, Query, Search,
};
use crate::table;
use fnv::FnvHashMap;
use rudac::heap::FibonacciHeap;
use vstd::prelude::*;

verus! {

/// The state of a search whose parts are held in the given collections.
pub open spec fn state_of(
    arrivals: FnvHashMap<u32, i64>,
    remaining: FnvHashMap<u32, i64>,
    order: Vec<u32>,
    heap: FibonacciHeap<Entry>,
) -> Search {
    Search {
        arrivals: arrivals@,
        remaining: remaining@,
        order: order@,
        frontier: heap_entries(heap),
    }
}

/// The network that a graph and the lengths of its edges stand for.
pub open spec fn network_of(graph: &Graph, lengths: &EdgeLengths) -> Network {
    Network {
        edges: Seq::new(graph.nodes@.len(), |u: int| graph.nodes@[u].edges()),
        lengths: lengths@,
    }
}

/// A station together with a duration: the time it took to reach it, or the
/// time that was left of a budget on reaching it.
#[derive(Clone, Copy, Debug, PartialEq, Eq, Structural)]
pub struct TimedNode {
    /// Index of the station in the graph.
    pub node: usize,
    /// The duration, in milliseconds.
    pub duration: i64,
}

impl TimedNode {
    /// Pairs a station with a duration.
    #[must_use]
    pub fn new(node: usize, duration: i64) -> (r: Self)
        ensures
            r == (TimedNode { node, duration }),
    {
        TimedNode { node, duration }
    }
}

/// The length of every edge of a graph: the distance, in millimetres,
/// between the two stations it joins.
pub struct EdgeLengths {
    table: Vec<Vec<u64>>,
}

impl View for EdgeLengths {
    type V = Seq<Seq<u64>>;

    closed spec fn view(&self) -> Seq<Seq<u64>> {
        rows(self.table)
    }
}

/// The rows of a table, as values.
pub open spec fn rows(table: Vec<Vec<u64>>) -> Seq<Seq<u64>> {
    Seq::new(table@.len(), |u: int| table@[u]@)
}

/// Whether `lengths` has one row for each station of `graph` and in it one
/// length for each edge of the station.
pub open spec fn one_per_edge(lengths: Seq<Seq<u64>>, graph: &Graph) -> bool {
    &&& lengths.len() == graph.nodes@.len()
    &&& forall|u: int|
        0 <= u < lengths.len() ==> (#[trigger] lengths[u]).len() == graph.nodes@[u].edges().len()
}

impl EdgeLengths {
    /// Whether the table has one length for each edge of `graph`.
    pub open spec fn fits(&self, graph: &Graph) -> bool {
        one_per_edge(self@, graph)
    }

    /// Takes `table[u][k]` as the length of edge `k` of station `u`.
    /// Returns `None` unless the table has one length for each edge.
    pub fn new(graph: &Graph, table: Vec<Vec<u64>>) -> (r: Option<EdgeLengths>)
        ensures
            r is Some <==> one_per_edge(rows(table), graph),
            r is Some ==> r->0@ == rows(table),
    {
        let n: usize = graph.nodes.len();
        if table.len() != n {
            return None;
        }
        let mut u: usize = 0;
        while u < n
            invariant
                u <= n,
                n == graph.nodes@.len(),
                n == table@.len(),
                forall|i: int|
                    0 <= i < u ==> (#[trigger] table@[i])@.len() == graph.nodes@[i].edges().len(),
            decreases n - u,
        {
            if table[u].len() != graph.nodes[u].edge_count() {
                assert(rows(table)[u as int] == table@[u as int]@);
                return None;
            }
            u += 1;
        }
        proof {
            assert forall|i: int| 0 <= i < rows(table).len() implies (#[trigger] rows(
                table,
            )[i]).len() == graph.nodes@[i].edges().len() by {
                assert(rows(table)[i] == table@[i]@);
            }
        }
        Some(EdgeLengths { table })
    }

    /// The length of edge `k` of station `u`, in millimetres.
    #[must_use]
    pub fn get(&self, u: usize, k: usize) -> (r: u64)
        requires
            u < self@.len(),
            k < self@[u as int].len(),
        ensures
            r == self@[u as int][k as int],
    {
        self.table[u][k]
    }
}

/// The expansion over one graph, with the scratch space it reuses from one
/// edge to the next.
pub struct IsochroneDijsktra<'a, 'b> {
    graph: &'a Graph<'b>,
    lengths: &'a EdgeLengths,
    periods: Vec<OperatingPeriod<'b>>,
}

impl<'a, 'b: 'a> IsochroneDijsktra<'a, 'b> {
    /// The graph that is searched.
    pub closed spec fn graph(&self) -> &Graph<'b> {
        self.graph
    }

    /// The lengths of the edges of the graph.
    pub closed spec fn lengths(&self) -> &EdgeLengths {
        self.lengths
    }

    /// Whether the graph is well-formed and every edge has a length.
    pub open spec fn wf(&self) -> bool {
        self.graph().wf() && self.lengths().fits(self.graph())
    }

    /// The network that is searched.
    pub open spec fn network(&self) -> Network {
        network_of(self.graph(), self.lengths())
    }

    /// Prepares a search over `graph`, whose edges have the given lengths.
    #[must_use]
    pub fn new(graph: &'a Graph<'b>, lengths: &'a EdgeLengths) -> (r: Self)
        requires
            graph.wf(),
            lengths.fits(graph),
        ensures
            r.wf(),
            r.graph() == graph,
            r.lengths() == lengths,
    {
        Self { graph, lengths, periods: Vec::new() }
    }

    /// Whether an operating period runs on `day`, counted from 1970-01-01.
    pub fn valid_on(period: &OperatingPeriod<'b>, day: i64) -> (r: Result<bool, Error>)
        ensures
            r == valid_on_spec(period@, day as int),
    {
        let first: i64 = match decode_date(period.start()) {
            Some(d) => d,
            None => {
                return Err(Error::MalformedGraph);
            },
        };
        let last: i64 = match decode_date(period.end()) {
            Some(d) => d,
            None => {
                return Err(Error::MalformedGraph);
            },
        };
        runs_on_day(first, last, period.valid_days(), day)
    }

    /// The duration of the walk along `edge`, if it can be walked.
    pub fn get_walk(edge: &Edge<'b>) -> (r: Option<i64>)
        ensures
            (match r {
                Some(w) => Some(w as int),
                None => None::<int>,
            }) == walk_duration(edge@),
    {
        let walk: u16 = edge.walk();
        if walk == NO_WALK {
            return None;
        }
        Some(walk as i64 * 1000)
    }

    /// The journey a passenger catches on `edge` at `millis` milliseconds
    /// after midnight of `day`, if any.
    pub fn next_journey(&mut self, edge: &Edge<'b>, day: i64, millis: u32) -> (r: Result<
        Option<Journey<'b>>,
        Error,
    >)
        ensures
            final(self).graph() == old(self).graph(),
            final(self).lengths() == old(self).lengths(),
            (match r {
                Ok(Some(journey)) => Ok(Some(journey@)),
                Ok(None) => Ok(None),
                Err(e) => Err(e),
            }) == next_journey_spec(edge@, day as int, millis as int),
    {
        self.periods.clear();
        let mut cursor = edge.operating_periods();
        let mut more: bool = true;
        while more
            invariant
                self.graph() == old(self).graph(),
                self.lengths() == old(self).lengths(),
                !more ==> cursor@.len() == 0,
                self.periods@.len() + cursor@.len() == edge@.periods.len(),
                forall|i: int|
                    0 <= i < self.periods@.len() ==> (#[trigger] self.periods@[i])@
                        == edge@.periods[i],
                forall|i: int|
                    0 <= i < cursor@.len() ==> #[trigger] cursor@[i] == edge@.periods[
                        self.periods@.len() + i],
            decreases cursor@.len() + (if more { 1nat } else { 0nat }),
        {
            match cursor.next() {
                Some(period) => {
                    self.periods.push(period);
                },
                None => {
                    more = false;
                },
            }
        }
        let count: usize = edge.journey_count();
        let mut best: Option<Journey<'b>> = None;
        let mut best_departure: u16 = 0;
        let mut i: usize = 0;
        while i < count
            invariant
                self.graph() == old(self).graph(),
                self.lengths() == old(self).lengths(),
                i <= count,
                count == edge@.journeys.len(),
                self.periods@.len() == edge@.periods.len(),
                forall|k: int|
                    0 <= k < self.periods@.len() ==> (#[trigger] self.periods@[k])@
                        == edge@.periods[k],
                best is Some ==> best_departure == best->0@.departure,
                scan_journeys(edge@, day as int, millis as int, i as nat) == Ok::<
                    Option<JourneyModel>,
                    Error,
                >(
                    match best {
                        Some(journey) => Some(journey@),
                        None => None,
                    },
                ),
            decreases count - i,
        {
            let journey = edge.journey(i);
            let departure: u16 = journey.departure();
            proof {
                if scan_journeys(edge@, day as int, millis as int, (i + 1) as nat) is Err {
                    lemma_scan_error_stays(
                        edge@,
                        day as int,
                        millis as int,
                        (i + 1) as nat,
                        count as nat,
                    );
                }
            }
            if departure >= MINUTES_PER_DAY {
                return Err(Error::MalformedGraph);
            }
            let leaves_later: bool = best.is_some() && departure > best_departure;
            if !leaves_later && departure as i64 * MILLIS_PER_MINUTE >= millis as i64 {
                let index: usize = journey.operating_period_index() as usize;
                if index >= self.periods.len() {
                    return Err(Error::MalformedGraph);
                }
                match Self::valid_on(&self.periods[index], day) {
                    Err(e) => {
                        return Err(e);
                    },
                    Ok(true) => {
                        best = Some(journey);
                        best_departure = departure;
                    },
                    Ok(false) => {},
                }
            }
            i += 1;
        }
        Ok(best)
    }

    /// The duration of the ride on `edge` for a passenger who is at its
    /// start at `millis` milliseconds after midnight of `day`; `None` where
    /// no journey can be caught.
    pub fn next_journey_duration(&mut self, edge: &Edge<'b>, day: i64, millis: u32) -> (r: Result<
        Option<i64>,
        Error,
    >)
        ensures
            final(self).graph() == old(self).graph(),
            final(self).lengths() == old(self).lengths(),
            (match r {
                Ok(Some(d)) => Ok(Some(d as int)),
                Ok(None) => Ok(None),
                Err(e) => Err(e),
            }) == next_journey_duration_spec(edge@, day as int, millis as int),
    {
        let journey = match self.next_journey(edge, day, millis) {
            Err(e) => {
                return Err(e);
            },
            Ok(None) => {
                return Ok(None);
            },
            Ok(Some(journey)) => journey,
        };
        let arrival: u16 = journey.arrival();
        if arrival >= MINUTES_PER_DAY {
            return Err(Error::MalformedGraph);
        }
        let arrives: i64 = arrival as i64 * MILLIS_PER_MINUTE;
        if arrives >= millis as i64 {
            Ok(Some(arrives - millis as i64))
        } else {
            Ok(Some(MILLIS_PER_DAY - millis as i64 + arrives))
        }
    }
    /// The stations that a passenger reaches who starts from station
    /// `node_idx` at the instant `start` and has `budget` to spend, each with
    /// what is left of the budget on reaching it. The source comes first.
    ///
    /// Fails with `InvalidInput` where the graph has no station `node_idx`,
    /// and with `MalformedGraph` where the search meets a journey or an
    /// operating period that is inconsistent.
    #[verifier::loop_isolation(false)]
    pub fn nodes_within(&mut self, node_idx: usize, start: i64, budget: i64) -> (r: Result<
        Vec<TimedNode>,
        Error,
    >)
        requires
            old(self).wf(),
        ensures
            final(self).graph() == old(self).graph(),
            final(self).lengths() == old(self).lengths(),
            node_idx >= old(self).graph().nodes@.len() ==> r == Err::<Vec<TimedNode>, Error>(
                Error::InvalidInput,
            ),
            node_idx < old(self).graph().nodes@.len() ==> match reached(
                old(self).network(),
                Query { source: node_idx as u32, start, budget },
            ) {
                Ok(stations) => r is Ok && r->Ok_0@ == stations,
                Err(e) => r == Err::<Vec<TimedNode>, Error>(e),
            },
            r is Ok ==> source_first(Query { source: node_idx as u32, start, budget }, r->Ok_0@),
            r is Ok ==> within_reach(
                old(self).network(),
                Query { source: node_idx as u32, start, budget },
                r->Ok_0@,
            ),
    {
        let graph: &'a Graph<'b> = self.graph;
        let lengths: &'a EdgeLengths = self.lengths;
        let n: usize = graph.nodes.len();
        if node_idx >= n {
            return Err(Error::InvalidInput);
        }
        let source: u32 = node_idx as u32;
        let ghost net = network_of(graph, lengths);
        let ghost query = Query { source, start, budget };
        let mut arrivals: FnvHashMap<u32, i64> = FnvHashMap::default();
        let mut remaining: FnvHashMap<u32, i64> = FnvHashMap::default();
        let mut order: Vec<u32> = Vec::new();
        let mut heap: FibonacciHeap<Entry> = heap_new();
        table::insert(&mut arrivals, source, 0);
        table::insert(&mut remaining, source, budget);
        order.push(source);
        heap_push(&mut heap, (0, source));
        proof {
            assert(net.wf());
            assert(order@ =~= seq![source]);
            assert(heap_entries(heap) =~= initial(query).frontier);
            assert(state_of(arrivals, remaining, order, heap) == initial(query));
        }
        loop
            invariant
                self.graph() == old(self).graph(),
                self.lengths() == old(self).lengths(),
                in_range(net, query, state_of(arrivals, remaining, order, heap)),
                listed(state_of(arrivals, remaining, order, heap)),
                run(net, query, state_of(arrivals, remaining, order, heap)) == run(
                    net,
                    query,
                    initial(query),
                ),
            decreases
                    potential(arrivals@, budget, n as nat),
                    heap_entries(heap).len(),
        {
            let ghost before = state_of(arrivals, remaining, order, heap);
            let from: Entry = match heap_pop(&mut heap) {
                Some(entry) => entry,
                None => {
                    break ;
                },
            };
            let elapsed: i64 = from.0;
            let u: u32 = from.1;
            let ghost after_pop = state_of(arrivals, remaining, order, heap);
            proof {
                lemma_least_unique(before.frontier, from);
                assert(after_pop == popped(before));
                assert(before.frontier.contains(from));
                assert forall|e: Entry| #[trigger]
                    after_pop.frontier.contains(e) implies before.frontier.contains(e) by {}
                lemma_expand(net, query, before);
            }
            let (day, millis) = split_instant(start, elapsed);
            let node = &graph.nodes[u as usize];
            let degree: usize = node.edge_count();
            let mut k: usize = 0;
            while k < degree
                invariant
                    self.graph() == old(self).graph(),
                    self.lengths() == old(self).lengths(),
                    k <= degree,
                    in_range(net, query, state_of(arrivals, remaining, order, heap)),
                    listed(state_of(arrivals, remaining, order, heap)),
                    relax_edges(net, query, from, k as nat, after_pop) == Ok::<Search, Error>(
                        state_of(arrivals, remaining, order, heap),
                    ),
                decreases degree - k,
            {
                let ghost here = state_of(arrivals, remaining, order, heap);
                let edge = node.edge(k);
                proof {
                    assert(edge@ == net.edges[u as int][k as int]);
                    lemma_relax_edge(net, query, from, k as int, here);
                    lemma_step_cost_nonnegative(edge@, start + elapsed);
                    if relax_edges(net, query, from, (k + 1) as nat, after_pop) is Err {
                        lemma_relax_error_stays(
                            net,
                            query,
                            from,
                            (k + 1) as nat,
                            degree as nat,
                            after_pop,
                        );
                    }
                }
                let walk: Option<i64> = Self::get_walk(edge);
                let ride: Option<i64> = match self.next_journey_duration(edge, day, millis) {
                    Ok(ride) => ride,
                    Err(e) => {
                        return Err(e);
                    },
                };
                let step: Option<i64> = match (walk, ride) {
                    (None, None) => None,
                    (None, Some(r)) => Some(r),
                    (Some(w), None) => Some(w),
                    (Some(w), Some(r)) => Some(
                        if w <= r {
                            w
                        } else {
                            r
                        },
                    ),
                };
                assert(step_cost(edge@, start + elapsed) == Ok::<Option<int>, Error>(
                    match step {
                        Some(c) => Some(c as int),
                        None => None,
                    },
                ));
                match step {
                    Some(cost) => {
                        if cost <= budget - elapsed {
                            let total: i64 = elapsed + cost;
                            let v: u32 = edge.end();
                            let beats: bool = match table::get(&arrivals, v) {
                                Some(known) => total < known,
                                None => true,
                            };
                            if beats {
                                table::insert(&mut arrivals, v, total);
                                heap_push(&mut heap, (total, v));
                                let length: u64 = lengths.get(u as usize, k);
                                if covers_new_ground(length, budget - elapsed, budget - total) {
                                    if table::get(&remaining, v).is_none() {
                                        order.push(v);
                                    }
                                    table::insert(&mut remaining, v, budget - total);
                                }
                                assert(state_of(arrivals, remaining, order, heap) == improve(
                                    net,
                                    query,
                                    here,
                                    from,
                                    k as int,
                                    total,
                                ));
                            }
                        }
                    },
                    None => {},
                }
                assert(relax_edge(net, query, from, k as int, here) == Ok::<Search, Error>(
                    state_of(arrivals, remaining, order, heap),
                ));
                k += 1;
            }
            assert(expand(net, query, before) == Ok::<Search, Error>(
                state_of(arrivals, remaining, order, heap),
            ));
        }
        let ghost last = state_of(arrivals, remaining, order, heap);
        assert(run(net, query, last) == Ok::<Search, Error>(last));
        let mut out: Vec<TimedNode> = Vec::new();
        let mut i: usize = 0;
        while i < order.len()
            invariant
                i <= order@.len(),
                out@.len() == i,
                forall|j: int| 0 <= j < i ==> out@[j] == retained(last)[j],
            decreases order@.len() - i,
        {
            let v: u32 = order[i];
            let left: i64 = match table::get(&remaining, v) {
                Some(left) => left,
                None => 0,
            };
            out.push(TimedNode::new(v as usize, left));
            i += 1;
        }
        proof {
            assert(out@ =~= retained(last));
            lemma_source_comes_first(net, query);
            lemma_reached_is_reachable(net, query);
        }
        Ok(out)
    }
}

} // verus!
