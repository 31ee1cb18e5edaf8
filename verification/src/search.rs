//! What the expansion computes, as mathematics.
//!
//! The search keeps the best known arrival of every station it has seen, a
//! frontier of arrivals it has yet to follow up, and the stations it retains
//! for the result. It takes the least entry from the frontier, crosses every
//! edge of its station, and stops when the frontier is empty. Stations are
//! never closed: an edge is crossed as often as its start is taken from the
//! frontier, and a crossing counts when it beats the best known arrival.

use crate::coverage::adds_coverage;
use crate::graph::{EdgeModel, Error};
use crate::heap::{is_least, least, precedes, Entry};
use crate::isochrone::TimedNode;
use crate::schedule::{
    day_of, lemma_ride_duration_range, millis_of_day, next_journey_spec, step_cost,
};
use vstd::multiset::Multiset;
use vstd::prelude::*;

verus! {

/// The stations of a graph by index, each with its edges and their lengths
/// in millimetres.
pub struct Network {
    /// The edges that leave each station.
    pub edges: Seq<Seq<EdgeModel>>,
    /// The length of each of them.
    pub lengths: Seq<Seq<u64>>,
}

impl Network {
    /// Whether station indices fit 32 bits, every edge reaches a station of
    /// the network, and every edge has a length.
    pub open spec fn wf(self) -> bool {
        &&& self.edges.len() <= u32::MAX
        &&& self.lengths.len() == self.edges.len()
        &&& forall|u: int|
            0 <= u < self.edges.len() ==> (#[trigger] self.lengths[u]).len() == self.edges[u].len()
        &&& forall|u: int, k: int|
            0 <= u < self.edges.len() && 0 <= k < self.edges[u].len() ==> (
            #[trigger] self.edges[u][k]).end < self.edges.len()
    }
}

/// What is asked of a search.
pub struct Query {
    /// The station the passenger starts from.
    pub source: u32,
    /// The instant the passenger starts at.
    pub start: i64,
    /// The time the passenger may spend.
    pub budget: i64,
}

/// The state of a search.
pub struct Search {
    /// The least time after which each station seen so far was reached.
    pub arrivals: Map<u32, i64>,
    /// What is left of the budget at each retained station.
    pub remaining: Map<u32, i64>,
    /// The retained stations, in the order in which they were first retained.
    pub order: Seq<u32>,
    /// The arrivals that are yet to be followed up.
    pub frontier: Multiset<Entry>,
}

/// The state in which a search starts: the source is reached at once and
/// retained with the whole budget.
pub open spec fn initial(query: Query) -> Search {
    Search {
        arrivals: Map::<u32, i64>::empty().insert(query.source, 0),
        remaining: Map::<u32, i64>::empty().insert(query.source, query.budget),
        order: seq![query.source],
        frontier: Multiset::singleton((0i64, query.source)),
    }
}

/// Retains station `v` with `left` of the budget. A station that is retained
/// again keeps its place in the order.
pub open spec fn retain(s: Search, v: u32, left: i64) -> Search {
    Search {
        remaining: s.remaining.insert(v, left),
        order: if s.remaining.contains_key(v) {
            s.order
        } else {
            s.order.push(v)
        },
        ..s
    }
}

/// Records that edge `k` of the station of `from` reaches its end after
/// `total`, sooner than known before. The arrival goes to the frontier; the
/// station is retained only if its cap adds ground to the cap of `from`.
pub open spec fn improve(
    net: Network,
    query: Query,
    s: Search,
    from: Entry,
    k: int,
    total: i64,
) -> Search {
    let v = net.edges[from.1 as int][k].end;
    let pushed = Search {
        arrivals: s.arrivals.insert(v, total),
        frontier: s.frontier.insert((total, v)),
        ..s
    };
    if adds_coverage(
        net.lengths[from.1 as int][k] as int,
        query.budget - from.0,
        query.budget - total,
    ) {
        retain(pushed, v, (query.budget - total) as i64)
    } else {
        pushed
    }
}

/// Crosses edge `k` of the station of `from`, at the instant `from` was
/// reached. Nothing changes where the edge cannot be crossed then, where the
/// crossing ends after the budget, or where it does not beat the best known
/// arrival.
pub open spec fn relax_edge(net: Network, query: Query, from: Entry, k: int, s: Search) -> Result<
    Search,
    Error,
> {
    let edge = net.edges[from.1 as int][k];
    match step_cost(edge, query.start + from.0) {
        Err(e) => Err(e),
        Ok(None) => Ok(s),
        Ok(Some(step)) => {
            if step > query.budget - from.0 {
                Ok(s)
            } else if s.arrivals.contains_key(edge.end) && s.arrivals[edge.end] <= from.0 + step {
                Ok(s)
            } else {
                Ok(improve(net, query, s, from, k, (from.0 + step) as i64))
            }
        },
    }
}

/// Crosses the first `k` edges of the station of `from`, in file order.
pub open spec fn relax_edges(net: Network, query: Query, from: Entry, k: nat, s: Search) -> Result<
    Search,
    Error,
>
    decreases k,
{
    if k == 0 {
        Ok(s)
    } else {
        match relax_edges(net, query, from, (k - 1) as nat, s) {
            Err(e) => Err(e),
            Ok(t) => relax_edge(net, query, from, k - 1, t),
        }
    }
}

/// The state without the least entry of its frontier.
pub open spec fn popped(s: Search) -> Search {
    Search { frontier: s.frontier.remove(least(s.frontier)), ..s }
}

/// Takes the least entry from the frontier and crosses every edge of its
/// station.
pub open spec fn expand(net: Network, query: Query, s: Search) -> Result<Search, Error> {
    let from = least(s.frontier);
    relax_edges(net, query, from, net.edges[from.1 as int].len(), popped(s))
}

/// The longest time after which a station can be reached within `budget`.
pub open spec fn cap(budget: i64) -> int {
    if budget < 0 {
        0
    } else {
        budget as int
    }
}

/// Whether every arrival of the state is an arrival at a station of the
/// network within the budget.
pub open spec fn in_range(net: Network, query: Query, s: Search) -> bool {
    &&& forall|v: u32| #[trigger]
        s.arrivals.contains_key(v) ==> v < net.edges.len() && 0 <= s.arrivals[v] <= cap(
            query.budget,
        )
    &&& forall|e: Entry| #[trigger]
        s.frontier.contains(e) ==> e.1 < net.edges.len() && 0 <= e.0 <= cap(query.budget)
}

/// How far the best known arrival of station `v` is above zero; for a
/// station not seen yet, more than for any that was.
pub open spec fn slack(arrivals: Map<u32, i64>, budget: i64, v: int) -> int {
    if arrivals.contains_key(v as u32) {
        arrivals[v as u32] + 1
    } else {
        cap(budget) + 2
    }
}

/// The slack of the first `n` stations together. Every arrival that beats a
/// known one lowers it, which bounds the length of a search.
pub open spec fn potential(arrivals: Map<u32, i64>, budget: i64, n: nat) -> int
    decreases n,
{
    if n == 0 {
        0
    } else {
        potential(arrivals, budget, (n - 1) as nat) + slack(arrivals, budget, n - 1)
    }
}

/// Whether the search has moved on from `s` to `t`: an arrival was beaten,
/// or nothing was reached and the frontier is as it was.
pub open spec fn advanced(net: Network, query: Query, s: Search, t: Search) -> bool {
    ||| potential(t.arrivals, query.budget, net.edges.len()) < potential(
        s.arrivals,
        query.budget,
        net.edges.len(),
    )
    ||| (t.arrivals == s.arrivals && t.frontier == s.frontier)
}

/// The state in which the search that is in state `s` ends.
pub open spec fn run(net: Network, query: Query, s: Search) -> Result<Search, Error>
    decreases potential(s.arrivals, query.budget, net.edges.len()), s.frontier.len(),
    when net.wf() && in_range(net, query, s)
    via run_terminates
{
    if s.frontier.len() == 0 {
        Ok(s)
    } else {
        match expand(net, query, s) {
            Err(e) => Err(e),
            Ok(t) => run(net, query, t),
        }
    }
}

/// The retained stations of a state, each with what is left of the budget.
pub open spec fn retained(s: Search) -> Seq<TimedNode> {
    Seq::new(
        s.order.len(),
        |i: int| TimedNode { node: s.order[i] as usize, duration: s.remaining[s.order[i]] },
    )
}

/// The stations that a passenger who starts as `query` says reaches on
/// `net`, each with what is left of the budget, the source first.
pub open spec fn reached(net: Network, query: Query) -> Result<Seq<TimedNode>, Error> {
    match run(net, query, initial(query)) {
        Ok(s) => Ok(retained(s)),
        Err(e) => Err(e),
    }
}

/// Whether every station in the order of the state is retained.
pub open spec fn listed(s: Search) -> bool {
    forall|i: int| 0 <= i < s.order.len() ==> s.remaining.contains_key(#[trigger] s.order[i])
}

/// A crossing that a malformed record has stopped stays stopped.
pub proof fn lemma_relax_error_stays(
    net: Network,
    query: Query,
    from: Entry,
    k: nat,
    n: nat,
    s: Search,
)
    requires
        relax_edges(net, query, from, k, s) is Err,
        k <= n,
    ensures
        relax_edges(net, query, from, n, s) == relax_edges(net, query, from, k, s),
    decreases n,
{
    if k < n {
        lemma_relax_error_stays(net, query, from, k, (n - 1) as nat, s);
    }
}

/// The slack of a search is never negative.
pub proof fn lemma_potential_nonnegative(arrivals: Map<u32, i64>, budget: i64, n: nat)
    requires
        forall|v: u32| #[trigger] arrivals.contains_key(v) ==> 0 <= arrivals[v],
    ensures
        0 <= potential(arrivals, budget, n),
    decreases n,
{
    if n > 0 {
        lemma_potential_nonnegative(arrivals, budget, (n - 1) as nat);
    }
}

/// An arrival at a station that is not among the first `n` leaves their
/// slack as it was.
proof fn lemma_potential_untouched(arrivals: Map<u32, i64>, budget: i64, n: nat, v: u32, total: i64)
    requires
        n <= v,
    ensures
        potential(arrivals.insert(v, total), budget, n) == potential(arrivals, budget, n),
    decreases n,
{
    if n > 0 {
        lemma_potential_untouched(arrivals, budget, (n - 1) as nat, v, total);
    }
}

/// An arrival that beats the best known one lowers the slack.
pub proof fn lemma_potential_drops(arrivals: Map<u32, i64>, budget: i64, n: nat, v: u32, total: i64)
    requires
        n <= u32::MAX,
        v < n,
        0 <= total <= cap(budget),
        arrivals.contains_key(v) ==> total < arrivals[v],
    ensures
        potential(arrivals.insert(v, total), budget, n) < potential(arrivals, budget, n),
    decreases n,
{
    let last = (n - 1) as nat;
    if last == v {
        lemma_potential_untouched(arrivals, budget, last, v, total);
    } else {
        lemma_potential_drops(arrivals, budget, last, v, total);
        assert((last as int) as u32 != v);
    }
}

/// Crossing an edge costs time, never less than none.
pub proof fn lemma_step_cost_nonnegative(edge: EdgeModel, now: int)
    ensures
        match step_cost(edge, now) {
            Ok(Some(step)) => 0 <= step,
            _ => true,
        },
{
    let day = day_of(now);
    let millis = millis_of_day(now);
    match next_journey_spec(edge, day, millis) {
        Ok(Some(journey)) => {
            if journey.arrival < 1440 {
                lemma_ride_duration_range(journey, millis);
            }
        },
        _ => {},
    }
}

/// Crossing one edge keeps every arrival within the budget and moves the
/// search on.
pub proof fn lemma_relax_edge(net: Network, query: Query, from: Entry, k: int, s: Search)
    requires
        net.wf(),
        in_range(net, query, s),
        from.1 < net.edges.len(),
        0 <= from.0 <= cap(query.budget),
        0 <= k < net.edges[from.1 as int].len(),
    ensures
        match relax_edge(net, query, from, k, s) {
            Ok(t) => in_range(net, query, t) && advanced(net, query, s, t),
            Err(_) => true,
        },
{
    let edge = net.edges[from.1 as int][k];
    lemma_step_cost_nonnegative(edge, query.start + from.0);
    match relax_edge(net, query, from, k, s) {
        Ok(t) => {
            if t != s {
                let step = step_cost(edge, query.start + from.0)->Ok_0->0;
                let total = (from.0 + step) as i64;
                let v = edge.end;
                assert(0 <= total <= cap(query.budget));
                lemma_potential_drops(s.arrivals, query.budget, net.edges.len(), v, total);
                assert(t.arrivals == s.arrivals.insert(v, total));
                assert(t.frontier == s.frontier.insert((total, v)));
                assert forall|e: Entry| #[trigger] t.frontier.contains(e) implies e.1
                    < net.edges.len() && 0 <= e.0 <= cap(query.budget) by {
                    if e != (total, v) {
                        assert(s.frontier.contains(e));
                    }
                }
            }
        },
        Err(_) => {},
    }
}

/// Crossing the first `k` edges of a station keeps every arrival within the
/// budget and moves the search on.
pub proof fn lemma_relax_edges(net: Network, query: Query, from: Entry, k: nat, s: Search)
    requires
        net.wf(),
        in_range(net, query, s),
        from.1 < net.edges.len(),
        0 <= from.0 <= cap(query.budget),
        k <= net.edges[from.1 as int].len(),
    ensures
        match relax_edges(net, query, from, k, s) {
            Ok(t) => in_range(net, query, t) && advanced(net, query, s, t),
            Err(_) => true,
        },
    decreases k,
{
    if k > 0 {
        lemma_relax_edges(net, query, from, (k - 1) as nat, s);
        match relax_edges(net, query, from, (k - 1) as nat, s) {
            Ok(t) => {
                lemma_relax_edge(net, query, from, k - 1, t);
            },
            Err(_) => {},
        }
    }
}

/// A frontier that is not empty has a least entry.
pub proof fn lemma_least_exists(entries: Multiset<Entry>)
    requires
        entries.len() > 0,
    ensures
        is_least(entries, least(entries)),
    decreases entries.len(),
{
    let any = entries.choose();
    assert(entries.contains(any));
    let rest = entries.remove(any);
    if rest.len() == 0 {
        assert forall|other: Entry| entries.contains(other) implies precedes(any, other) by {
            if other != any {
                assert(rest.contains(other));
            }
        }
        assert(is_least(entries, any));
    } else {
        lemma_least_exists(rest);
        let low = least(rest);
        let pick = if precedes(any, low) {
            any
        } else {
            low
        };
        assert forall|other: Entry| entries.contains(other) implies precedes(pick, other) by {
            if other != any {
                assert(rest.contains(other));
                assert(precedes(low, other));
            }
        }
        assert(is_least(entries, pick));
    }
}

/// Following up the least entry of the frontier keeps every arrival within
/// the budget and brings the search closer to its end.
pub proof fn lemma_expand(net: Network, query: Query, s: Search)
    requires
        net.wf(),
        in_range(net, query, s),
        s.frontier.len() > 0,
    ensures
        match expand(net, query, s) {
            Ok(t) => {
                &&& in_range(net, query, t)
                &&& 0 <= potential(t.arrivals, query.budget, net.edges.len())
                &&& (potential(t.arrivals, query.budget, net.edges.len()) < potential(
                    s.arrivals,
                    query.budget,
                    net.edges.len(),
                ) || (potential(t.arrivals, query.budget, net.edges.len()) == potential(
                    s.arrivals,
                    query.budget,
                    net.edges.len(),
                ) && t.frontier.len() < s.frontier.len()))
            },
            Err(_) => true,
        },
{
    lemma_least_exists(s.frontier);
    let from = least(s.frontier);
    let p = popped(s);
    assert forall|e: Entry| #[trigger] p.frontier.contains(e) implies s.frontier.contains(e) by {}
    lemma_relax_edges(net, query, from, net.edges[from.1 as int].len(), p);
    match expand(net, query, s) {
        Ok(t) => {
            lemma_potential_nonnegative(t.arrivals, query.budget, net.edges.len());
        },
        Err(_) => {},
    }
}

#[via_fn]
proof fn run_terminates(net: Network, query: Query, s: Search) {
    if s.frontier.len() != 0 {
        lemma_expand(net, query, s);
    }
}

/// Where a passenger is, and after how long, who starts as `query` says and
/// crosses the edges that `path` names, each by its position among the edges
/// of the station it leaves. `None` where an edge does not exist or cannot
/// be crossed at the instant the passenger is at its start.
pub open spec fn follow(net: Network, query: Query, path: Seq<int>) -> Option<(int, int)>
    decreases path.len(),
{
    if path.len() == 0 {
        Some((0, query.source as int))
    } else {
        match follow(net, query, path.drop_last()) {
            None => None,
            Some((elapsed, u)) => {
                let k = path.last();
                if 0 <= u < net.edges.len() && 0 <= k < net.edges[u].len() {
                    match step_cost(net.edges[u][k], query.start + elapsed) {
                        Ok(Some(step)) => Some((elapsed + step, net.edges[u][k].end as int)),
                        _ => None,
                    }
                } else {
                    None
                }
            },
        }
    }
}

/// Whether some sequence of crossings takes a passenger who starts as
/// `query` says to station `v` after exactly `elapsed`.
pub open spec fn reachable_after(net: Network, query: Query, v: int, elapsed: int) -> bool {
    exists|path: Seq<int>| follow(net, query, path) == Some((elapsed, v))
}

/// Whether some sequence of crossings takes a passenger who starts as
/// `query` says to station `v` within the budget.
pub open spec fn reachable_within(net: Network, query: Query, v: int) -> bool {
    exists|elapsed: int| elapsed <= query.budget && reachable_after(net, query, v, elapsed)
}

/// Whether the state holds only what a passenger can do: the source is
/// retained first and with the whole budget, no station is retained twice,
/// and every arrival is the end of a sequence of crossings.
pub open spec fn sound(net: Network, query: Query, s: Search) -> bool {
    &&& s.order.len() > 0
    &&& s.order[0] == query.source
    &&& s.remaining.contains_key(query.source)
    &&& s.remaining[query.source] == query.budget
    &&& s.arrivals.contains_key(query.source)
    &&& s.arrivals[query.source] == 0
    &&& listed(s)
    &&& s.order.no_duplicates()
    &&& forall|e: Entry| #[trigger]
        s.frontier.contains(e) ==> reachable_after(net, query, e.1 as int, e.0 as int)
    &&& forall|v: u32| #[trigger]
        s.remaining.contains_key(v) ==> {
            &&& reachable_after(net, query, v as int, query.budget - s.remaining[v])
            &&& 0 <= query.budget - s.remaining[v] <= cap(query.budget)
        }
}

/// A passenger who is at a station after some time is, one crossing later,
/// at the end of the edge.
proof fn lemma_follow_on(net: Network, query: Query, u: int, elapsed: int, k: int)
    requires
        reachable_after(net, query, u, elapsed),
        0 <= u < net.edges.len(),
        0 <= k < net.edges[u].len(),
        step_cost(net.edges[u][k], query.start + elapsed) is Ok,
        step_cost(net.edges[u][k], query.start + elapsed)->Ok_0 is Some,
    ensures
        reachable_after(
            net,
            query,
            net.edges[u][k].end as int,
            elapsed + step_cost(net.edges[u][k], query.start + elapsed)->Ok_0->0,
        ),
{
    let path = choose|path: Seq<int>| follow(net, query, path) == Some((elapsed, u));
    let longer = path.push(k);
    assert(longer.drop_last() =~= path);
    assert(longer.last() == k);
    let step = step_cost(net.edges[u][k], query.start + elapsed)->Ok_0->0;
    assert(follow(net, query, longer) == Some((elapsed + step, net.edges[u][k].end as int)));
}

/// Crossing one edge keeps the state sound.
proof fn lemma_relax_edge_sound(net: Network, query: Query, from: Entry, k: int, s: Search)
    requires
        net.wf(),
        in_range(net, query, s),
        sound(net, query, s),
        from.1 < net.edges.len(),
        0 <= from.0 <= cap(query.budget),
        reachable_after(net, query, from.1 as int, from.0 as int),
        0 <= k < net.edges[from.1 as int].len(),
    ensures
        match relax_edge(net, query, from, k, s) {
            Ok(t) => sound(net, query, t),
            Err(_) => true,
        },
{
    let edge = net.edges[from.1 as int][k];
    lemma_step_cost_nonnegative(edge, query.start + from.0);
    match relax_edge(net, query, from, k, s) {
        Ok(t) => {
            if t != s {
                let step = step_cost(edge, query.start + from.0)->Ok_0->0;
                let total = (from.0 + step) as i64;
                let v = edge.end;
                lemma_follow_on(net, query, from.1 as int, from.0 as int, k);
                assert(reachable_after(net, query, v as int, total as int));
                assert(v != query.source);
                assert forall|e: Entry| #[trigger] t.frontier.contains(e) implies reachable_after(
                    net,
                    query,
                    e.1 as int,
                    e.0 as int,
                ) by {
                    if e != (total, v) {
                        assert(s.frontier.contains(e));
                    }
                }
                if t.order != s.order {
                    assert(t.order == s.order.push(v));
                    assert(!s.remaining.contains_key(v));
                    assert forall|i: int, j: int|
                        0 <= i < t.order.len() && 0 <= j < t.order.len() && i
                            != j implies t.order[i] != t.order[j] by {
                        if i < s.order.len() {
                            assert(s.remaining.contains_key(s.order[i]));
                        }
                        if j < s.order.len() {
                            assert(s.remaining.contains_key(s.order[j]));
                        }
                    }
                }
                assert forall|i: int| 0 <= i < t.order.len() implies t.remaining.contains_key(
                    #[trigger] t.order[i],
                ) by {
                    if i < s.order.len() {
                        assert(s.remaining.contains_key(s.order[i]));
                    }
                }
            }
        },
        Err(_) => {},
    }
}

/// Crossing the first `k` edges of a station keeps the state sound.
proof fn lemma_relax_edges_sound(net: Network, query: Query, from: Entry, k: nat, s: Search)
    requires
        net.wf(),
        in_range(net, query, s),
        sound(net, query, s),
        from.1 < net.edges.len(),
        0 <= from.0 <= cap(query.budget),
        reachable_after(net, query, from.1 as int, from.0 as int),
        k <= net.edges[from.1 as int].len(),
    ensures
        match relax_edges(net, query, from, k, s) {
            Ok(t) => sound(net, query, t),
            Err(_) => true,
        },
    decreases k,
{
    if k > 0 {
        lemma_relax_edges(net, query, from, (k - 1) as nat, s);
        lemma_relax_edges_sound(net, query, from, (k - 1) as nat, s);
        match relax_edges(net, query, from, (k - 1) as nat, s) {
            Ok(t) => {
                lemma_relax_edge_sound(net, query, from, k - 1, t);
            },
            Err(_) => {},
        }
    }
}

/// A search that starts sound ends sound, with nothing left to follow up.
proof fn lemma_run_sound(net: Network, query: Query, s: Search)
    requires
        net.wf(),
        in_range(net, query, s),
        sound(net, query, s),
    ensures
        match run(net, query, s) {
            Ok(t) => sound(net, query, t) && t.frontier.len() == 0,
            Err(_) => true,
        },
    decreases potential(s.arrivals, query.budget, net.edges.len()), s.frontier.len(),
{
    if s.frontier.len() != 0 {
        lemma_expand(net, query, s);
        lemma_least_exists(s.frontier);
        let from = least(s.frontier);
        let p = popped(s);
        assert forall|e: Entry| #[trigger]
            p.frontier.contains(e) implies s.frontier.contains(e) by {}
        lemma_relax_edges_sound(net, query, from, net.edges[from.1 as int].len(), p);
        match expand(net, query, s) {
            Ok(t) => {
                lemma_run_sound(net, query, t);
            },
            Err(_) => {},
        }
    }
}

/// The state in which a search starts is sound and within the budget.
proof fn lemma_initial_sound(net: Network, query: Query)
    requires
        net.wf(),
        query.source < net.edges.len(),
    ensures
        in_range(net, query, initial(query)),
        sound(net, query, initial(query)),
{
    let empty = Seq::<int>::empty();
    assert(follow(net, query, empty) == Some((0int, query.source as int)));
    assert(reachable_after(net, query, query.source as int, 0));
}

/// Whether the source comes first in `stations`, with the whole budget left.
pub open spec fn source_first(query: Query, stations: Seq<TimedNode>) -> bool {
    stations.len() > 0 && stations[0] == (TimedNode {
        node: query.source as usize,
        duration: query.budget,
    })
}

/// Whether every entry of `stations` is a station that can be reached by
/// crossing edges one after the other, in exactly the time that the entry
/// says was spent, that time being within the budget and not negative, and
/// no station is listed twice.
pub open spec fn within_reach(net: Network, query: Query, stations: Seq<TimedNode>) -> bool {
    &&& forall|i: int|
        0 <= i < stations.len() ==> {
            &&& reachable_after(
                net,
                query,
                (#[trigger] stations[i]).node as int,
                query.budget - stations[i].duration,
            )
            &&& 0 <= query.budget - stations[i].duration <= cap(query.budget)
            &&& stations[i].node < net.edges.len()
        }
    &&& forall|i: int, j: int|
        0 <= i < stations.len() && 0 <= j < stations.len() && i != j ==> stations[i].node
            != stations[j].node
}

/// The source is always reached, and is reached first, with the whole
/// budget left.
pub proof fn lemma_source_comes_first(net: Network, query: Query)
    requires
        net.wf(),
        query.source < net.edges.len(),
    ensures
        match reached(net, query) {
            Ok(stations) => source_first(query, stations),
            Err(_) => true,
        },
{
    lemma_initial_sound(net, query);
    lemma_run_sound(net, query, initial(query));
}

/// Every station of the result can be reached within the budget, in exactly
/// the time that the result says was spent, and is listed once.
pub proof fn lemma_reached_is_reachable(net: Network, query: Query)
    requires
        net.wf(),
        query.source < net.edges.len(),
    ensures
        match reached(net, query) {
            Ok(stations) => within_reach(net, query, stations),
            Err(_) => true,
        },
{
    lemma_initial_sound(net, query);
    lemma_run_sound(net, query, initial(query));
    match run(net, query, initial(query)) {
        Ok(s) => {
            let stations = retained(s);
            assert forall|i: int| 0 <= i < stations.len() implies {
                &&& reachable_after(
                    net,
                    query,
                    (#[trigger] stations[i]).node as int,
                    query.budget - stations[i].duration,
                )
                &&& 0 <= query.budget - stations[i].duration <= cap(query.budget)
                &&& stations[i].node < net.edges.len()
            } by {
                assert(s.remaining.contains_key(s.order[i]));
                lemma_reachable_station(
                    net,
                    query,
                    s.order[i] as int,
                    query.budget - s.remaining[s.order[i]],
                );
            }
        },
        Err(_) => {},
    }
}

/// A passenger is always at a station of the network.
proof fn lemma_follow_station(net: Network, query: Query, path: Seq<int>)
    requires
        net.wf(),
        query.source < net.edges.len(),
    ensures
        match follow(net, query, path) {
            Some((elapsed, v)) => 0 <= v < net.edges.len(),
            None => true,
        },
    decreases path.len(),
{
    if path.len() > 0 {
        lemma_follow_station(net, query, path.drop_last());
    }
}

/// A station that can be reached is a station of the network.
proof fn lemma_reachable_station(net: Network, query: Query, v: int, elapsed: int)
    requires
        net.wf(),
        query.source < net.edges.len(),
        reachable_after(net, query, v, elapsed),
    ensures
        0 <= v < net.edges.len(),
{
    let path = choose|path: Seq<int>| follow(net, query, path) == Some((elapsed, v));
    lemma_follow_station(net, query, path);
}

/// A station that can be reached within a budget can be reached within any
/// larger budget.
pub proof fn lemma_more_budget_reaches_more(net: Network, query: Query, larger: Query, v: int)
    requires
        larger.source == query.source,
        larger.start == query.start,
        query.budget <= larger.budget,
        reachable_within(net, query, v),
    ensures
        reachable_within(net, larger, v),
{
    let elapsed = choose|elapsed: int|
        elapsed <= query.budget && reachable_after(net, query, v, elapsed);
    let path = choose|path: Seq<int>| follow(net, query, path) == Some((elapsed, v));
    lemma_follow_ignores_budget(net, query, larger, path);
    assert(reachable_after(net, larger, v, elapsed));
}

/// Where a passenger gets does not depend on the budget.
proof fn lemma_follow_ignores_budget(net: Network, query: Query, other: Query, path: Seq<int>)
    requires
        other.source == query.source,
        other.start == query.start,
    ensures
        follow(net, other, path) == follow(net, query, path),
    decreases path.len(),
{
    if path.len() > 0 {
        lemma_follow_ignores_budget(net, query, other, path.drop_last());
    }
}

/// Whether no entry of the frontier lies before `bound` in time.
pub open spec fn not_before(s: Search, bound: int) -> bool {
    forall|e: Entry| #[trigger] s.frontier.contains(e) ==> bound <= e.0
}

/// Crossing one edge puts nothing into the frontier that lies before the
/// entry that is followed up.
proof fn lemma_relax_edge_not_before(net: Network, query: Query, from: Entry, k: int, s: Search)
    requires
        not_before(s, from.0 as int),
    ensures
        match relax_edge(net, query, from, k, s) {
            Ok(t) => not_before(t, from.0 as int),
            Err(_) => true,
        },
{
    let edge = net.edges[from.1 as int][k];
    lemma_step_cost_nonnegative(edge, query.start + from.0);
    match relax_edge(net, query, from, k, s) {
        Ok(t) => {
            if t != s {
                let step = step_cost(edge, query.start + from.0)->Ok_0->0;
                let total = (from.0 + step) as i64;
                assert forall|e: Entry| #[trigger] t.frontier.contains(e) implies from.0
                    <= e.0 by {
                    if e != (total, edge.end) {
                        assert(s.frontier.contains(e));
                    }
                }
            }
        },
        Err(_) => {},
    }
}

/// Crossing the first `k` edges of a station puts nothing into the frontier
/// that lies before the entry that is followed up.
proof fn lemma_relax_edges_not_before(net: Network, query: Query, from: Entry, k: nat, s: Search)
    requires
        not_before(s, from.0 as int),
    ensures
        match relax_edges(net, query, from, k, s) {
            Ok(t) => not_before(t, from.0 as int),
            Err(_) => true,
        },
    decreases k,
{
    if k > 0 {
        lemma_relax_edges_not_before(net, query, from, (k - 1) as nat, s);
        match relax_edges(net, query, from, (k - 1) as nat, s) {
            Ok(t) => {
                lemma_relax_edge_not_before(net, query, from, k - 1, t);
            },
            Err(_) => {},
        }
    }
}

/// The search never goes back in time: once an entry has been followed up,
/// nothing in the frontier lies before it, so the entries leave the
/// frontier in the order of their elapsed time.
pub proof fn lemma_frontier_moves_on(net: Network, query: Query, s: Search)
    requires
        s.frontier.len() > 0,
    ensures
        match expand(net, query, s) {
            Ok(t) => not_before(t, least(s.frontier).0 as int),
            Err(_) => true,
        },
{
    lemma_least_exists(s.frontier);
    let from = least(s.frontier);
    let p = popped(s);
    assert forall|e: Entry| #[trigger] p.frontier.contains(e) implies from.0 <= e.0 by {
        assert(s.frontier.contains(e));
        assert(precedes(from, e));
    }
    lemma_relax_edges_not_before(net, query, from, net.edges[from.1 as int].len(), p);
}

} // verus!
