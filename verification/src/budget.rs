//! How the reach of a search depends on the budget.
//!
//! A search with a larger budget arrives at every station that a search
//! with a smaller budget arrives at: until the smaller budget is used up the
//! two searches take the same steps, and afterwards the larger one only adds
//! arrivals. The stations that a search *retains* need not grow with the
//! budget, because a larger budget widens the cap of a predecessor and may
//! swallow the cap of a station that was retained before. Where every edge
//! is longer than the widest cap, no cap is ever swallowed and the retained
//! stations grow with the budget as well.

use crate::coverage::{adds_coverage, radius_thirds};
use crate::graph::Error;
use crate::heap::{least, precedes, Entry};
use crate::isochrone::TimedNode;
use crate::schedule::step_cost;
use crate::search::{
    cap, expand, in_range, initial, lemma_expand, lemma_least_exists, lemma_step_cost_nonnegative,
    popped, potential, reached, relax_edge, relax_edges, retained, run, Network, Query, Search,
};
use vstd::prelude::*;

verus! {

/// Whether `later` knows an arrival at every station that `sooner` knows
/// one at.
pub open spec fn grown(sooner: Search, later: Search) -> bool {
    forall|v: u32| #[trigger]
        sooner.arrivals.contains_key(v) ==> later.arrivals.contains_key(v)
}

/// Crossing one edge forgets no station.
proof fn lemma_relax_edge_grows(net: Network, query: Query, from: Entry, k: int, s: Search)
    ensures
        match relax_edge(net, query, from, k, s) {
            Ok(t) => grown(s, t),
            Err(_) => true,
        },
{
}

/// Crossing the first `k` edges of a station forgets no station.
proof fn lemma_relax_edges_grows(net: Network, query: Query, from: Entry, k: nat, s: Search)
    ensures
        match relax_edges(net, query, from, k, s) {
            Ok(t) => grown(s, t),
            Err(_) => true,
        },
    decreases k,
{
    if k > 0 {
        lemma_relax_edges_grows(net, query, from, (k - 1) as nat, s);
        match relax_edges(net, query, from, (k - 1) as nat, s) {
            Ok(t) => {
                lemma_relax_edge_grows(net, query, from, k - 1, t);
            },
            Err(_) => {},
        }
    }
}

/// A search forgets no station on its way to the end.
proof fn lemma_run_grows(net: Network, query: Query, s: Search)
    requires
        net.wf(),
        in_range(net, query, s),
    ensures
        match run(net, query, s) {
            Ok(t) => grown(s, t),
            Err(_) => true,
        },
    decreases potential(s.arrivals, query.budget, net.edges.len()), s.frontier.len(),
{
    if s.frontier.len() != 0 {
        lemma_expand(net, query, s);
        let from = least(s.frontier);
        lemma_relax_edges_grows(net, query, from, net.edges[from.1 as int].len(), popped(s));
        match expand(net, query, s) {
            Ok(t) => {
                lemma_run_grows(net, query, t);
                match run(net, query, t) {
                    Ok(end) => {
                        assert forall|v: u32| #[trigger]
                            s.arrivals.contains_key(v) implies end.arrivals.contains_key(v) by {
                            assert(popped(s).arrivals.contains_key(v));
                            assert(t.arrivals.contains_key(v));
                        }
                    },
                    Err(_) => {},
                }
            },
            Err(_) => {},
        }
    }
}

/// Whether `small`, a state of the search with the smaller budget, is what
/// `large`, a state of the search with the larger budget, knows of arrivals
/// within the smaller budget.
pub open spec fn in_step(budget: i64, small: Search, large: Search) -> bool {
    &&& forall|v: u32| #[trigger]
        small.arrivals.contains_key(v) <==> large.arrivals.contains_key(v) && large.arrivals[v]
            <= budget
    &&& forall|v: u32| #[trigger]
        small.arrivals.contains_key(v) ==> small.arrivals[v] == large.arrivals[v]
    &&& forall|e: Entry| #[trigger]
        small.frontier.count(e) == (if e.0 <= budget {
            large.frontier.count(e)
        } else {
            0
        })
}

/// Whether two queries differ in nothing but the budget, of which the
/// second has at least as much as the first, and the first no less than
/// none.
pub open spec fn more_budget(query: Query, larger: Query) -> bool {
    &&& larger.source == query.source
    &&& larger.start == query.start
    &&& 0 <= query.budget <= larger.budget
}

/// Two searches that are in step stay in step over one edge, or both stop
/// at the same malformed record.
proof fn lemma_relax_edge_in_step(
    net: Network,
    query: Query,
    larger: Query,
    from: Entry,
    k: int,
    small: Search,
    large: Search,
)
    requires
        more_budget(query, larger),
        in_step(query.budget, small, large),
        0 <= from.0 <= query.budget,
    ensures
        match (
            relax_edge(net, query, from, k, small),
            relax_edge(net, larger, from, k, large),
        ) {
            (Ok(t), Ok(u)) => in_step(query.budget, t, u),
            (Err(e), Err(f)) => e == f,
            _ => false,
        },
{
    let edge = net.edges[from.1 as int][k];
    lemma_step_cost_nonnegative(edge, query.start + from.0);
    match (relax_edge(net, query, from, k, small), relax_edge(net, larger, from, k, large)) {
        (Ok(t), Ok(u)) => {
            let step = step_cost(edge, query.start + from.0)->Ok_0;
            if step is Some {
                let total = from.0 + step->0;
                let v = edge.end;
                if total <= query.budget {
                    let known = small.arrivals.contains_key(v) && small.arrivals[v] <= total;
                    assert(known <==> large.arrivals.contains_key(v) && large.arrivals[v]
                        <= total);
                }
            }
        },
        _ => {},
    }
}

/// Two searches that are in step stay in step over the first `k` edges of a
/// station, or both stop at the same malformed record.
proof fn lemma_relax_edges_in_step(
    net: Network,
    query: Query,
    larger: Query,
    from: Entry,
    k: nat,
    small: Search,
    large: Search,
)
    requires
        more_budget(query, larger),
        in_step(query.budget, small, large),
        0 <= from.0 <= query.budget,
    ensures
        match (
            relax_edges(net, query, from, k, small),
            relax_edges(net, larger, from, k, large),
        ) {
            (Ok(t), Ok(u)) => in_step(query.budget, t, u),
            (Err(e), Err(f)) => e == f,
            _ => false,
        },
    decreases k,
{
    if k > 0 {
        lemma_relax_edges_in_step(net, query, larger, from, (k - 1) as nat, small, large);
        match (
            relax_edges(net, query, from, (k - 1) as nat, small),
            relax_edges(net, larger, from, (k - 1) as nat, large),
        ) {
            (Ok(t), Ok(u)) => {
                lemma_relax_edge_in_step(net, query, larger, from, k - 1, t, u);
            },
            _ => {},
        }
    }
}

/// Two searches that are in step follow up the same entry next, and are in
/// step again after it, or both stop at the same malformed record.
proof fn lemma_expand_in_step(
    net: Network,
    query: Query,
    larger: Query,
    small: Search,
    large: Search,
)
    requires
        net.wf(),
        more_budget(query, larger),
        in_range(net, query, small),
        in_range(net, larger, large),
        in_step(query.budget, small, large),
        small.frontier.len() > 0,
    ensures
        large.frontier.len() > 0,
        match (expand(net, query, small), expand(net, larger, large)) {
            (Ok(t), Ok(u)) => in_step(query.budget, t, u),
            (Err(e), Err(f)) => e == f,
            _ => false,
        },
{
    lemma_least_exists(small.frontier);
    let from = least(small.frontier);
    assert(small.frontier.count(from) > 0);
    assert(large.frontier.count(from) > 0);
    assert(large.frontier.len() > 0) by {
        if large.frontier.len() == 0 {
            assert(large.frontier.count(from) <= large.frontier.len());
        }
    }
    lemma_least_exists(large.frontier);
    let other = least(large.frontier);
    assert(precedes(other, from));
    assert(small.frontier.count(other) == large.frontier.count(other));
    assert(small.frontier.contains(other));
    assert(precedes(from, other));
    assert(from == other);
    let p = popped(small);
    let q = popped(large);
    assert(in_step(query.budget, p, q));
    lemma_relax_edges_in_step(net, query, larger, from, net.edges[from.1 as int].len(), p, q);
}

/// A search with more budget arrives wherever a search with less budget
/// arrives, from states that are in step on.
proof fn lemma_run_in_step(net: Network, query: Query, larger: Query, small: Search, large: Search)
    requires
        net.wf(),
        more_budget(query, larger),
        in_range(net, query, small),
        in_range(net, larger, large),
        in_step(query.budget, small, large),
    ensures
        match (run(net, query, small), run(net, larger, large)) {
            (Ok(t), Ok(u)) => grown(t, u),
            _ => true,
        },
    decreases potential(large.arrivals, larger.budget, net.edges.len()), large.frontier.len(),
{
    if small.frontier.len() == 0 {
        lemma_run_grows(net, larger, large);
        match run(net, larger, large) {
            Ok(end) => {
                assert forall|v: u32| #[trigger]
                    small.arrivals.contains_key(v) implies end.arrivals.contains_key(v) by {
                    assert(large.arrivals.contains_key(v));
                }
            },
            Err(_) => {},
        }
    } else {
        lemma_expand_in_step(net, query, larger, small, large);
        lemma_expand(net, query, small);
        lemma_expand(net, larger, large);
        match (expand(net, query, small), expand(net, larger, large)) {
            (Ok(t), Ok(u)) => {
                lemma_run_in_step(net, query, larger, t, u);
            },
            _ => {},
        }
    }
}

/// The stations at which a search arrives, whether it retains them or not.
pub open spec fn seen(net: Network, query: Query) -> Result<Set<u32>, Error> {
    match run(net, query, initial(query)) {
        Ok(s) => Ok(s.arrivals.dom()),
        Err(e) => Err(e),
    }
}

/// A search with more budget arrives at every station that a search with
/// less budget arrives at.
pub proof fn lemma_more_budget_sees_more(net: Network, query: Query, larger: Query)
    requires
        net.wf(),
        query.source < net.edges.len(),
        more_budget(query, larger),
    ensures
        match (seen(net, query), seen(net, larger)) {
            (Ok(few), Ok(many)) => few.subset_of(many),
            _ => true,
        },
{
    let small = initial(query);
    let large = initial(larger);
    assert(in_step(query.budget, small, large));
    lemma_run_in_step(net, query, larger, small, large);
}

/// Whether every edge is longer than the radius of the widest cap that the
/// budget allows, so that no cap holds a neighbouring station.
pub open spec fn edges_outreach_caps(net: Network, budget: i64) -> bool {
    forall|u: int, k: int|
        0 <= u < net.lengths.len() && 0 <= k < net.lengths[u].len() ==> 3 * (
        #[trigger] net.lengths[u][k]) > radius_thirds(budget as int)
}

/// Whether the state keeps track of what it retains: every retained station
/// was arrived at and has its place in the order; and where every edge
/// outreaches the caps, every station arrived at is retained.
pub open spec fn accounted(net: Network, query: Query, s: Search) -> bool {
    &&& forall|i: int| 0 <= i < s.order.len() ==> s.arrivals.contains_key(#[trigger] s.order[i])
    &&& forall|v: u32| #[trigger] s.remaining.contains_key(v) ==> s.order.contains(v)
    &&& edges_outreach_caps(net, query.budget) ==> forall|v: u32| #[trigger]
        s.arrivals.contains_key(v) ==> s.order.contains(v)
}

/// A cap is no wider than the cap of a station with more of the budget
/// left.
proof fn lemma_radius_grows(less: int, more: int)
    requires
        less <= more,
    ensures
        radius_thirds(less) <= radius_thirds(more),
{
}

/// Crossing one edge keeps track of what is retained.
proof fn lemma_relax_edge_accounted(net: Network, query: Query, from: Entry, k: int, s: Search)
    requires
        net.wf(),
        accounted(net, query, s),
        from.1 < net.edges.len(),
        0 <= from.0 <= cap(query.budget),
        0 <= k < net.edges[from.1 as int].len(),
    ensures
        match relax_edge(net, query, from, k, s) {
            Ok(t) => accounted(net, query, t),
            Err(_) => true,
        },
{
    let edge = net.edges[from.1 as int][k];
    lemma_step_cost_nonnegative(edge, query.start + from.0);
    match relax_edge(net, query, from, k, s) {
        Ok(t) => {
            if t != s {
                let step = step_cost(edge, query.start + from.0)->Ok_0->0;
                let total = (from.0 + step) as i64;
                let v = edge.end;
                let length = net.lengths[from.1 as int][k];
                assert forall|x: u32| s.order.contains(x) implies t.order.contains(x) by {
                    let i = choose|i: int| 0 <= i < s.order.len() && s.order[i] == x;
                    assert(t.order[i] == x);
                }
                if t.order != s.order {
                    assert(t.order[t.order.len() - 1] == v);
                }
                if edges_outreach_caps(net, query.budget) {
                    lemma_radius_grows(query.budget - from.0, query.budget as int);
                    assert(3 * length > radius_thirds(query.budget as int));
                    assert(adds_coverage(
                        length as int,
                        query.budget - from.0,
                        query.budget - total,
                    ));
                    assert(t.remaining.contains_key(v));
                    if s.remaining.contains_key(v) {
                        assert(s.order.contains(v));
                    }
                    assert(t.order.contains(v));
                }
                assert forall|i: int| 0 <= i < t.order.len() implies t.arrivals.contains_key(
                    #[trigger] t.order[i],
                ) by {
                    if i < s.order.len() {
                        assert(s.arrivals.contains_key(s.order[i]));
                    }
                }
                assert forall|x: u32| #[trigger]
                    t.remaining.contains_key(x) implies t.order.contains(x) by {
                    if x != v {
                        assert(s.remaining.contains_key(x));
                        assert(s.order.contains(x));
                    } else if s.remaining.contains_key(v) {
                        assert(s.order.contains(v));
                    }
                }
            }
        },
        Err(_) => {},
    }
}

/// Crossing the first `k` edges of a station keeps track of what is
/// retained.
proof fn lemma_relax_edges_accounted(net: Network, query: Query, from: Entry, k: nat, s: Search)
    requires
        net.wf(),
        accounted(net, query, s),
        from.1 < net.edges.len(),
        0 <= from.0 <= cap(query.budget),
        k <= net.edges[from.1 as int].len(),
    ensures
        match relax_edges(net, query, from, k, s) {
            Ok(t) => accounted(net, query, t),
            Err(_) => true,
        },
    decreases k,
{
    if k > 0 {
        lemma_relax_edges_accounted(net, query, from, (k - 1) as nat, s);
        match relax_edges(net, query, from, (k - 1) as nat, s) {
            Ok(t) => {
                lemma_relax_edge_accounted(net, query, from, k - 1, t);
            },
            Err(_) => {},
        }
    }
}

/// A search keeps track of what it retains to the end.
proof fn lemma_run_accounted(net: Network, query: Query, s: Search)
    requires
        net.wf(),
        in_range(net, query, s),
        accounted(net, query, s),
    ensures
        match run(net, query, s) {
            Ok(t) => accounted(net, query, t),
            Err(_) => true,
        },
    decreases potential(s.arrivals, query.budget, net.edges.len()), s.frontier.len(),
{
    if s.frontier.len() != 0 {
        lemma_expand(net, query, s);
        lemma_least_exists(s.frontier);
        let from = least(s.frontier);
        lemma_relax_edges_accounted(net, query, from, net.edges[from.1 as int].len(), popped(s));
        match expand(net, query, s) {
            Ok(t) => {
                lemma_run_accounted(net, query, t);
            },
            Err(_) => {},
        }
    }
}

/// Whether `stations` has an entry for the station `node`.
pub open spec fn lists(stations: Seq<TimedNode>, node: usize) -> bool {
    exists|j: int| 0 <= j < stations.len() && (#[trigger] stations[j]).node == node
}

/// Whether every station of `few` is a station of `many`.
pub open spec fn among(few: Seq<TimedNode>, many: Seq<TimedNode>) -> bool {
    forall|i: int| 0 <= i < few.len() ==> lists(many, (#[trigger] few[i]).node)
}

/// Where every edge is longer than the radius of the widest cap that the
/// larger budget allows, a search with more budget retains every station
/// that a search with less budget retains.
pub proof fn lemma_more_budget_retains_more(net: Network, query: Query, larger: Query)
    requires
        net.wf(),
        query.source < net.edges.len(),
        more_budget(query, larger),
        edges_outreach_caps(net, larger.budget),
    ensures
        match (reached(net, query), reached(net, larger)) {
            (Ok(few), Ok(many)) => among(few, many),
            _ => true,
        },
{
    let small = initial(query);
    let large = initial(larger);
    assert(in_step(query.budget, small, large));
    lemma_run_in_step(net, query, larger, small, large);
    assert(small.order[0] == query.source);
    assert(large.order[0] == query.source);
    assert(accounted(net, query, small));
    assert(accounted(net, larger, large));
    lemma_run_accounted(net, query, small);
    lemma_run_accounted(net, larger, large);
    match (run(net, query, small), run(net, larger, large)) {
        (Ok(t), Ok(u)) => {
            let few = retained(t);
            let many = retained(u);
            assert(reached(net, query) == Ok::<Seq<TimedNode>, Error>(few));
            assert(reached(net, larger) == Ok::<Seq<TimedNode>, Error>(many));
            assert forall|i: int| 0 <= i < few.len() implies lists(
                many,
                (#[trigger] few[i]).node,
            ) by {
                let v = t.order[i];
                assert(t.arrivals.contains_key(v));
                assert(u.arrivals.contains_key(v));
                assert(u.order.contains(v));
                let j = choose|j: int| 0 <= j < u.order.len() && u.order[j] == v;
                assert(0 <= j < many.len() && many[j].node == few[i].node);
            }
        },
        _ => {},
    }
}

} // verus!
