//! How much ground a reached station covers, and which reached stations add
//! nothing to the ground that others cover.
//!
//! A passenger who reaches a station with time to spare walks on at
//! `1000 / 12` metres per minute for every whole minute that is left. The
//! disk within that radius is the cap of the station. Distances are whole
//! millimetres and durations are milliseconds; a radius is handled as three
//! times its length in millimetres, which is a whole number.

use crate::graph::{Error, Graph};
use crate::isochrone::TimedNode;
use crate::schedule::MILLIS_PER_MINUTE;
use crate::table;
use fnv::FnvHashMap;
use vstd::prelude::*;
use vstd::seq_lib::to_multiset_build;

verus! {

/// Thirds of a millimetre that a passenger walks in one minute.
pub const STRIDE: u64 = 250_000;

/// The whole minutes in a remaining budget. A budget that has run out has
/// none.
pub open spec fn whole_minutes(remaining: int) -> int {
    if remaining <= 0 {
        0
    } else {
        remaining / (MILLIS_PER_MINUTE as int)
    }
}

/// Three times the radius, in millimetres, of the cap of a station reached
/// with `remaining` milliseconds to spare.
pub open spec fn radius_thirds(remaining: int) -> int {
    STRIDE * whole_minutes(remaining)
}

/// Whether the cap of a station adds ground to the cap of the station it was
/// reached from: the two lie `distance` millimetres apart, and the far side
/// of the new cap lies outside the old one.
pub open spec fn adds_coverage(distance: int, from_remaining: int, to_remaining: int) -> bool {
    3 * distance + radius_thirds(to_remaining) > radius_thirds(from_remaining)
}

/// Whether a cap lies strictly inside another: the two centres lie
/// `distance` millimetres apart, and even the far side of the inner cap lies
/// inside the outer one.
pub open spec fn strictly_inside(
    distance: int,
    inner_remaining: int,
    outer_remaining: int,
) -> bool {
    3 * distance + radius_thirds(inner_remaining) < radius_thirds(outer_remaining)
}

/// Three times the radius, in millimetres, of the cap of a station reached
/// with `remaining` milliseconds to spare.
pub fn cap_radius_thirds(remaining: i64) -> (r: u128)
    ensures
        r == radius_thirds(remaining as int),
        r <= STRIDE * (i64::MAX / MILLIS_PER_MINUTE),
{
    if remaining <= 0 {
        0
    } else {
        let minutes: u64 = (remaining / MILLIS_PER_MINUTE) as u64;
        assert(minutes <= i64::MAX / MILLIS_PER_MINUTE);
        assert(STRIDE * minutes <= STRIDE * (i64::MAX / MILLIS_PER_MINUTE)) by (nonlinear_arith)
            requires
                minutes <= i64::MAX / MILLIS_PER_MINUTE,
        ;
        (STRIDE as u128) * (minutes as u128)
    }
}

/// Decides whether a newly reached station adds ground to the cap of the
/// station it was reached from.
pub fn covers_new_ground(distance: u64, from_remaining: i64, to_remaining: i64) -> (r: bool)
    ensures
        r == adds_coverage(distance as int, from_remaining as int, to_remaining as int),
{
    3 * (distance as u128) + cap_radius_thirds(to_remaining) > cap_radius_thirds(from_remaining)
}

/// Decides whether a cap lies strictly inside another.
pub fn lies_strictly_inside(distance: u64, inner_remaining: i64, outer_remaining: i64) -> (r: bool)
    ensures
        r == strictly_inside(distance as int, inner_remaining as int, outer_remaining as int),
{
    3 * (distance as u128) + cap_radius_thirds(inner_remaining) < cap_radius_thirds(
        outer_remaining,
    )
}

/// The place of a station as one number: the bits of its latitude above the
/// bits of its longitude. Two places are the same place exactly when the
/// bits of both coordinates agree.
pub open spec fn place(lat: u32, lon: u32) -> u64 {
    (lat as u64 * 0x1_0000_0000 + lon as u64) as u64
}

/// Two places are the same number only if they are the same place.
pub proof fn lemma_place_injective(lat: u32, lon: u32, other_lat: u32, other_lon: u32)
    requires
        place(lat, lon) == place(other_lat, other_lon),
    ensures
        lat == other_lat,
        lon == other_lon,
{
}

/// The place of every station of a graph, by station index.
pub open spec fn places(graph: &Graph) -> Seq<u64> {
    Seq::new(graph.nodes@.len(), |u: int| place(graph.nodes@[u]@.lat, graph.nodes@[u]@.lon))
}

/// Whether every entry names a station that has a place.
pub open spec fn all_placed(places: Seq<u64>, stations: Seq<TimedNode>) -> bool {
    forall|i: int| 0 <= i < stations.len() ==> (#[trigger] stations[i]).node < places.len()
}

/// The position of the first entry of `kept` at `place`; the length of
/// `kept` where it has none.
pub open spec fn first_at(places: Seq<u64>, kept: Seq<TimedNode>, place: u64) -> int
    decreases kept.len(),
{
    if kept.len() == 0 {
        0
    } else {
        let before = first_at(places, kept.drop_last(), place);
        if before < kept.len() - 1 {
            before
        } else if places[kept.last().node as int] == place {
            kept.len() - 1
        } else {
            kept.len() as int
        }
    }
}

/// Adds one entry to a list that has one entry for each place. An entry at
/// a new place goes to the end. An entry at a known place takes the place
/// of the one that is there if more of the budget is left at it.
pub open spec fn merge_entry(places: Seq<u64>, kept: Seq<TimedNode>, entry: TimedNode) -> Seq<
    TimedNode,
> {
    let at = first_at(places, kept, places[entry.node as int]);
    if at == kept.len() {
        kept.push(entry)
    } else if entry.duration > kept[at].duration {
        kept.update(at, entry)
    } else {
        kept
    }
}

/// The first `k` entries of `stations` with one entry for each place: the
/// one with most of the budget left, and among equals the first. Places
/// come in the order in which they first occur.
pub open spec fn merged(places: Seq<u64>, stations: Seq<TimedNode>, k: nat) -> Seq<TimedNode>
    decreases k,
{
    if k == 0 {
        Seq::empty()
    } else {
        merge_entry(places, merged(places, stations, (k - 1) as nat), stations[k - 1])
    }
}

/// Whether no two entries are at the same place.
pub open spec fn one_per_place(places: Seq<u64>, kept: Seq<TimedNode>) -> bool {
    forall|i: int, j: int|
        0 <= i < kept.len() && 0 <= j < kept.len() && i != j ==> places[kept[i].node as int]
            != places[kept[j].node as int]
}

/// `first_at` finds an entry at the place, the first one, or tells that
/// there is none.
pub proof fn lemma_first_at(places: Seq<u64>, kept: Seq<TimedNode>, place: u64)
    ensures
        0 <= first_at(places, kept, place) <= kept.len(),
        first_at(places, kept, place) < kept.len() ==> places[kept[first_at(
            places,
            kept,
            place,
        )].node as int] == place,
        forall|i: int|
            0 <= i < first_at(places, kept, place) ==> places[(#[trigger] kept[i]).node as int]
                != place,
    decreases kept.len(),
{
    if kept.len() > 0 {
        lemma_first_at(places, kept.drop_last(), place);
        assert forall|i: int| 0 <= i < first_at(places, kept, place) implies places[(
        #[trigger] kept[i]).node as int] != place by {
            if i < kept.len() - 1 {
                assert(kept.drop_last()[i] == kept[i]);
            }
        }
    }
}

/// Adding an entry keeps one entry for each place, keeps every place that
/// was there, and leaves at the place of the new entry one with at least as
/// much of the budget as the new entry has.
pub proof fn lemma_merge_entry(places: Seq<u64>, kept: Seq<TimedNode>, entry: TimedNode)
    requires
        one_per_place(places, kept),
    ensures
        one_per_place(places, merge_entry(places, kept, entry)),
        kept.len() <= merge_entry(places, kept, entry).len() <= kept.len() + 1,
        forall|i: int|
            0 <= i < kept.len() ==> {
                &&& places[(#[trigger] merge_entry(places, kept, entry)[i]).node as int]
                    == places[kept[i].node as int]
                &&& merge_entry(places, kept, entry)[i].duration >= kept[i].duration
                &&& (merge_entry(places, kept, entry)[i] == kept[i] || merge_entry(
                    places,
                    kept,
                    entry,
                )[i] == entry)
            },
        forall|i: int|
            kept.len() <= i < merge_entry(places, kept, entry).len() ==> #[trigger] merge_entry(
                places,
                kept,
                entry,
            )[i] == entry,
        stands_for(places, merge_entry(places, kept, entry), entry),
{
    let place = places[entry.node as int];
    lemma_first_at(places, kept, place);
    let at = first_at(places, kept, place);
    let after = merge_entry(places, kept, entry);
    if at == kept.len() {
        assert(after[at] == entry);
    } else {
        assert(places[after[at].node as int] == place);
        assert(after[at].duration >= entry.duration);
    }
}

/// The merged list has one entry for each place, and every entry of it is
/// one of the entries that went in.
pub proof fn lemma_merged_from_input(places: Seq<u64>, stations: Seq<TimedNode>, k: nat)
    requires
        k <= stations.len(),
    ensures
        one_per_place(places, merged(places, stations, k)),
        merged(places, stations, k).len() <= k,
        forall|i: int|
            0 <= i < merged(places, stations, k).len() ==> exists|j: int|
                0 <= j < k && stations[j] == #[trigger] merged(places, stations, k)[i],
    decreases k,
{
    if k > 0 {
        let before = merged(places, stations, (k - 1) as nat);
        let entry = stations[k - 1];
        let after = merged(places, stations, k);
        lemma_merged_from_input(places, stations, (k - 1) as nat);
        lemma_merge_entry(places, before, entry);
        assert forall|i: int| 0 <= i < after.len() implies exists|j: int|
            0 <= j < k && stations[j] == #[trigger] after[i] by {
            if i < before.len() && after[i] == before[i] {
                let j = choose|j: int| 0 <= j < k - 1 && stations[j] == before[i];
                assert(0 <= j < k && stations[j] == after[i]);
            } else {
                assert(0 <= k - 1 < k && stations[k - 1] == after[i]);
            }
        }
    }
}

/// Whether `kept` has an entry at the place of `entry` with at least as
/// much of the budget left.
pub open spec fn stands_for(places: Seq<u64>, kept: Seq<TimedNode>, entry: TimedNode) -> bool {
    exists|i: int|
        0 <= i < kept.len() && places[(#[trigger] kept[i]).node as int]
            == places[entry.node as int] && kept[i].duration >= entry.duration
}

/// Every entry that went in is stood for in the merged list: the least
/// elapsed time at each place is kept.
pub proof fn lemma_merged_keeps_best(places: Seq<u64>, stations: Seq<TimedNode>, k: nat, j: int)
    requires
        k <= stations.len(),
        0 <= j < k,
    ensures
        stands_for(places, merged(places, stations, k), stations[j]),
    decreases k,
{
    let before = merged(places, stations, (k - 1) as nat);
    let entry = stations[k - 1];
    let after = merged(places, stations, k);
    lemma_merged_from_input(places, stations, (k - 1) as nat);
    lemma_merge_entry(places, before, entry);
    if j < k - 1 {
        lemma_merged_keeps_best(places, stations, (k - 1) as nat, j);
        let i = choose|i: int|
            0 <= i < before.len() && places[(#[trigger] before[i]).node as int]
                == places[stations[j].node as int] && before[i].duration >= stations[j].duration;
        assert(places[after[i].node as int] == places[before[i].node as int]);
        assert(after[i].duration >= before[i].duration);
    } else {
        let i = choose|i: int|
            0 <= i < after.len() && places[(#[trigger] after[i]).node as int]
                == places[entry.node as int] && after[i].duration >= entry.duration;
        assert(places[after[i].node as int] == places[stations[j].node as int]);
    }
}

/// A list that has one entry for each place is merged into itself.
pub proof fn lemma_merged_again(places: Seq<u64>, stations: Seq<TimedNode>, k: nat)
    requires
        one_per_place(places, stations),
        k <= stations.len(),
    ensures
        merged(places, stations, k) == stations.take(k as int),
    decreases k,
{
    if k > 0 {
        lemma_merged_again(places, stations, (k - 1) as nat);
        let before = stations.take(k - 1);
        let entry = stations[k - 1];
        lemma_first_at(places, before, places[entry.node as int]);
        let at = first_at(places, before, places[entry.node as int]);
        if at < before.len() {
            assert(before[at] == stations[at]);
            assert(false);
        }
        assert(before.push(entry) =~= stations.take(k as int));
    }
}

/// Merging is idempotent: what comes out of it goes through it unchanged.
pub proof fn lemma_merge_idempotent(places: Seq<u64>, stations: Seq<TimedNode>)
    ensures
        ({
            let once = merged(places, stations, stations.len());
            merged(places, once, once.len()) == once
        }),
{
    let once = merged(places, stations, stations.len());
    lemma_merged_from_input(places, stations, stations.len());
    lemma_merged_again(places, once, once.len());
    assert(once.take(once.len() as int) =~= once);
}

/// An entry put in the place of another at the same place changes no
/// position that `first_at` finds.
proof fn lemma_first_at_update(
    places: Seq<u64>,
    kept: Seq<TimedNode>,
    at: int,
    entry: TimedNode,
    place: u64,
)
    requires
        0 <= at < kept.len(),
        places[entry.node as int] == places[kept[at].node as int],
    ensures
        first_at(places, kept.update(at, entry), place) == first_at(places, kept, place),
    decreases kept.len(),
{
    let changed = kept.update(at, entry);
    if at < kept.len() - 1 {
        assert(changed.drop_last() =~= kept.drop_last().update(at, entry));
        lemma_first_at_update(places, kept.drop_last(), at, entry, place);
    } else {
        assert(changed.drop_last() =~= kept.drop_last());
    }
}

/// Keeps one entry for each place: the one with most of the budget left,
/// and among equals the first. The place of a station is the pair of the
/// bit patterns of its coordinates, so two stations share a place only if
/// their coordinates agree bit for bit. Places come out in the order in
/// which they first occur.
///
/// Fails with `InvalidInput` where an entry names a station that the graph
/// does not have.
pub fn dedup_by_coords(graph: &Graph, stations: &Vec<TimedNode>) -> (r: Result<
    Vec<TimedNode>,
    Error,
>)
    ensures
        match r {
            Ok(kept) => all_placed(places(graph), stations@) && kept@ == merged(
                places(graph),
                stations@,
                stations@.len(),
            ),
            Err(e) => e == Error::InvalidInput && !all_placed(places(graph), stations@),
        },
{
    let n: usize = graph.nodes.len();
    let ghost here = places(graph);
    let mut kept: Vec<TimedNode> = Vec::new();
    let mut index: FnvHashMap<u64, usize> = FnvHashMap::default();
    let mut i: usize = 0;
    while i < stations.len()
        invariant
            i <= stations@.len(),
            n == graph.nodes@.len(),
            here == places(graph),
            kept@ == merged(here, stations@, i as nat),
            forall|j: int| 0 <= j < i ==> (#[trigger] stations@[j]).node < n,
            forall|p: u64|
                index@.contains_key(p) <==> #[trigger] first_at(here, kept@, p) < kept@.len(),
            forall|p: u64|
                index@.contains_key(p) ==> index@[p] == #[trigger] first_at(here, kept@, p),
        decreases stations@.len() - i,
    {
        let entry: TimedNode = stations[i];
        if entry.node >= n {
            return Err(Error::InvalidInput);
        }
        let node = &graph.nodes[entry.node];
        let key: u64 = node.lat() as u64 * 0x1_0000_0000 + node.lon() as u64;
        assert(key == here[entry.node as int]);
        let ghost before = kept@;
        proof {
            lemma_first_at(here, before, key);
        }
        match table::get(&index, key) {
            Some(at) => {
                if entry.duration > kept[at].duration {
                    kept[at] = entry;
                    proof {
                        assert(kept@ == before.update(at as int, entry));
                        assert forall|p: u64| #[trigger]
                            first_at(here, kept@, p) == first_at(here, before, p) by {
                            lemma_first_at_update(here, before, at as int, entry, p);
                        }
                    }
                }
            },
            None => {
                table::insert(&mut index, key, kept.len());
                kept.push(entry);
                proof {
                    assert(kept@ == before.push(entry));
                    assert(kept@.drop_last() =~= before);
                    assert forall|p: u64|
                        (index@.contains_key(p) <==> #[trigger] first_at(here, kept@, p)
                            < kept@.len()) && (index@.contains_key(p) ==> index@[p] == first_at(
                            here,
                            kept@,
                            p,
                        )) by {
                        lemma_first_at(here, before, p);
                        assert(first_at(here, before, p) < before.len() ==> p != key);
                    }
                }
            },
        }
        i += 1;
    }
    Ok(kept)
}

/// Two stations of a list and the distance between them.
#[derive(Clone, Copy, Debug, PartialEq, Eq, Structural)]
pub struct Separation {
    /// Position in the list of the station whose cap may hold the other.
    pub outer: usize,
    /// Position in the list of the station whose cap may lie inside.
    pub inner: usize,
    /// The distance between the two, in millimetres.
    pub distance: u64,
}

/// Whether `pair` shows that the cap of the station at position `at` lies
/// strictly inside the cap of another station of the list.
pub open spec fn covers(stations: Seq<TimedNode>, pair: Separation, at: int) -> bool {
    &&& pair.inner == at
    &&& pair.outer < stations.len()
    &&& pair.outer != at
    &&& strictly_inside(
        pair.distance as int,
        stations[at].duration as int,
        stations[pair.outer as int].duration as int,
    )
}

/// Whether one of the first `k` pairs shows that the cap of the station at
/// position `at` lies strictly inside another.
pub open spec fn covered_by(
    stations: Seq<TimedNode>,
    pairs: Seq<Separation>,
    k: int,
    at: int,
) -> bool {
    exists|j: int| 0 <= j < k && covers(stations, #[trigger] pairs[j], at)
}

/// Whether some pair shows that the cap of the station at position `at`
/// lies strictly inside another.
pub open spec fn covered(stations: Seq<TimedNode>, pairs: Seq<Separation>, at: int) -> bool {
    covered_by(stations, pairs, pairs.len() as int, at)
}

/// Those of the first `k` stations whose cap no pair shows to lie strictly
/// inside another, in the order of the list.
pub open spec fn uncovered(stations: Seq<TimedNode>, pairs: Seq<Separation>, k: nat) -> Seq<
    TimedNode,
>
    decreases k,
{
    if k == 0 {
        Seq::empty()
    } else {
        let before = uncovered(stations, pairs, (k - 1) as nat);
        if covered(stations, pairs, k - 1) {
            before
        } else {
            before.push(stations[k - 1])
        }
    }
}

/// Puts an entry into a list that is ordered by what is left of the
/// budget, most first: behind every entry with as much left or more.
pub open spec fn insert_by_remaining(sorted: Seq<TimedNode>, entry: TimedNode) -> Seq<TimedNode>
    decreases sorted.len(),
{
    if sorted.len() == 0 {
        seq![entry]
    } else if sorted.last().duration >= entry.duration {
        sorted.push(entry)
    } else {
        insert_by_remaining(sorted.drop_last(), entry).push(sorted.last())
    }
}

/// The entries of a list ordered by what is left of the budget, most first.
/// Entries with equally much left keep their order.
pub open spec fn by_remaining(stations: Seq<TimedNode>) -> Seq<TimedNode>
    decreases stations.len(),
{
    if stations.len() == 0 {
        Seq::empty()
    } else {
        insert_by_remaining(by_remaining(stations.drop_last()), stations.last())
    }
}

/// Whether no entry has more of the budget left than one before it.
pub open spec fn descending(stations: Seq<TimedNode>) -> bool {
    forall|i: int, j: int|
        0 <= i < j < stations.len() ==> stations[i].duration >= stations[j].duration
}

/// Where an entry goes: behind the last entry with as much left or more.
proof fn lemma_insert_position(sorted: Seq<TimedNode>, entry: TimedNode, at: int)
    requires
        0 <= at <= sorted.len(),
        forall|i: int| at <= i < sorted.len() ==> sorted[i].duration < entry.duration,
        at > 0 ==> sorted[at - 1].duration >= entry.duration,
    ensures
        insert_by_remaining(sorted, entry) == sorted.take(at).push(entry) + sorted.skip(at),
    decreases sorted.len(),
{
    let result = sorted.take(at).push(entry) + sorted.skip(at);
    if sorted.len() == 0 {
        assert(result =~= seq![entry]);
    } else if sorted.last().duration >= entry.duration {
        assert(at == sorted.len());
        assert(result =~= sorted.push(entry));
    } else {
        let shorter = sorted.drop_last();
        lemma_insert_position(shorter, entry, at);
        assert(result =~= (shorter.take(at).push(entry) + shorter.skip(at)).push(sorted.last()));
    }
}

/// Putting an entry into an ordered list keeps it ordered and adds exactly
/// that entry.
pub proof fn lemma_insert_by_remaining(sorted: Seq<TimedNode>, entry: TimedNode)
    requires
        descending(sorted),
    ensures
        descending(insert_by_remaining(sorted, entry)),
        insert_by_remaining(sorted, entry).len() == sorted.len() + 1,
        insert_by_remaining(sorted, entry).to_multiset() == sorted.to_multiset().insert(entry),
    decreases sorted.len(),
{
    if sorted.len() == 0 {
        to_multiset_build(sorted, entry);
        assert(sorted.push(entry) =~= seq![entry]);
    } else if sorted.last().duration >= entry.duration {
        to_multiset_build(sorted, entry);
    } else {
        let shorter = sorted.drop_last();
        let inner = insert_by_remaining(shorter, entry);
        lemma_insert_by_remaining(shorter, entry);
        to_multiset_build(inner, sorted.last());
        to_multiset_build(shorter, sorted.last());
        assert(shorter.push(sorted.last()) =~= sorted);
        assert(inner.to_multiset().insert(sorted.last()) =~= sorted.to_multiset().insert(entry));
        let result = inner.push(sorted.last());
        assert forall|i: int, j: int| 0 <= i < j < result.len() implies result[i].duration
            >= result[j].duration by {
            if j == result.len() - 1 {
                // Every entry of `inner` is the new entry or an entry of `shorter`.
                assert(inner.to_multiset().count(inner[i]) > 0) by {
                    inner.to_multiset_ensures();
                    assert(inner.contains(inner[i]));
                }
                if inner[i] != entry {
                    assert(shorter.to_multiset().count(inner[i]) > 0);
                    shorter.to_multiset_ensures();
                    assert(shorter.contains(inner[i]));
                    let at = choose|at: int| 0 <= at < shorter.len() && shorter[at] == inner[i];
                    assert(sorted[at] == inner[i]);
                }
            }
        }
    }
}

/// Ordering a list rearranges it, most of the budget first.
pub proof fn lemma_by_remaining(stations: Seq<TimedNode>)
    ensures
        descending(by_remaining(stations)),
        by_remaining(stations).len() == stations.len(),
        by_remaining(stations).to_multiset() == stations.to_multiset(),
    decreases stations.len(),
{
    if stations.len() > 0 {
        let shorter = stations.drop_last();
        lemma_by_remaining(shorter);
        lemma_insert_by_remaining(by_remaining(shorter), stations.last());
        to_multiset_build(shorter, stations.last());
        assert(shorter.push(stations.last()) =~= stations);
    } else {
        assert(stations =~= Seq::<TimedNode>::empty());
    }
}

/// A station is dropped only where a pair shows its cap to lie strictly
/// inside the cap of another station of the list; every other station is
/// kept.
pub proof fn lemma_uncovered(stations: Seq<TimedNode>, pairs: Seq<Separation>, k: nat)
    requires
        k <= stations.len(),
    ensures
        forall|i: int|
            0 <= i < k && !covered(stations, pairs, i) ==> uncovered(stations, pairs, k).contains(
                #[trigger] stations[i],
            ),
        forall|x: TimedNode| #[trigger]
            uncovered(stations, pairs, k).contains(x) ==> exists|i: int|
                0 <= i < k && !covered(stations, pairs, i) && stations[i] == x,
    decreases k,
{
    if k > 0 {
        let before = uncovered(stations, pairs, (k - 1) as nat);
        let after = uncovered(stations, pairs, k);
        lemma_uncovered(stations, pairs, (k - 1) as nat);
        assert forall|i: int| 0 <= i < k && !covered(stations, pairs, i) implies after.contains(
            #[trigger] stations[i],
        ) by {
            if i < k - 1 {
                let at = choose|at: int| 0 <= at < before.len() && before[at] == stations[i];
                assert(after[at] == stations[i]);
            } else {
                assert(after[after.len() - 1] == stations[i]);
            }
        }
        assert forall|x: TimedNode| #[trigger] after.contains(x) implies exists|i: int|
            0 <= i < k && !covered(stations, pairs, i) && stations[i] == x by {
            let at = choose|at: int| 0 <= at < after.len() && after[at] == x;
            if at < before.len() {
                assert(before.contains(x));
                let i = choose|i: int|
                    0 <= i < k - 1 && !covered(stations, pairs, i) && stations[i] == x;
                assert(0 <= i < k && !covered(stations, pairs, i) && stations[i] == x);
            } else {
                assert(!covered(stations, pairs, k - 1) && stations[k - 1] == x);
            }
        }
    }
}

/// Only a station whose cap a pair shows to lie strictly inside the cap of
/// another station is missing from what is kept, and nothing is kept that
/// was not in the list.
pub proof fn lemma_only_covered_are_dropped(stations: Seq<TimedNode>, pairs: Seq<Separation>)
    ensures
        forall|i: int|
            0 <= i < stations.len() ==> covered(stations, pairs, i) || by_remaining(
                uncovered(stations, pairs, stations.len()),
            ).contains(#[trigger] stations[i]),
        forall|x: TimedNode| #[trigger]
            by_remaining(uncovered(stations, pairs, stations.len())).contains(x)
                ==> stations.contains(x),
{
    let rest = uncovered(stations, pairs, stations.len());
    let kept = by_remaining(rest);
    lemma_uncovered(stations, pairs, stations.len());
    lemma_by_remaining(rest);
    rest.to_multiset_ensures();
    kept.to_multiset_ensures();
    assert forall|i: int| 0 <= i < stations.len() implies covered(stations, pairs, i)
        || kept.contains(#[trigger] stations[i]) by {
        if !covered(stations, pairs, i) {
            assert(rest.contains(stations[i]));
            assert(rest.to_multiset().count(stations[i]) > 0);
        }
    }
    assert forall|x: TimedNode| #[trigger] kept.contains(x) implies stations.contains(x) by {
        assert(kept.to_multiset().count(x) > 0);
        assert(rest.contains(x));
        let i = choose|i: int|
            0 <= i < stations.len() && !covered(stations, pairs, i) && stations[i] == x;
        assert(stations[i] == x);
    }
}

/// Puts `entry` into a vector that is ordered by what is left of the
/// budget, most first.
fn insert_ordered(out: &mut Vec<TimedNode>, entry: TimedNode)
    ensures
        final(out)@ == insert_by_remaining(old(out)@, entry),
{
    let ghost sorted = out@;
    out.push(entry);
    let mut at: usize = out.len() - 1;
    while at > 0 && out[at - 1].duration < entry.duration
        invariant
            at <= sorted.len(),
            out@.len() == sorted.len() + 1,
            forall|i: int| 0 <= i < at ==> out@[i] == sorted[i],
            forall|i: int| at < i <= sorted.len() ==> out@[i] == sorted[i - 1],
            forall|i: int| at <= i < sorted.len() ==> sorted[i].duration < entry.duration,
        decreases at,
    {
        let moved: TimedNode = out[at - 1];
        out[at] = moved;
        at -= 1;
    }
    out[at] = entry;
    proof {
        lemma_insert_position(sorted, entry, at as int);
        assert(out@ =~= sorted.take(at as int).push(entry) + sorted.skip(at as int));
    }
}

/// Drops every station whose cap a pair shows to lie strictly inside the
/// cap of another station of the list, and orders the rest by what is left
/// of the budget, most first.
///
/// A pair names two stations by their position in `stations`. A pair that
/// names a position outside the list, or the same position twice, shows
/// nothing.
pub fn dedup_by_coverage(stations: &Vec<TimedNode>, pairs: &Vec<Separation>) -> (kept: Vec<
    TimedNode,
>)
    ensures
        kept@ == by_remaining(uncovered(stations@, pairs@, stations@.len())),
{
    let n: usize = stations.len();
    let mut dropped: Vec<bool> = Vec::new();
    let mut i: usize = 0;
    while i < n
        invariant
            i <= n,
            dropped@.len() == i,
            forall|k: int| 0 <= k < i ==> !dropped@[k],
        decreases n - i,
    {
        dropped.push(false);
        i += 1;
    }
    let mut j: usize = 0;
    while j < pairs.len()
        invariant
            j <= pairs@.len(),
            n == stations@.len(),
            dropped@.len() == n,
            forall|k: int| 0 <= k < n ==> dropped@[k] == covered_by(stations@, pairs@, j as int, k),
        decreases pairs@.len() - j,
    {
        let pair: Separation = pairs[j];
        let ghost before = dropped@;
        if pair.inner < n && pair.outer < n && pair.outer != pair.inner && lies_strictly_inside(
            pair.distance,
            stations[pair.inner].duration,
            stations[pair.outer].duration,
        ) {
            dropped[pair.inner] = true;
        }
        proof {
            assert forall|k: int| 0 <= k < n implies dropped@[k] == covered_by(
                stations@,
                pairs@,
                j + 1,
                k,
            ) by {
                if covered_by(stations@, pairs@, j as int, k) {
                    let w = choose|w: int| 0 <= w < j && covers(stations@, #[trigger] pairs@[w], k);
                    assert(0 <= w < j + 1 && covers(stations@, pairs@[w], k));
                } else if covers(stations@, pairs@[j as int], k) {
                    assert(covered_by(stations@, pairs@, j + 1, k));
                } else if covered_by(stations@, pairs@, j + 1, k) {
                    let w = choose|w: int|
                        0 <= w < j + 1 && covers(stations@, #[trigger] pairs@[w], k);
                    assert(w < j);
                }
            }
        }
        j += 1;
    }
    let mut kept: Vec<TimedNode> = Vec::new();
    let mut k: usize = 0;
    while k < n
        invariant
            k <= n,
            n == stations@.len(),
            dropped@.len() == n,
            forall|i: int| 0 <= i < n ==> dropped@[i] == covered(stations@, pairs@, i),
            kept@ == by_remaining(uncovered(stations@, pairs@, k as nat)),
        decreases n - k,
    {
        if !dropped[k] {
            let ghost before = uncovered(stations@, pairs@, k as nat);
            proof {
                assert(before.push(stations@[k as int]).drop_last() =~= before);
            }
            insert_ordered(&mut kept, stations[k]);
        }
        k += 1;
    }
    kept
}

} // verus!
