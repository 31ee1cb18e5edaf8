//! Which stations lie close enough to one another for their caps to be
//! compared.
//!
//! Coordinates are the bit patterns of 32-bit floats. A pattern is mapped to
//! a whole number that grows as the float does, so that a box of floats and
//! the box of their numbers hold the same stations. The stations are kept in
//! the R-tree of the `rstar` crate, which finds those inside a box without
//! looking at all of them.

use crate::graph::{Error, Graph};
use crate::isochrone::TimedNode;
use rstar::primitives::GeomWithData;
use rstar::{RTree, AABB};
use vstd::multiset::Multiset;
use vstd::prelude::*;

verus! {

/// The whole number that stands for the float with the given bits: its
/// magnitude bits, negated where the sign bit is set. Both zeros are 0.
pub open spec fn ordered(bits: u32) -> int {
    if bits < 0x8000_0000 {
        bits as int
    } else {
        -(bits - 0x8000_0000)
    }
}

/// Maps the bits of a float to the whole number that stands for it.
pub fn ordered_key(bits: u32) -> (r: i32)
    ensures
        r == ordered(bits),
{
    if bits < 0x8000_0000 {
        bits as i32
    } else {
        -((bits - 0x8000_0000) as i32)
    }
}

/// A station in the index: the numbers that stand for its longitude and its
/// latitude, and its position in the list of stations.
pub type Marker = (i32, i32, usize);

/// The box around the cap of a station, by two opposite corners. Each
/// coordinate is the bit pattern of a 32-bit float.
#[derive(Clone, Copy, Debug, PartialEq, Eq, Structural)]
pub struct CapBox {
    /// Latitude of the first corner.
    pub lower_lat: u32,
    /// Longitude of the first corner.
    pub lower_lon: u32,
    /// Latitude of the opposite corner.
    pub upper_lat: u32,
    /// Longitude of the opposite corner.
    pub upper_lon: u32,
}

/// Whether `x` lies between `a` and `b`, whichever of the two is smaller.
pub open spec fn between(a: int, b: int, x: int) -> bool {
    (a <= x <= b) || (b <= x <= a)
}

/// Whether a marker lies in the box with the given opposite corners, rim
/// included.
pub open spec fn inside(first: (i32, i32), second: (i32, i32), marker: (i32, i32, usize)) -> bool {
    between(first.0 as int, second.0 as int, marker.0 as int) && between(
        first.1 as int,
        second.1 as int,
        marker.1 as int,
    )
}

/// An R-tree over the markers of stations, `rstar::RTree`.
#[verifier::external_body]
pub struct PlaceIndex {
    tree: RTree<GeomWithData<[i32; 2], usize>>,
}

/// The markers that an index holds.
pub uninterp spec fn indexed(index: PlaceIndex) -> Multiset<(i32, i32, usize)>;

/// `RTree::bulk_load`: an index that holds exactly the given markers.
#[verifier::external_body]
fn index_places(markers: Vec<Marker>) -> (index: PlaceIndex)
    ensures
        indexed(index) == markers@.to_multiset(),
{
    let mut items = Vec::with_capacity(markers.len());
    for (x, y, at) in markers {
        items.push(GeomWithData::new([x, y], at));
    }
    PlaceIndex { tree: RTree::bulk_load(items) }
}

/// `RTree::locate_in_envelope` with the envelope of
/// `AABB::from_corners`: every marker of the index that lies in the box
/// with the given opposite corners, as often as the index holds it, and in
/// no particular order.
#[verifier::external_body]
fn places_within(index: &PlaceIndex, first: (i32, i32), second: (i32, i32)) -> (found: Vec<
    Marker,
>)
    ensures
        forall|marker: (i32, i32, usize)|
            #[trigger] found@.to_multiset().count(marker) == (if inside(first, second, marker) {
                indexed(*index).count(marker)
            } else {
                0
            }),
{
    let envelope = AABB::from_corners([first.0, first.1], [second.0, second.1]);
    let mut found = Vec::new();
    for item in index.tree.locate_in_envelope(&envelope) {
        found.push((item.geom()[0], item.geom()[1], item.data));
    }
    found
}

/// The marker of the station at position `at` of `stations`.
pub open spec fn marker_of(graph: &Graph, stations: Seq<TimedNode>, at: int) -> (i32, i32, usize) {
    let node = graph.nodes@[stations[at].node as int]@;
    (ordered(node.lon) as i32, ordered(node.lat) as i32, at as usize)
}

/// Whether the station at position `inner` is another station than the one
/// at position `outer` and lies in the box around the cap of that one.
pub open spec fn is_candidate(
    graph: &Graph,
    stations: Seq<TimedNode>,
    boxes: Seq<CapBox>,
    outer: int,
    inner: int,
) -> bool {
    &&& 0 <= outer < stations.len()
    &&& 0 <= inner < stations.len()
    &&& outer != inner
    &&& inside(
        (ordered(boxes[outer].lower_lon) as i32, ordered(boxes[outer].lower_lat) as i32),
        (ordered(boxes[outer].upper_lon) as i32, ordered(boxes[outer].upper_lat) as i32),
        marker_of(graph, stations, inner),
    )
}

/// Whether `stations` and `boxes` can be compared: every entry names a
/// station of the graph and has a box.
pub open spec fn comparable(graph: &Graph, stations: Seq<TimedNode>, boxes: Seq<CapBox>) -> bool {
    &&& boxes.len() == stations.len()
    &&& forall|i: int|
        0 <= i < stations.len() ==> (#[trigger] stations[i]).node < graph.nodes@.len()
}

/// What a search of the index for a box has found, given what the index
/// holds: markers of the list, each once, and all of those in the box.
proof fn lemma_found(
    all: Seq<(i32, i32, usize)>,
    found: Seq<(i32, i32, usize)>,
    first: (i32, i32),
    second: (i32, i32),
)
    requires
        forall|k: int| 0 <= k < all.len() ==> (#[trigger] all[k]).2 == k,
        forall|marker: (i32, i32, usize)|
            #[trigger] found.to_multiset().count(marker) == (if inside(first, second, marker) {
                all.to_multiset().count(marker)
            } else {
                0
            }),
    ensures
        found.no_duplicates(),
        forall|k: int|
            0 <= k < found.len() ==> {
                &&& 0 <= (#[trigger] found[k]).2 < all.len()
                &&& found[k] == all[found[k].2 as int]
                &&& inside(first, second, found[k])
            },
        forall|c: int|
            0 <= c < all.len() && inside(first, second, all[c]) ==> found.contains(
                #[trigger] all[c],
            ),
{
    assert forall|a: int, b: int| 0 <= a < all.len() && 0 <= b < all.len() && a != b implies all[a]
        != all[b] by {
        assert(all[a].2 == a && all[b].2 == b);
    }
    all.lemma_multiset_has_no_duplicates();
    all.to_multiset_ensures();
    found.to_multiset_ensures();
    assert forall|x: (i32, i32, usize)|
        found.to_multiset().contains(x) implies found.to_multiset().count(x) == 1 by {
        assert(found.to_multiset().count(x) > 0);
        assert(all.to_multiset().count(x) > 0);
        assert(all.to_multiset().contains(x));
    }
    found.lemma_multiset_has_no_duplicates_conv();
    assert forall|k: int| 0 <= k < found.len() implies {
        &&& 0 <= (#[trigger] found[k]).2 < all.len()
        &&& found[k] == all[found[k].2 as int]
        &&& inside(first, second, found[k])
    } by {
        assert(found.contains(found[k]));
        assert(found.to_multiset().count(found[k]) > 0);
        assert(all.to_multiset().count(found[k]) > 0);
        assert(all.contains(found[k]));
        let c = choose|c: int| 0 <= c < all.len() && all[c] == found[k];
        assert(all[c].2 == c);
    }
    assert forall|c: int|
        0 <= c < all.len() && inside(first, second, all[c]) implies found.contains(
        #[trigger] all[c],
    ) by {
        assert(all.contains(all[c]));
        assert(all.to_multiset().count(all[c]) > 0);
        assert(found.to_multiset().count(all[c]) == all.to_multiset().count(all[c]));
    }
}

/// The positions of the markers in `found`, but for `outer`.
fn positions_but(found: &Vec<Marker>, outer: usize) -> (near: Vec<usize>)
    requires
        forall|a: int, b: int|
            0 <= a < found@.len() && 0 <= b < found@.len() && a != b ==> found@[a].2 != found@[b].2,
    ensures
        near@.no_duplicates(),
        forall|c: usize|
            near@.contains(c) <==> c != outer && exists|k: int|
                0 <= k < found@.len() && (#[trigger] found@[k]).2 == c,
{
    let mut near: Vec<usize> = Vec::new();
    let mut j: usize = 0;
    while j < found.len()
        invariant
            j <= found@.len(),
            forall|a: int, b: int|
                0 <= a < found@.len() && 0 <= b < found@.len() && a != b ==> found@[a].2
                    != found@[b].2,
            near@.no_duplicates(),
            forall|c: usize|
                near@.contains(c) <==> c != outer && exists|k: int|
                    0 <= k < j && (#[trigger] found@[k]).2 == c,
        decreases found@.len() - j,
    {
        let inner: usize = found[j].2;
        let ghost before = near@;
        if inner != outer {
            proof {
                if before.contains(inner) {
                    let k = choose|k: int| 0 <= k < j && (#[trigger] found@[k]).2 == inner;
                    assert(found@[k].2 == found@[j as int].2);
                }
            }
            near.push(inner);
        }
        proof {
            assert forall|c: usize|
                near@.contains(c) <==> c != outer && exists|k: int|
                    0 <= k < j + 1 && (#[trigger] found@[k]).2 == c by {
                if near@.contains(c) {
                    let at = choose|at: int| 0 <= at < near@.len() && near@[at] == c;
                    if at < before.len() {
                        assert(before.contains(c));
                        let k = choose|k: int| 0 <= k < j && (#[trigger] found@[k]).2 == c;
                        assert(0 <= k < j + 1 && found@[k].2 == c);
                    } else {
                        assert(0 <= j < j + 1 && found@[j as int].2 == c);
                    }
                }
                if c != outer && exists|k: int| 0 <= k < j + 1 && (#[trigger] found@[k]).2 == c {
                    let k = choose|k: int| 0 <= k < j + 1 && (#[trigger] found@[k]).2 == c;
                    if k < j {
                        assert(before.contains(c));
                        let at = choose|at: int| 0 <= at < before.len() && before[at] == c;
                        assert(near@[at] == c);
                    } else {
                        assert(near@[near@.len() - 1] == c);
                    }
                }
            }
        }
        j += 1;
    }
    near
}

/// Lists, for each station, the stations whose caps are worth comparing
/// with its cap: every other station that lies in the box around it. Entry
/// `outer` of the result holds their positions in `stations`, each once and
/// in no particular order.
///
/// Fails with `InvalidInput` where an entry names a station that the graph
/// does not have, or where there is not one box for each entry.
pub fn coverage_candidates(graph: &Graph, stations: &Vec<TimedNode>, boxes: &Vec<CapBox>) -> (r:
    Result<Vec<Vec<usize>>, Error>)
    ensures
        match r {
            Ok(near) => {
                &&& comparable(graph, stations@, boxes@)
                &&& near@.len() == stations@.len()
                &&& forall|outer: int|
                    0 <= outer < near@.len() ==> (#[trigger] near@[outer])@.no_duplicates()
                &&& forall|outer: int, inner: usize|
                    0 <= outer < near@.len() ==> (#[trigger] near@[outer]@.contains(inner)
                        <==> is_candidate(graph, stations@, boxes@, outer, inner as int))
            },
            Err(e) => e == Error::InvalidInput && !comparable(graph, stations@, boxes@),
        },
{
    let n: usize = stations.len();
    if boxes.len() != n {
        return Err(Error::InvalidInput);
    }
    let mut markers: Vec<Marker> = Vec::new();
    let mut i: usize = 0;
    while i < n
        invariant
            i <= n,
            n == stations@.len(),
            markers@.len() == i,
            forall|k: int| 0 <= k < i ==> (#[trigger] stations@[k]).node < graph.nodes@.len(),
            forall|k: int| 0 <= k < i ==> #[trigger] markers@[k] == marker_of(graph, stations@, k),
        decreases n - i,
    {
        let station: usize = stations[i].node;
        if station >= graph.nodes.len() {
            return Err(Error::InvalidInput);
        }
        let node = &graph.nodes[station];
        markers.push((ordered_key(node.lon()), ordered_key(node.lat()), i));
        i += 1;
    }
    let ghost all = markers@;
    let index = index_places(markers);
    let mut near: Vec<Vec<usize>> = Vec::new();
    let mut outer: usize = 0;
    while outer < n
        invariant
            outer <= n,
            n == stations@.len(),
            n == boxes@.len(),
            all.len() == n,
            indexed(index) == all.to_multiset(),
            forall|k: int| 0 <= k < n ==> #[trigger] all[k] == marker_of(graph, stations@, k),
            near@.len() == outer,
            forall|a: int| 0 <= a < outer ==> (#[trigger] near@[a])@.no_duplicates(),
            forall|a: int, b: usize|
                0 <= a < outer ==> (#[trigger] near@[a]@.contains(b) <==> is_candidate(
                    graph,
                    stations@,
                    boxes@,
                    a,
                    b as int,
                )),
        decreases n - outer,
    {
        let cap: CapBox = boxes[outer];
        let first = (ordered_key(cap.lower_lon), ordered_key(cap.lower_lat));
        let second = (ordered_key(cap.upper_lon), ordered_key(cap.upper_lat));
        let found = places_within(&index, first, second);
        proof {
            lemma_found(all, found@, first, second);
            assert forall|a: int, b: int|
                0 <= a < found@.len() && 0 <= b < found@.len() && a != b implies found@[a].2
                != found@[b].2 by {
                if found@[a].2 == found@[b].2 {
                    assert(found@[a] == all[found@[a].2 as int]);
                    assert(found@[b] == all[found@[b].2 as int]);
                }
            }
        }
        let others = positions_but(&found, outer);
        proof {
            assert forall|b: usize|
                others@.contains(b) <==> is_candidate(
                    graph,
                    stations@,
                    boxes@,
                    outer as int,
                    b as int,
                ) by {
                if others@.contains(b) {
                    let k = choose|k: int| 0 <= k < found@.len() && (#[trigger] found@[k]).2 == b;
                    assert(found@[k] == all[b as int]);
                }
                if is_candidate(graph, stations@, boxes@, outer as int, b as int) {
                    assert(found@.contains(all[b as int]));
                    let k = choose|k: int| 0 <= k < found@.len() && found@[k] == all[b as int];
                    assert(found@[k].2 == b);
                }
            }
        }
        near.push(others);
        outer += 1;
    }
    Ok(near)
}

} // verus!
