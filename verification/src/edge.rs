//! The edges of the cycles: the candidates for a bridge between two cycles, the
//! parallel edges next to them, and the bridge itself.
use vstd::prelude::*;
use crate::point::{V3d, abs, pt3, pts3, same_point};
use crate::cut::Warp;

verus! {

/// Two points that follow each other in a cycle.
pub type Edge = (V3d, V3d);

/// The model of an edge.
pub open spec fn edge_view(e: Edge) -> ((int, int, int), (int, int, int)) {
    (pt3(e.0), pt3(e.1))
}

/// The model of a sequence of edges.
pub open spec fn edges_view(s: Seq<Edge>) -> Seq<((int, int, int), (int, int, int))> {
    s.map_values(|e: Edge| edge_view(e))
}

/// The lexicographic order of lattice points.
pub open spec fn lex_lt(p: (int, int, int), q: (int, int, int)) -> bool {
    p.0 < q.0 || (p.0 == q.0 && (p.1 < q.1 || (p.1 == q.1 && p.2 < q.2)))
}

/// The edge with its smaller end first.
pub open spec fn orient_spec(e: ((int, int, int), (int, int, int))) -> (
    (int, int, int),
    (int, int, int),
) {
    if lex_lt(e.0, e.1) {
        e
    } else {
        (e.1, e.0)
    }
}

/// Whether `p` comes before `q` in the lexicographic order.
pub fn less(p: &V3d, q: &V3d) -> (r: bool)
    ensures
        r == lex_lt(pt3(*p), pt3(*q)),
{
    p[0] < q[0] || (p[0] == q[0] && (p[1] < q[1] || (p[1] == q[1] && p[2] < q[2])))
}

/// Orients an edge so that its smaller end comes first.
pub fn orient(edge: Edge) -> (r: Edge)
    ensures
        edge_view(r) == orient_spec(edge_view(edge)),
{
    if less(&edge.0, &edge.1) {
        edge
    } else {
        (edge.1, edge.0)
    }
}

/// Whether two edges have the same ends in the same order.
pub fn same_edge(a: &Edge, b: &Edge) -> (r: bool)
    ensures
        r == (edge_view(*a) == edge_view(*b)),
{
    same_point(&a.0, &b.0) && same_point(&a.1, &b.1)
}

/// Whether `edge` is one of `edges`.
pub fn contains_edge(edges: &Vec<Edge>, edge: &Edge) -> (r: bool)
    ensures
        r == edges_view(edges@).contains(edge_view(*edge)),
{
    let mut i: usize = 0;
    while i < edges.len()
        invariant
            i <= edges.len(),
            forall|k: int| 0 <= k < i ==> edges_view(edges@)[k] != edge_view(*edge),
        decreases edges.len() - i,
    {
        if same_edge(&edges[i], edge) {
            assert(edges_view(edges@)[i as int] == edge_view(*edge));
            return true;
        }
        i += 1;
    }
    false
}

/// The axis along which the two ends of an edge differ: 0, 1 or 2 for x, y or
/// z, where they differ along exactly one axis.
pub open spec fn axis_of(e: ((int, int, int), (int, int, int))) -> Option<int> {
    if e.0.0 != e.1.0 && e.0.1 == e.1.1 && e.0.2 == e.1.2 {
        Some(0int)
    } else if e.0.0 == e.1.0 && e.0.1 != e.1.1 && e.0.2 == e.1.2 {
        Some(1int)
    } else if e.0.0 == e.1.0 && e.0.1 == e.1.1 && e.0.2 != e.1.2 {
        Some(2int)
    } else {
        None
    }
}

/// The edge moved by the displacement `d`.
pub open spec fn shifted(e: ((int, int, int), (int, int, int)), d: (int, int, int)) -> (
    (int, int, int),
    (int, int, int),
) {
    ((e.0.0 + d.0, e.0.1 + d.1, e.0.2 + d.2), (e.1.0 + d.0, e.1.1 + d.1, e.1.2 + d.2))
}

/// The displacement from an edge of a cycle to merge to the parallel edge that
/// the lead cycle has to hold.
pub open spec fn warp_offset(axis: int) -> (int, int, int) {
    if axis == 0 {
        (0, -2, 0)
    } else if axis == 1 {
        (0, 0, 2)
    } else {
        (-2, 0, 0)
    }
}

/// The displacement from the bridge edge of the lead cycle to the parallel
/// edge that the cycle to merge has to hold.
pub open spec fn weft_offset(axis: int) -> (int, int, int) {
    if axis == 0 {
        (0, 2, 0)
    } else {
        (2, 0, 0)
    }
}

/// Whether both planar coordinates of `p` are 1 or 3.
pub open spec fn near_corner(p: (int, int, int)) -> bool {
    (p.0 == 1 || p.0 == 3) && (p.1 == 1 || p.1 == 3)
}

/// The parallel edge next to an edge of a cycle to merge.
pub open spec fn warp_eadj(e: ((int, int, int), (int, int, int))) -> (
    (int, int, int),
    (int, int, int),
) {
    shifted(e, warp_offset(axis_of(e).unwrap()))
}

/// The parallel edge next to the bridge edge of the lead cycle.
pub open spec fn weft_eadj(e: ((int, int, int), (int, int, int))) -> (
    (int, int, int),
    (int, int, int),
) {
    shifted(e, weft_offset(axis_of(e).unwrap()))
}

/// The parallel edges next to the first `k` of `edges`, of those whose second
/// end is near the corner.
pub open spec fn eadjs_spec(edges: Seq<((int, int, int), (int, int, int))>, k: int) -> Seq<
    ((int, int, int), (int, int, int)),
>
    decreases k,
{
    if k <= 0 {
        Seq::empty()
    } else if near_corner(edges[k - 1].1) {
        eadjs_spec(edges, k - 1).push(warp_eadj(edges[k - 1]))
    } else {
        eadjs_spec(edges, k - 1)
    }
}

/// Every edge of `edges` whose second end is near the corner runs along an
/// axis, below the largest elevation.
pub open spec fn shiftable(edges: Seq<((int, int, int), (int, int, int))>) -> bool {
    forall|i: int|
        0 <= i < edges.len() && near_corner((#[trigger] edges[i]).1) ==> axis_of(edges[i])
            is Some && edges[i].0.2 + 2 <= i16::MAX && edges[i].1.2 + 2 <= i16::MAX
}

/// The axis of an edge that runs along an axis.
pub fn parallel_axis(edge: &Edge) -> (r: Option<usize>)
    ensures
        match r {
            Some(a) => axis_of(edge_view(*edge)) == Some(a as int),
            None => axis_of(edge_view(*edge)) is None,
        },
{
    let dx: bool = edge.0[0] != edge.1[0];
    let dy: bool = edge.0[1] != edge.1[1];
    let dz: bool = edge.0[2] != edge.1[2];
    if dx && !dy && !dz {
        Some(0)
    } else if !dx && dy && !dz {
        Some(1)
    } else if !dx && !dy && dz {
        Some(2)
    } else {
        None
    }
}

/// The parallel edges next to the edges of a cycle to merge: for each edge
/// whose second end is near the corner, the edge moved by two along the axis
/// that belongs to its own.
pub fn eadjs(edges: &Vec<Edge>) -> (out: Vec<Edge>)
    requires
        shiftable(edges_view(edges@)),
    ensures
        edges_view(out@) == eadjs_spec(edges_view(edges@), edges@.len() as int),
{
    let ghost es = edges_view(edges@);
    let mut out: Vec<Edge> = Vec::new();
    let mut i: usize = 0;
    while i < edges.len()
        invariant
            i <= edges.len(),
            es == edges_view(edges@),
            shiftable(es),
            edges_view(out@) == eadjs_spec(es, i as int),
        decreases edges.len() - i,
    {
        let e: Edge = edges[i];
        let ghost before = edges_view(out@);
        assert(es[i as int] == edge_view(e));
        if (e.1[0] == 1 || e.1[0] == 3) && (e.1[1] == 1 || e.1[1] == 3) {
            let (a, b, c): (i16, i16, i16) = (e.0[0], e.0[1], e.0[2]);
            let (x, y, z): (i16, i16, i16) = (e.1[0], e.1[1], e.1[2]);
            let moved: Edge = match parallel_axis(&e) {
                Some(0) => ([a, b - 2, c], [x, y - 2, z]),
                Some(1) => ([a, b, c + 2], [x, y, z + 2]),
                _ => ([a - 2, b, c], [x - 2, y, z]),
            };
            out.push(moved);
            proof {
                assert(edge_view(moved) == warp_eadj(es[i as int]));
                assert(edges_view(out@) =~= before.push(edge_view(moved)));
            }
        }
        i += 1;
    }
    out
}

/// Whether the parallel edge next to the bridge edge of the lead cycle can be
/// formed: the edge runs along an axis, and has room beside it.
pub open spec fn weft_shiftable(e: ((int, int, int), (int, int, int))) -> bool {
    &&& axis_of(e) is Some
    &&& e.0.0 + 2 <= i16::MAX
    &&& e.1.0 + 2 <= i16::MAX
    &&& e.0.1 + 2 <= i16::MAX
    &&& e.1.1 + 2 <= i16::MAX
}

/// The parallel edge next to the bridge edge of the lead cycle.
pub fn get_eadjs(edge: &Edge) -> (out: Edge)
    requires
        weft_shiftable(edge_view(*edge)),
    ensures
        edge_view(out) == weft_eadj(edge_view(*edge)),
{
    let (a, b, c): (i16, i16, i16) = (edge.0[0], edge.0[1], edge.0[2]);
    let (x, y, z): (i16, i16, i16) = (edge.1[0], edge.1[1], edge.1[2]);
    match parallel_axis(edge) {
        Some(0) => ([a, b + 2, c], [x, y + 2, z]),
        _ => ([a + 2, b, c], [x + 2, y, z]),
    }
}

/// Confirms the bridge edge of the lead cycle against the candidates of the
/// cycle to merge: the edge bridges the two cycles if it is the parallel edge
/// next to one of the candidates.
pub fn bridge(weft_edge: &Edge, warp_edges: &Vec<Edge>) -> (r: Option<Edge>)
    requires
        shiftable(edges_view(warp_edges@)),
    ensures
        r is Some <==> eadjs_spec(edges_view(warp_edges@), warp_edges@.len() as int).contains(
            edge_view(*weft_edge),
        ),
        r is Some ==> r.unwrap() == *weft_edge,
{
    let parallels: Vec<Edge> = eadjs(warp_edges);
    if contains_edge(&parallels, weft_edge) {
        Some(*weft_edge)
    } else {
        None
    }
}

/// The bridge edge of the cycle to merge: the parallel edge next to the bridge
/// edge of the lead cycle, if it is one of the candidates, taken backwards.
pub fn warp_bridge(warp_edges: &Vec<Edge>, weft_bridge: &Edge) -> (r: Option<Edge>)
    requires
        weft_shiftable(edge_view(*weft_bridge)),
    ensures
        r is Some <==> edges_view(warp_edges@).contains(weft_eadj(edge_view(*weft_bridge))),
        r is Some ==> edge_view(r.unwrap()) == (
            weft_eadj(edge_view(*weft_bridge)).1,
            weft_eadj(edge_view(*weft_bridge)).0,
        ),
{
    let other: Edge = get_eadjs(weft_bridge);
    if contains_edge(warp_edges, &other) {
        Some((other.1, other.0))
    } else {
        None
    }
}

/// Whether two consecutive points of the lead cycle can be its bridge edge:
/// the first has x = 1, the second has x = 3 before the first merge and x = 1
/// after it, and their elevations add up to the current band.
pub open spec fn weft_candidate(
    p: (int, int, int),
    q: (int, int, int),
    joined: bool,
    sum: int,
) -> bool {
    p.0 == 1 && q.0 == (if joined {
        1int
    } else {
        3int
    }) && abs(p.2 + q.2) == sum
}

/// The index of the first candidate from index `k` on, or the length of the
/// cycle if there is none.
pub open spec fn first_candidate(data: Seq<(int, int, int)>, joined: bool, sum: int, k: int) -> int
    decreases data.len() - k,
{
    if k < 0 || k + 1 >= data.len() {
        data.len() as int
    } else if weft_candidate(data[k], data[k + 1], joined, sum) {
        k
    } else {
        first_candidate(data, joined, sum, k + 1)
    }
}

/// The bridge edge of the lead cycle: its first candidate, oriented.
pub open spec fn weft_edge(data: Seq<(int, int, int)>, joined: bool, sum: int) -> Option<
    ((int, int, int), (int, int, int)),
> {
    let i = first_candidate(data, joined, sum, 0);
    if i + 1 < data.len() {
        Some(orient_spec((data[i], data[i + 1])))
    } else {
        None
    }
}

/// Whether two consecutive points of a cycle to merge can be its bridge edge:
/// the first is near the corner, the second has y = 3 before the first merge
/// and y = 1 after it, and their elevations add up to the current band.
pub open spec fn warp_candidate(
    p: (int, int, int),
    q: (int, int, int),
    joined: bool,
    sum: int,
) -> bool {
    near_corner(p) && q.1 == (if joined {
        1int
    } else {
        3int
    }) && abs(p.2 + q.2) == sum
}

/// The candidates among the first `k` edges of the cycle `warp`, oriented. The
/// last point of the cycle is followed by the first.
pub open spec fn warp_edges(warp: Seq<(int, int, int)>, joined: bool, sum: int, k: int) -> Seq<
    ((int, int, int), (int, int, int)),
>
    decreases k,
{
    if k <= 0 {
        Seq::empty()
    } else if warp_candidate(warp[k - 1], warp[k % (warp.len() as int)], joined, sum) {
        warp_edges(warp, joined, sum, k - 1).push(
            orient_spec((warp[k - 1], warp[k % (warp.len() as int)])),
        )
    } else {
        warp_edges(warp, joined, sum, k - 1)
    }
}

/// The sum of two elevations, without its sign.
pub fn abs_sum(a: i16, b: i16) -> (r: i32)
    ensures
        r == abs(a + b),
{
    let s: i32 = a as i32 + b as i32;
    if s < 0 {
        -s
    } else {
        s
    }
}

/// The candidate bridge edges of a cycle to merge, in the order of the cycle.
pub fn edges(warp: &Warp, max_sum_z: i16, joined: bool) -> (out: Vec<Edge>)
    ensures
        edges_view(out@) == warp_edges(pts3(warp@), joined, max_sum_z as int, warp@.len() as int),
{
    let ghost w = pts3(warp@);
    let mut out: Vec<Edge> = Vec::new();
    let len: usize = warp.len();
    let mut k: usize = 0;
    while k < len
        invariant
            k <= len,
            len == warp.len(),
            w == pts3(warp@),
            edges_view(out@) == warp_edges(w, joined, max_sum_z as int, k as int),
        decreases len - k,
    {
        let next: usize = if k + 1 == len {
            0
        } else {
            k + 1
        };
        let p: V3d = warp[k];
        let q: V3d = warp[next];
        let ghost before = edges_view(out@);
        proof {
            assert(next == (k + 1) % (len as int)) by {
                if k + 1 < len {
                    vstd::arithmetic::div_mod::lemma_small_mod((k + 1) as nat, len as nat);
                } else {
                    vstd::arithmetic::div_mod::lemma_mod_self_0(len as int);
                }
            }
            assert(w[k as int] == pt3(p));
            assert(w[next as int] == pt3(q));
        }
        let wanted: i16 = if joined {
            1
        } else {
            3
        };
        if (p[0] == 1 || p[0] == 3) && (p[1] == 1 || p[1] == 3) && q[1] == wanted && abs_sum(
            p[2],
            q[2],
        ) == max_sum_z as i32 {
            let e: Edge = orient((p, q));
            out.push(e);
            proof {
                assert(edges_view(out@) =~= before.push(edge_view(e)));
            }
        }
        k += 1;
    }
    out
}

/// Every edge of `edges` whose second end is near the corner runs along an axis.
pub open spec fn parallel_to_axes(edges: Seq<((int, int, int), (int, int, int))>) -> bool {
    forall|i: int|
        0 <= i < edges.len() && near_corner((#[trigger] edges[i]).1) ==> axis_of(edges[i]) is Some
}

/// Every candidate edge of a cycle joins two points of the cycle.
pub proof fn lemma_warp_edges_members(
    warp: Seq<(int, int, int)>,
    joined: bool,
    sum: int,
    k: int,
)
    requires
        0 <= k <= warp.len(),
    ensures
        forall|i: int|
            0 <= i < warp_edges(warp, joined, sum, k).len() ==> warp.contains(
                (#[trigger] warp_edges(warp, joined, sum, k)[i]).0,
            ) && warp.contains(warp_edges(warp, joined, sum, k)[i].1),
    decreases k,
{
    if k > 0 {
        lemma_warp_edges_members(warp, joined, sum, k - 1);
        let next = k % (warp.len() as int);
        assert(0 <= next < warp.len()) by {
            vstd::arithmetic::div_mod::lemma_mod_bound(k, warp.len() as int);
        }
        assert(warp.contains(warp[k - 1]));
        assert(warp.contains(warp[next]));
        let rest = warp_edges(warp, joined, sum, k - 1);
        let all = warp_edges(warp, joined, sum, k);
        assert forall|i: int| 0 <= i < all.len() implies warp.contains((#[trigger] all[i]).0)
            && warp.contains(all[i].1) by {
            if i < rest.len() {
                assert(all[i] == rest[i]);
            }
        }
    }
}

/// The bridge edge of the lead cycle joins two points of the cycle, and where
/// there is one, the band is not negative.
pub proof fn lemma_weft_edge_members(data: Seq<(int, int, int)>, joined: bool, sum: int, k: int)
    requires
        0 <= k,
    ensures
        k <= first_candidate(data, joined, sum, k) || first_candidate(data, joined, sum, k)
            == data.len(),
        first_candidate(data, joined, sum, k) + 1 < data.len() ==> weft_candidate(
            data[first_candidate(data, joined, sum, k)],
            data[first_candidate(data, joined, sum, k) + 1],
            joined,
            sum,
        ) && sum >= 0,
    decreases data.len() - k,
{
    if k + 1 < data.len() && !weft_candidate(data[k], data[k + 1], joined, sum) {
        lemma_weft_edge_members(data, joined, sum, k + 1);
    }
}

/// Every parallel edge in `eadjs_spec` lies next to one of the edges it was
/// made from.
pub proof fn lemma_eadjs_members(
    edges: Seq<((int, int, int), (int, int, int))>,
    k: int,
    e: ((int, int, int), (int, int, int)),
)
    requires
        0 <= k <= edges.len(),
        eadjs_spec(edges, k).contains(e),
    ensures
        exists|i: int| 0 <= i < k && near_corner((#[trigger] edges[i]).1) && e == warp_eadj(edges[i]),
    decreases k,
{
    if k > 0 {
        let rest = eadjs_spec(edges, k - 1);
        let j = choose|j: int| 0 <= j < eadjs_spec(edges, k).len() && eadjs_spec(edges, k)[j] == e;
        if near_corner(edges[k - 1].1) && j == rest.len() {
            assert(e == warp_eadj(edges[k - 1]));
        } else {
            assert(rest[j] == e);
            lemma_eadjs_members(edges, k - 1, e);
        }
    }
}

/// Whether every edge whose second end is near the corner runs along an axis.
pub fn all_parallel(edges: &Vec<Edge>) -> (r: bool)
    ensures
        r == parallel_to_axes(edges_view(edges@)),
{
    let mut i: usize = 0;
    while i < edges.len()
        invariant
            i <= edges.len(),
            forall|k: int|
                0 <= k < i && near_corner((#[trigger] edges_view(edges@)[k]).1) ==> axis_of(
                    edges_view(edges@)[k],
                ) is Some,
        decreases edges.len() - i,
    {
        let e: Edge = edges[i];
        assert(edges_view(edges@)[i as int] == edge_view(e));
        if (e.1[0] == 1 || e.1[0] == 3) && (e.1[1] == 1 || e.1[1] == 3) {
            if parallel_axis(&e).is_none() {
                return false;
            }
        }
        i += 1;
    }
    true
}

} // verus!
