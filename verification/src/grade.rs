//! Grading a tour: how many of its edges run along each axis, and how often it
//! goes straight on instead of turning.
use vstd::prelude::*;
use crate::point::{Tour, V3d, adjacent, pt3, pts3};
use crate::edge::Edge;
use crate::certify::{is_chain, joins};
use crate::chains::is_closed;

verus! {

/// The axis along which two neighbours differ: 0, 1 or 2 for x, y or z.
pub open spec fn axis_between(p: (int, int, int), q: (int, int, int)) -> int {
    if p.0 != q.0 {
        0
    } else if p.1 != q.1 {
        1
    } else {
        2
    }
}

/// The axis of edge `i` of the cycle `s`, the edge from point `i` to the next
/// point, where the last point is followed by the first.
pub open spec fn edge_axis(s: Seq<(int, int, int)>, i: int) -> int {
    axis_between(s[i], s[(i + 1) % (s.len() as int)])
}

/// How many of the first `k` edges of the cycle `s` run along `axis`.
pub open spec fn axis_count(s: Seq<(int, int, int)>, axis: int, k: int) -> int
    decreases k,
{
    if k <= 0 {
        0
    } else {
        axis_count(s, axis, k - 1) + if edge_axis(s, k - 1) == axis {
            1int
        } else {
            0int
        }
    }
}

/// How many of the first `k` edges of the cycle `s` run along the axis of
/// the edge before them. The edge before the first one is the last one.
pub open spec fn straight_count(s: Seq<(int, int, int)>, k: int) -> int
    decreases k,
{
    if k <= 0 {
        0
    } else {
        straight_count(s, k - 1) + if edge_axis(s, k - 1) == edge_axis(
            s,
            if k - 1 == 0 {
                s.len() - 1
            } else {
                k - 2
            },
        ) {
            1int
        } else {
            0int
        }
    }
}

/// Every point of `s` is a neighbour of the next, and the last of the first.
pub open spec fn is_cycle(s: Seq<(int, int, int)>) -> bool {
    is_chain(s) && is_closed(s)
}

/// The axis of an edge, which joins two neighbours.
pub fn axis(edge: &Edge) -> (r: usize)
    requires
        adjacent(pt3(edge.0), pt3(edge.1)),
    ensures
        r == axis_between(pt3(edge.0), pt3(edge.1)),
        r < 3,
{
    if edge.0[0] != edge.1[0] {
        0
    } else if edge.0[1] != edge.1[1] {
        1
    } else {
        2
    }
}

/// The edge of a cycle that starts at point `i`.
fn edge_at(tour: &Tour, i: usize) -> (e: Edge)
    requires
        i < tour.len(),
        is_cycle(pts3(tour@)),
    ensures
        adjacent(pt3(e.0), pt3(e.1)),
        axis_between(pt3(e.0), pt3(e.1)) == edge_axis(pts3(tour@), i as int),
{
    let len: usize = tour.len();
    let next: usize = if i + 1 == len {
        0
    } else {
        i + 1
    };
    proof {
        let s = pts3(tour@);
        assert(next == (i + 1) % (len as int)) by {
            if i + 1 < len {
                vstd::arithmetic::div_mod::lemma_small_mod((i + 1) as nat, len as nat);
            } else {
                vstd::arithmetic::div_mod::lemma_mod_self_0(len as int);
            }
        }
        assert(s[i as int] == pt3(tour@[i as int]));
        assert(s[next as int] == pt3(tour@[next as int]));
        if i + 1 < len {
            assert(joins(s, i as int));
        } else {
            assert(s.last() == s[i as int]);
        }
    }
    (tour[i], tour[next])
}

/// Counts the edges of a cycle by the axis they run along: along x, along y
/// and along z.
pub fn axes(tour: &Tour) -> (counts: [usize; 3])
    requires
        tour@.len() == 0 || is_cycle(pts3(tour@)),
    ensures
        counts[0] == axis_count(pts3(tour@), 0, tour@.len() as int),
        counts[1] == axis_count(pts3(tour@), 1, tour@.len() as int),
        counts[2] == axis_count(pts3(tour@), 2, tour@.len() as int),
        counts[0] + counts[1] + counts[2] == tour@.len(),
{
    let mut along_x: usize = 0;
    let mut along_y: usize = 0;
    let mut along_z: usize = 0;
    let mut i: usize = 0;
    while i < tour.len()
        invariant
            i <= tour.len(),
            tour@.len() == 0 || is_cycle(pts3(tour@)),
            along_x == axis_count(pts3(tour@), 0, i as int),
            along_y == axis_count(pts3(tour@), 1, i as int),
            along_z == axis_count(pts3(tour@), 2, i as int),
            along_x + along_y + along_z == i,
        decreases tour.len() - i,
    {
        let e: Edge = edge_at(tour, i);
        let a: usize = axis(&e);
        if a == 0 {
            along_x += 1;
        } else if a == 1 {
            along_y += 1;
        } else {
            along_z += 1;
        }
        i += 1;
    }
    [along_x, along_y, along_z]
}

/// Counts the points of a cycle at which the tour goes straight on: the edges
/// that run along the axis of the edge before them.
pub fn nonturns(tour: &Tour) -> (count: usize)
    requires
        is_cycle(pts3(tour@)),
    ensures
        count == straight_count(pts3(tour@), tour@.len() as int),
        count <= tour@.len(),
{
    let len: usize = tour.len();
    let closing: Edge = edge_at(tour, len - 1);
    let mut prev_axis: usize = axis(&closing);
    let mut count: usize = 0;
    let mut i: usize = 0;
    while i < len
        invariant
            i <= len,
            len == tour@.len(),
            len > 0,
            is_cycle(pts3(tour@)),
            prev_axis == edge_axis(
                pts3(tour@),
                if i == 0 {
                    len - 1
                } else {
                    i - 1
                },
            ),
            count == straight_count(pts3(tour@), i as int),
            count <= i,
        decreases len - i,
    {
        let e: Edge = edge_at(tour, i);
        let curr_axis: usize = axis(&e);
        if curr_axis == prev_axis {
            count += 1;
        }
        prev_axis = curr_axis;
        i += 1;
    }
    count
}

/// The rows of the table that a tour is written out as: one row for every
/// point, and the first point once more as the last row, which closes the curve.
pub fn closed_rows(tour: &Tour) -> (rows: Vec<V3d>)
    requires
        tour@.len() > 0,
        tour@.len() < usize::MAX,
    ensures
        rows@ == tour@.push(tour@[0]),
{
    let mut rows: Vec<V3d> = Vec::with_capacity(tour.len() + 1);
    let mut i: usize = 0;
    while i < tour.len()
        invariant
            i <= tour.len(),
            rows@ == tour@.take(i as int),
        decreases tour.len() - i,
    {
        rows.push(tour[i]);
        proof {
            assert(rows@ =~= tour@.take(i as int + 1));
        }
        i += 1;
    }
    proof {
        assert(tour@.take(tour@.len() as int) =~= tour@);
    }
    rows.push(tour[0]);
    rows
}

} // verus!
