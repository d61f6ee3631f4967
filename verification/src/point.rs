//! Lattice points, their mathematical model and the basic geometric predicates.
use vstd::prelude::*;

verus! {

/// A point of a level template.
pub type V2d = [i16; 2];

/// A lattice point.
pub type V3d = [i16; 3];

/// A closed or open sequence of lattice points.
pub type Tour = Vec<V3d>;

/// The model of a planar point: its two coordinates as mathematical integers.
pub open spec fn pt2(p: V2d) -> (int, int) {
    (p[0] as int, p[1] as int)
}

/// The model of a lattice point: its three coordinates as mathematical integers.
pub open spec fn pt3(p: V3d) -> (int, int, int) {
    (p[0] as int, p[1] as int, p[2] as int)
}

/// The model of a sequence of planar points.
pub open spec fn pts2(s: Seq<V2d>) -> Seq<(int, int)> {
    s.map_values(|p: V2d| pt2(p))
}

/// The model of a sequence of lattice points.
pub open spec fn pts3(s: Seq<V3d>) -> Seq<(int, int, int)> {
    s.map_values(|p: V3d| pt3(p))
}

/// Absolute value of a mathematical integer.
pub open spec fn abs(x: int) -> int {
    if x < 0 {
        -x
    } else {
        x
    }
}

/// The L1-norm of a planar point.
pub open spec fn l1norm2(p: (int, int)) -> int {
    abs(p.0) + abs(p.1)
}

/// The L1-norm of a lattice point: its Manhattan distance from the origin.
pub open spec fn l1norm3(p: (int, int, int)) -> int {
    abs(p.0) + abs(p.1) + abs(p.2)
}

/// Two planar points are neighbours when they differ by exactly two along exactly one axis.
pub open spec fn adjacent2(p: (int, int), q: (int, int)) -> bool {
    ||| (abs(p.0 - q.0) == 2 && p.1 == q.1)
    ||| (p.0 == q.0 && abs(p.1 - q.1) == 2)
}

/// Two lattice points are neighbours when they differ by exactly two along exactly one axis.
pub open spec fn adjacent(p: (int, int, int), q: (int, int, int)) -> bool {
    ||| (abs(p.0 - q.0) == 2 && p.1 == q.1 && p.2 == q.2)
    ||| (p.0 == q.0 && abs(p.1 - q.1) == 2 && p.2 == q.2)
    ||| (p.0 == q.0 && p.1 == q.1 && abs(p.2 - q.2) == 2)
}

/// Points with the same model are the same point.
pub proof fn lemma_pt3_injective(p: V3d, q: V3d)
    ensures
        pt3(p) == pt3(q) <==> p == q,
{
    if pt3(p) == pt3(q) {
        assert(p =~= q);
    }
}

/// A sequence of points is free of duplicates exactly when its model is.
pub proof fn lemma_pts3_no_duplicates(s: Seq<V3d>)
    ensures
        pts3(s).no_duplicates() <==> s.no_duplicates(),
{
    if s.no_duplicates() {
        assert forall|i: int, j: int|
            0 <= i < pts3(s).len() && 0 <= j < pts3(s).len() && i != j implies pts3(s)[i] != pts3(
            s,
        )[j] by {
            lemma_pt3_injective(s[i], s[j]);
        }
    }
    if pts3(s).no_duplicates() {
        assert forall|i: int, j: int| 0 <= i < s.len() && 0 <= j < s.len() && i != j implies s[i]
            != s[j] by {
            assert(pts3(s)[i] != pts3(s)[j]);
        }
    }
}

/// Whether two lattice points are the same point.
pub fn same_point(p: &V3d, q: &V3d) -> (r: bool)
    ensures
        r == (pt3(*p) == pt3(*q)),
        r == (*p == *q),
{
    proof {
        lemma_pt3_injective(*p, *q);
    }
    p[0] == q[0] && p[1] == q[1] && p[2] == q[2]
}

/// The L1-norm of a lattice point.
pub fn l1norm(p: &V3d) -> (r: i32)
    ensures
        r == l1norm3(pt3(*p)),
{
    let x: i32 = p[0] as i32;
    let y: i32 = p[1] as i32;
    let z: i32 = p[2] as i32;
    let ax: i32 = if x < 0 { -x } else { x };
    let ay: i32 = if y < 0 { -y } else { y };
    let az: i32 = if z < 0 { -z } else { z };
    ax + ay + az
}

/// The L1-norm of a planar point.
pub fn l1norm_2d(p: &V2d) -> (r: i32)
    ensures
        r == l1norm2(pt2(*p)),
{
    let x: i32 = p[0] as i32;
    let y: i32 = p[1] as i32;
    let ax: i32 = if x < 0 { -x } else { x };
    let ay: i32 = if y < 0 { -y } else { y };
    ax + ay
}

/// Whether `p` and `q` are neighbours in the lattice.
pub fn is_adj_to(p: &V3d, q: &V3d) -> (r: bool)
    ensures
        r == adjacent(pt3(*p), pt3(*q)),
{
    let dx: i32 = p[0] as i32 - q[0] as i32;
    let dy: i32 = p[1] as i32 - q[1] as i32;
    let dz: i32 = p[2] as i32 - q[2] as i32;
    ((dx == 2 || dx == -2) && dy == 0 && dz == 0) || (dx == 0 && (dy == 2 || dy == -2) && dz == 0)
        || (dx == 0 && dy == 0 && (dz == 2 || dz == -2))
}

/// Every point of `s` satisfies `f`.
pub open spec fn each(s: Seq<(int, int, int)>, f: spec_fn((int, int, int)) -> bool) -> bool {
    forall|k: int| 0 <= k < s.len() ==> f(#[trigger] s[k])
}

/// Every point of every thread of `loom` satisfies `f`.
pub open spec fn each_thread(
    loom: Seq<Seq<(int, int, int)>>,
    f: spec_fn((int, int, int)) -> bool,
) -> bool {
    forall|i: int| 0 <= i < loom.len() ==> each(#[trigger] loom[i], f)
}

} // verus!
