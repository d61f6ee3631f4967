//! The levels of the graph: the fragment of every level is the spiral of the
//! level's own order-index, whatever the order-index of the graph, and the
//! levels and their mirror images together hold every vertex once.
use vstd::prelude::*;
use crate::point::{adjacent2, l1norm2, l1norm3};
use crate::info::{
    Color, is_vertex, lemma_order_step, lemma_order_zero, level_color, level_size, level_start,
    level_z, order_of, spool_size_of,
};
use crate::spin::{
    lap_point, lemma_spiral_is_hamiltonian_path, lemma_spiral_norm, lemma_spiral_onto,
    lemma_spool_split, spiral, spiral_index, spiral_point,
};
use crate::color::{red_of, red_point};
use crate::cut::{fragment, lift};
use crate::loom::reflect;
use crate::weave::template;
use crate::certify::{coordinate_sum, is_chain, joins, within_norm};
use crate::chains::{lemma_sum_concat, lemma_sum_reflect};

verus! {

/// The spiral of order-index `k` is the tail of every spiral whose order-index
/// is larger by an even number.
pub proof fn lemma_spiral_peel(n: int, k: int, j: int)
    requires
        0 <= k <= n,
        (n - k) % 2 == 0,
        0 <= j < spool_size_of(k),
    ensures
        spool_size_of(k) <= spool_size_of(n),
        spiral_point(n, spool_size_of(n) - spool_size_of(k) + j) == spiral_point(k, j),
    decreases n - k,
{
    if k < n {
        lemma_spool_split(n);
        lemma_spiral_peel(n - 2, k, j);
        assert(spool_size_of(k) >= 0) by (nonlinear_arith)
            requires
                k >= 0,
        ;
    }
}

/// The red image of the spiral of order-index `k - 1` is the spiral of
/// order-index `k` without its first `4k` points.
pub proof fn lemma_red_self_similar(k: int, i: int)
    requires
        1 <= k,
        0 <= i < spool_size_of(k - 1),
    ensures
        spool_size_of(k) == 4 * k + spool_size_of(k - 1),
        red_point(spiral_point(k - 1, i)) == spiral_point(k, 4 * k + i),
    decreases k,
{
    assert(2 * k * (k + 1) == 4 * k + 2 * (k - 1) * (k - 1 + 1)) by (nonlinear_arith);
    lemma_spool_split(k);
    lemma_spool_split(k - 1);
    if k >= 2 {
        if i < 4 * k - 4 {
            assert(spiral_point(k - 1, i) == lap_point(k - 1, i));
            assert(spiral_point(k, 4 * k + i) == lap_point(k, 4 * k + i));
        } else {
            let j = i - (4 * k - 4);
            assert(spiral_point(k, 4 * k + i) == spiral_point(k - 2, j));
            lemma_red_self_similar(k - 1, j);
            assert(red_point(spiral_point(k - 2, j)) == spiral_point(k - 1, i));
        }
    } else {
        assert(spool_size_of(0) == 0) by (nonlinear_arith);
    }
}

/// The planar part of the fragment of level `i` is the spiral of order-index
/// `i + 1`: the levels look the same in every graph.
pub proof fn lemma_level_is_spiral(n: int, i: int)
    requires
        1 <= n,
        0 <= i < n,
    ensures
        0 <= level_start(n, i) <= spool_size_of(n),
        template(n, level_color(n, i)).skip(level_start(n, i)) == spiral(i + 1),
{
    let k = i + 1;
    assert(0 <= 2 * k * (k + 1) <= 2 * n * (n + 1)) by (nonlinear_arith)
        requires
            1 <= k <= n,
    ;
    let yarn = template(n, level_color(n, i));
    let start = level_start(n, i);
    let tail = yarn.skip(start);
    assert(tail.len() == spiral(k).len());
    assert forall|j: int| 0 <= j < tail.len() implies tail[j] == spiral(k)[j] by {
        assert(tail[j] == yarn[start + j]);
        if level_color(n, i) == Color::Blue {
            lemma_spiral_peel(n, k, j);
        } else {
            lemma_red_self_similar(k + 1, j);
            lemma_spiral_peel(n, k + 1, 4 * (k + 1) + j);
            assert(yarn[start + j] == red_point(spiral_point(n, start + j)));
            assert(spiral_point(n, start + j) == spiral_point(k + 1, 4 * (k + 1) + j));
            assert(red_point(red_point(spiral_point(k, j))) == spiral_point(k, j));
        }
    }
    assert(tail =~= spiral(k));
}

/// Componentwise sum of the planar points of `s`.
pub open spec fn planar_sum(s: Seq<(int, int)>) -> (int, int)
    decreases s.len(),
{
    if s.len() == 0 {
        (0, 0)
    } else {
        let rest = planar_sum(s.drop_last());
        (rest.0 + s.last().0, rest.1 + s.last().1)
    }
}

/// The sum of a concatenation is the sum of the sums.
pub proof fn lemma_planar_sum_concat(a: Seq<(int, int)>, b: Seq<(int, int)>)
    ensures
        planar_sum(a + b) == (planar_sum(a).0 + planar_sum(b).0, planar_sum(a).1 + planar_sum(b).1),
    decreases b.len(),
{
    if b.len() == 0 {
        assert(a + b =~= a);
    } else {
        assert((a + b).drop_last() =~= a + b.drop_last());
        lemma_planar_sum_concat(a, b.drop_last());
    }
}

/// The sum of the red image of a sequence of planar points.
pub proof fn lemma_planar_sum_red(s: Seq<(int, int)>)
    ensures
        planar_sum(red_of(s)) == (-planar_sum(s).0, 2 * s.len() - planar_sum(s).1),
    decreases s.len(),
{
    if s.len() > 0 {
        assert(red_of(s).drop_last() =~= red_of(s.drop_last()));
        lemma_planar_sum_red(s.drop_last());
    }
}

/// The first `4m` points of the lap that opens the spiral of order-index `m`:
/// its first two sides.
pub open spec fn lap_head(m: int) -> Seq<(int, int)> {
    Seq::new((4 * m) as nat, |i: int| lap_point(m, i))
}

/// The sum of the first `i` points of a lap, for `i` up to `4m`.
pub open spec fn head_sum(m: int, i: int) -> (int, int) {
    if i <= 2 * m {
        let a = i / 2;
        if i % 2 == 0 {
            (2 * a * (2 * m - a), 2 * a - 2 * a * a)
        } else {
            (2 * a * (2 * m - a) + (2 * m - 1 - 2 * a), 2 * a - 2 * a * a + (1 - 2 * a))
        }
    } else {
        let c = (i - 2 * m) / 2;
        if (i - 2 * m) % 2 == 0 {
            (2 * m * m - 2 * c * c, 2 * m - 2 * m * m + 2 * c * (1 - 2 * m) + 2 * c * c)
        } else {
            (
                2 * m * m - 2 * c * c - (2 * c + 1),
                2 * m - 2 * m * m + 2 * c * (1 - 2 * m) + 2 * c * c + (1 - 2 * m + 2 * c),
            )
        }
    }
}

/// One more point of the first side, after an even number of points.
proof fn lemma_head_step_a(m: int, a: int)
    ensures
        2 * a * (2 * m - a) + (2 * m - 1 - 2 * a) + (2 * m - 1 - 2 * a) == 2 * (a + 1) * (2 * m - (a
            + 1)),
        2 * a - 2 * a * a + (1 - 2 * a) + (1 - 2 * (a + 1)) == 2 * (a + 1) - 2 * (a + 1) * (a + 1),
{
    assert(2 * a * (2 * m - a) + (2 * m - 1 - 2 * a) + (2 * m - 1 - 2 * a) == 2 * (a + 1) * (2 * m
        - (a + 1))) by (nonlinear_arith);
    assert(2 * a - 2 * a * a + (1 - 2 * a) + (1 - 2 * (a + 1)) == 2 * (a + 1) - 2 * (a + 1) * (a
        + 1)) by (nonlinear_arith);
}

/// One more point of the second side, after an odd number of points.
proof fn lemma_head_step_c(m: int, c: int)
    ensures
        2 * m * m - 2 * c * c - (2 * c + 1) + (1 - 2 * (c + 1)) == 2 * m * m - 2 * (c + 1) * (c + 1),
        2 * m - 2 * m * m + 2 * c * (1 - 2 * m) + 2 * c * c + (1 - 2 * m + 2 * c) + (1 - 2 * m + 2
            * (c + 1)) == 2 * m - 2 * m * m + 2 * (c + 1) * (1 - 2 * m) + 2 * (c + 1) * (c + 1),
{
    assert(2 * m * m - 2 * c * c - (2 * c + 1) + (1 - 2 * (c + 1)) == 2 * m * m - 2 * (c + 1) * (c
        + 1)) by (nonlinear_arith);
    assert(2 * m - 2 * m * m + 2 * c * (1 - 2 * m) + 2 * c * c + (1 - 2 * m + 2 * c) + (1 - 2 * m
        + 2 * (c + 1)) == 2 * m - 2 * m * m + 2 * (c + 1) * (1 - 2 * m) + 2 * (c + 1) * (c + 1))
        by (nonlinear_arith);
}

/// The sums at the end of the first side and at the end of the second.
proof fn lemma_head_corners(m: int)
    ensures
        head_sum(m, 2 * m) == (2 * m * m, 2 * m - 2 * m * m),
        m >= 1 ==> head_sum(m, 4 * m) == (0int, 4 * m - 4 * m * m),
{
    let a = (2 * m) / 2;
    assert(a == m && (2 * m) % 2 == 0);
    assert(2 * a * (2 * m - a) == 2 * m * m && a * a == m * m) by (nonlinear_arith)
        requires
            a == m,
    ;
    if m >= 1 {
        let c = (4 * m - 2 * m) / 2;
        assert(c == m && (4 * m - 2 * m) % 2 == 0);
        assert(2 * m * m - 2 * c * c == 0 && 2 * m - 2 * m * m + 2 * c * (1 - 2 * m) + 2 * c * c
            == 4 * m - 4 * m * m) by (nonlinear_arith)
            requires
                c == m,
        ;
    }
}

/// The closed form of the sums of the first points of a lap.
pub proof fn lemma_head_sum(m: int, i: int)
    requires
        1 <= m,
        0 <= i <= 4 * m,
    ensures
        planar_sum(lap_head(m).take(i)) == head_sum(m, i),
    decreases i,
{
    if i == 0 {
        let a = 0int;
        assert(2 * a * (2 * m - a) == 0 && a * a == 0) by (nonlinear_arith)
            requires
                a == 0,
        ;
        assert(head_sum(m, 0) == (0int, 0int));
    } else {
        lemma_head_sum(m, i - 1);
        let s = lap_head(m).take(i);
        assert(s.drop_last() =~= lap_head(m).take(i - 1));
        assert(s.last() == lap_point(m, i - 1));
        let j = i - 1;
        let step = lap_point(m, j);
        let before = head_sum(m, j);
        let after = head_sum(m, i);
        if i <= 2 * m {
            let a = j / 2;
            if j % 2 == 0 {
                assert(i / 2 == a && i % 2 == 1);
                assert(step == (2 * m - 1 - 2 * a, 1 - 2 * a));
            } else {
                assert(i / 2 == a + 1 && i % 2 == 0);
                assert(step == (2 * m - 1 - 2 * a, 1 - 2 * (a + 1)));
                lemma_head_step_a(m, a);
            }
            assert(after == (before.0 + step.0, before.1 + step.1));
        } else if j == 2 * m {
            lemma_head_corners(m);
            let c = (i - 2 * m) / 2;
            assert(c == 0 && (i - 2 * m) % 2 == 1);
            assert(2 * c * c == 0 && 2 * c * (1 - 2 * m) == 0) by (nonlinear_arith)
                requires
                    c == 0,
            ;
            assert(step == (-1int, 1 - 2 * m));
            assert(after == (before.0 + step.0, before.1 + step.1));
        } else {
            let c = (j - 2 * m) / 2;
            if (j - 2 * m) % 2 == 0 {
                assert((i - 2 * m) / 2 == c && (i - 2 * m) % 2 == 1);
                assert(step == (1 - 2 * (c + 1), 1 - 2 * m + 2 * c));
            } else {
                assert((i - 2 * m) / 2 == c + 1 && (i - 2 * m) % 2 == 0);
                assert(step == (1 - 2 * (c + 1), 1 - 2 * m + 2 * (c + 1)));
                lemma_head_step_c(m, c);
            }
            assert(after == (before.0 + step.0, before.1 + step.1));
        }
    }
}

/// The coordinates of the points of a spiral add up to zero along both axes.
pub proof fn lemma_spiral_sum(k: int)
    requires
        0 <= k,
    ensures
        planar_sum(spiral(k)) == (0int, 0int),
    decreases k,
{
    if k == 0 {
        assert(spool_size_of(0) == 0) by (nonlinear_arith);
    } else {
        lemma_spiral_sum(k - 1);
        let inner = spiral(k - 1);
        assert(2 * k * (k + 1) == 4 * k + 2 * (k - 1) * (k - 1 + 1)) by (nonlinear_arith);
        assert(2 * (k - 1) * (k - 1 + 1) >= 0) by (nonlinear_arith)
            requires
                k >= 1,
        ;
        lemma_spool_split(k);
        assert(spiral(k) =~= lap_head(k) + red_of(inner)) by {
            assert forall|i: int| 0 <= i < spiral(k).len() implies spiral(k)[i] == (lap_head(k)
                + red_of(inner))[i] by {
                if i >= 4 * k {
                    lemma_red_self_similar(k, i - 4 * k);
                }
            }
        }
        lemma_planar_sum_concat(lap_head(k), red_of(inner));
        lemma_planar_sum_red(inner);
        lemma_head_sum(k, 4 * k);
        assert(lap_head(k).take(4 * k) =~= lap_head(k));
        lemma_head_corners(k);
        assert(4 * k - 4 * k * k == -(2 * (2 * (k - 1) * (k - 1 + 1)))) by (nonlinear_arith);
    }
}

/// The points of level `i` of the graph of order-index `n`, in the order of
/// the level's fragment.
pub open spec fn level_points(n: int, i: int) -> Seq<(int, int, int)> {
    fragment(template(n, level_color(n, i)), level_start(n, i), level_z(n, i))
}

/// The sum of planar points lifted to an elevation.
pub proof fn lemma_sum_lift(s: Seq<(int, int)>, z: int)
    ensures
        coordinate_sum(lift(s, z)) == (planar_sum(s).0, planar_sum(s).1, z * s.len()),
    decreases s.len(),
{
    if s.len() > 0 {
        assert(lift(s, z).drop_last() =~= lift(s.drop_last(), z));
        lemma_sum_lift(s.drop_last(), z);
        assert(z * s.len() == z * (s.len() - 1) + z) by (nonlinear_arith);
    } else {
        assert(z * s.len() == 0) by (nonlinear_arith)
            requires
                s.len() == 0,
        ;
    }
}

/// The points of a level: they are the spiral of the level's order-index at
/// the level's elevation, all different, each a neighbour of the next, within
/// the norm bound of the graph, and balanced around the axis.
pub proof fn lemma_level_points(n: int, i: int)
    requires
        1 <= n,
        0 <= i < n,
    ensures
        level_points(n, i) == lift(spiral(i + 1), level_z(n, i)),
        level_points(n, i).len() == level_size(i + 1),
        level_size(i + 1) >= 4,
        level_points(n, i).no_duplicates(),
        is_chain(level_points(n, i)),
        forall|j: int|
            0 <= j < level_points(n, i).len() ==> (#[trigger] level_points(n, i)[j]).2 == level_z(
                n,
                i,
            ) && l1norm3(level_points(n, i)[j]) <= 2 * n + 1,
        coordinate_sum(level_points(n, i)) == (0int, 0int, level_z(n, i) * level_size(i + 1)),
{
    let k = i + 1;
    let z = level_z(n, i);
    lemma_level_is_spiral(n, i);
    lemma_spiral_is_hamiltonian_path(k);
    lemma_spiral_sum(k);
    lemma_sum_lift(spiral(k), z);
    let points = level_points(n, i);
    assert(points =~= lift(spiral(k), z));
    assert(4 <= 2 * k * (k + 1)) by (nonlinear_arith)
        requires
            1 <= k,
    ;
    assert forall|a: int, b: int|
        0 <= a < points.len() && 0 <= b < points.len() && a != b implies points[a] != points[b] by {
        assert(spiral(k)[a] != spiral(k)[b]);
    }
    assert forall|j: int| 0 <= j < points.len() - 1 implies #[trigger] joins(points, j) by {
        assert(adjacent2(spiral(k)[j], spiral(k)[j + 1]));
    }
    assert forall|j: int| 0 <= j < points.len() implies (#[trigger] points[j]).2 == z && l1norm3(
        points[j],
    ) <= 2 * n + 1 by {
        assert(l1norm2(spiral(k)[j]) <= 2 * k);
    }
}

/// The points of the first `k` levels, level after level.
pub open spec fn lower_half(n: int, k: int) -> Seq<(int, int, int)>
    decreases k,
{
    if k <= 0 {
        Seq::empty()
    } else {
        lower_half(n, k - 1) + level_points(n, k - 1)
    }
}

/// The vertices of the graph of order-index `n`: the points of its levels,
/// followed by their mirror images.
pub open spec fn vertices(n: int) -> Seq<(int, int, int)> {
    lower_half(n, n) + lower_half(n, n).map_values(|p: (int, int, int)| reflect(p))
}

/// The first `k` levels hold half the vertices of the graph of order-index
/// `k`, all different, all below the mid-plane and below level `k`, within the
/// norm bound, and balanced around the axis. A point belongs to them exactly
/// when it belongs to one of the levels.
pub proof fn lemma_lower_half(n: int, k: int)
    requires
        1 <= n,
        0 <= k <= n,
    ensures
        2 * lower_half(n, k).len() == order_of(k),
        lower_half(n, k).no_duplicates(),
        forall|j: int|
            0 <= j < lower_half(n, k).len() ==> (#[trigger] lower_half(n, k)[j]).2 < level_z(n, k)
                && lower_half(n, k)[j].2 <= -1 && l1norm3(lower_half(n, k)[j]) <= 2 * n + 1,
        coordinate_sum(lower_half(n, k)).0 == 0,
        coordinate_sum(lower_half(n, k)).1 == 0,
        forall|p: (int, int, int)|
            lower_half(n, k).contains(p) <==> exists|i: int|
                0 <= i < k && #[trigger] level_points(n, i).contains(p),
    decreases k,
{
    if k == 0 {
        lemma_order_zero();
        assert forall|p: (int, int, int)| lower_half(n, k).contains(p) <==> exists|i: int|
            0 <= i < k && #[trigger] level_points(n, i).contains(p) by {}
    } else {
        lemma_lower_half(n, k - 1);
        lemma_level_points(n, k - 1);
        lemma_order_step(k);
        let below = lower_half(n, k - 1);
        let level = level_points(n, k - 1);
        let all = lower_half(n, k);
        assert(all == below + level);
        vstd::seq_lib::lemma_no_dup_in_concat(below, level);
        lemma_sum_concat(below, level);
        assert forall|j: int| 0 <= j < all.len() implies (#[trigger] all[j]).2 < level_z(n, k)
            && all[j].2 <= -1 && l1norm3(all[j]) <= 2 * n + 1 by {
            if j < below.len() {
                assert(all[j] == below[j]);
            } else {
                assert(all[j] == level[j - below.len()]);
            }
        }
        assert forall|p: (int, int, int)| all.contains(p) <==> exists|i: int|
            0 <= i < k && #[trigger] level_points(n, i).contains(p) by {
            if all.contains(p) {
                let j = choose|j: int| 0 <= j < all.len() && all[j] == p;
                if j < below.len() {
                    assert(below[j] == p);
                    assert(below.contains(p));
                    let i = choose|i: int| 0 <= i < k - 1 && #[trigger] level_points(n, i).contains(p);
                    assert(0 <= i < k && level_points(n, i).contains(p));
                } else {
                    assert(level[j - below.len()] == p);
                    assert(level_points(n, k - 1).contains(p));
                }
            }
            if exists|i: int| 0 <= i < k && #[trigger] level_points(n, i).contains(p) {
                let i = choose|i: int| 0 <= i < k && #[trigger] level_points(n, i).contains(p);
                if i < k - 1 {
                    assert(below.contains(p));
                    let j = choose|j: int| 0 <= j < below.len() && below[j] == p;
                    assert(all[j] == p);
                } else {
                    let j = choose|j: int| 0 <= j < level.len() && level[j] == p;
                    assert(all[below.len() + j] == p);
                }
            }
        }
    }
}

/// The vertices of the graph of order-index `n`: there are `order_of(n)` of
/// them, all different, within the norm bound, and balanced around the origin.
pub proof fn lemma_vertices(n: int)
    requires
        1 <= n,
    ensures
        vertices(n).len() == order_of(n),
        vertices(n).no_duplicates(),
        within_norm(vertices(n), 2 * n + 1),
        coordinate_sum(vertices(n)) == (0int, 0int, 0int),
{
    lemma_lower_half(n, n);
    let lower = lower_half(n, n);
    let upper = lower.map_values(|p: (int, int, int)| reflect(p));
    assert forall|a: int, b: int|
        0 <= a < upper.len() && 0 <= b < upper.len() && a != b implies upper[a] != upper[b] by {
        assert(lower[a] != lower[b]);
    }
    assert forall|a: int, b: int| 0 <= a < lower.len() && 0 <= b < upper.len() implies lower[a]
        != upper[b] by {
        assert(lower[a].2 <= -1);
        assert(lower[b].2 <= -1);
    }
    vstd::seq_lib::lemma_no_dup_in_concat(lower, upper);
    lemma_sum_concat(lower, upper);
    lemma_sum_reflect(lower);
    let all = vertices(n);
    assert forall|j: int| 0 <= j < all.len() implies l1norm3(#[trigger] all[j]) <= 2 * n + 1 by {
        if j < lower.len() {
            assert(all[j] == lower[j]);
        } else {
            assert(all[j] == reflect(lower[j - lower.len()]));
            assert(l1norm3(lower[j - lower.len()]) <= 2 * n + 1);
        }
    }
}

/// A level holds every point with odd planar coordinates at its elevation
/// that lies within the norm bound of the graph.
pub proof fn lemma_level_onto(n: int, i: int, p: (int, int, int))
    requires
        1 <= n,
        0 <= i < n,
        p.2 == level_z(n, i),
        is_vertex(n, p),
    ensures
        level_points(n, i).contains(p),
{
    lemma_level_points(n, i);
    let k = i + 1;
    lemma_spiral_onto(k, p.0, p.1);
    let j = spiral_index(k, p.0, p.1);
    let level = level_points(n, i);
    assert(level[j] == p);
}

/// The points of a level are vertices of the graph.
pub proof fn lemma_level_in_graph(n: int, i: int, j: int)
    requires
        1 <= n,
        0 <= i < n,
        0 <= j < level_points(n, i).len(),
    ensures
        is_vertex(n, level_points(n, i)[j]),
{
    lemma_level_points(n, i);
    lemma_spiral_norm(i + 1, j);
    let level = level_points(n, i);
    assert(level[j] == (spiral(i + 1)[j].0, spiral(i + 1)[j].1, level_z(n, i)));
}

/// The vertices of the graph of order-index `n` are the lattice points with
/// odd coordinates within L1-distance `2n + 1` of the origin: the levels and
/// their mirror images hold all of them, and nothing else.
pub proof fn lemma_vertices_are_graph(n: int)
    requires
        1 <= n,
    ensures
        forall|p: (int, int, int)| vertices(n).contains(p) <==> is_vertex(n, p),
{
    lemma_lower_half(n, n);
    let lower = lower_half(n, n);
    let upper = lower.map_values(|q: (int, int, int)| reflect(q));
    let all = vertices(n);
    assert(all == lower + upper);
    assert forall|q: (int, int, int)| lower.contains(q) implies is_vertex(n, q) by {
        let i = choose|i: int| 0 <= i < n && #[trigger] level_points(n, i).contains(q);
        let j = choose|j: int| 0 <= j < level_points(n, i).len() && level_points(n, i)[j] == q;
        lemma_level_in_graph(n, i, j);
    }
    assert forall|q: (int, int, int)| is_vertex(n, q) && q.2 < 0 implies lower.contains(q) by {
        let i = (q.2 + 2 * n - 1) / 2;
        assert(0 <= i < n && q.2 == level_z(n, i));
        lemma_level_onto(n, i, q);
        assert(level_points(n, i).contains(q));
    }
    assert forall|p: (int, int, int)| all.contains(p) <==> is_vertex(n, p) by {
        if all.contains(p) {
            let j = choose|j: int| 0 <= j < all.len() && all[j] == p;
            if j < lower.len() {
                assert(lower.contains(lower[j]));
            } else {
                let q = lower[j - lower.len()];
                assert(lower.contains(q));
                assert(p == reflect(q));
            }
        }
        if is_vertex(n, p) {
            if p.2 < 0 {
                let j = choose|j: int| 0 <= j < lower.len() && lower[j] == p;
                assert(all[j] == p);
            } else {
                let q = reflect(p);
                assert(is_vertex(n, q) && q.2 < 0);
                let j = choose|j: int| 0 <= j < lower.len() && lower[j] == q;
                assert(upper[j] == p);
                assert(all[lower.len() + j] == p);
            }
        }
    }
}

} // verus!
