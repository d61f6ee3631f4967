//! The spiral: an inward zigzag path that visits every point of the innermost level once.
//!
//! The points of a level are the planar points with odd coordinates and L1-norm
//! at most `2n`. They form `n` rings of constant norm. The spiral runs through
//! them lap by lap: one lap zigzags between the two outermost rings that are
//! left, and the rest of the path is the spiral of order-index `n - 2`.
use vstd::prelude::*;
use crate::point::{V2d, abs, adjacent2, l1norm2, pt2, pts2};
use crate::info::{get_spool_size, spool_size_of};

verus! {

/// Number of points of the lap that opens the spiral of order-index `m`.
pub open spec fn lap_len(m: int) -> int {
    8 * m - 4
}

/// Point `i` of the lap that opens the spiral of order-index `m`. The lap has
/// four sides, one per quadrant, and on each side steps along x and along y
/// alternate.
pub open spec fn lap_point(m: int, i: int) -> (int, int) {
    if i < 2 * m {
        (2 * m - 1 - 2 * (i / 2), 1 - 2 * ((i + 1) / 2))
    } else if i < 4 * m {
        let o = i - (2 * m - 1);
        (1 - 2 * ((o + 1) / 2), 1 - 2 * m + 2 * (o / 2))
    } else if i < 6 * m - 2 {
        let o = i - (4 * m - 1);
        (1 - 2 * m + 2 * ((o + 1) / 2), 1 + 2 * (o / 2))
    } else {
        let o = i - (6 * m - 3);
        (-1 + 2 * ((o + 1) / 2), 2 * m - 1 - 2 * (o / 2))
    }
}

/// Point `i` of the spiral of order-index `n`.
pub open spec fn spiral_point(n: int, i: int) -> (int, int)
    decreases
            if n >= 0 {
                n + 1
            } else {
                0
            },
{
    if n <= 0 {
        (0, 0)
    } else if i < lap_len(n) {
        lap_point(n, i)
    } else {
        spiral_point(n - 2, i - lap_len(n))
    }
}

/// The spiral of order-index `n`.
pub open spec fn spiral(n: int) -> Seq<(int, int)> {
    Seq::new(spool_size_of(n) as nat, |i: int| spiral_point(n, i))
}

/// The side of a lap on which the step that leaves point `i` lies. The step
/// that leaves the last point of the lap lies on the first side again.
pub open spec fn side_of(m: int, i: int) -> int {
    if i < 2 * m - 1 {
        0
    } else if i < 4 * m - 1 {
        1
    } else if i < 6 * m - 3 {
        2
    } else if i < 8 * m - 5 {
        3
    } else {
        0
    }
}

/// The displacement table: for each side, the step along x and the step along y.
pub open spec fn zigzag_of(side: int, vertical: bool) -> (int, int) {
    if side == 0 {
        if vertical {
            (0, -2)
        } else {
            (-2, 0)
        }
    } else if side == 1 {
        if vertical {
            (0, 2)
        } else {
            (-2, 0)
        }
    } else if side == 2 {
        if vertical {
            (0, 2)
        } else {
            (2, 0)
        }
    } else {
        if vertical {
            (0, -2)
        } else {
            (2, 0)
        }
    }
}

/// Where the walk stands after `i` steps of a lap: on the lap's point `i`, or,
/// once the lap is complete, on the first point of the next lap.
pub open spec fn walk_point(m: int, i: int) -> (int, int) {
    if i < lap_len(m) {
        lap_point(m, i)
    } else {
        (2 * m - 5, 1)
    }
}

/// One step of the walk: the point after point `i` is reached by the
/// displacement of the current side, along y after an even index and along x
/// after an odd one.
pub proof fn lemma_walk_step(m: int, i: int)
    requires
        1 <= m,
        0 <= i < lap_len(m),
    ensures
        walk_point(m, i + 1) == (
            walk_point(m, i).0 + zigzag_of(side_of(m, i), i % 2 == 0).0,
            walk_point(m, i).1 + zigzag_of(side_of(m, i), i % 2 == 0).1,
        ),
{
}

/// Every point of a lap has odd coordinates and lies on one of the two
/// outermost rings.
pub proof fn lemma_lap_rings(m: int, i: int)
    requires
        1 <= m,
        0 <= i < lap_len(m),
    ensures
        l1norm2(lap_point(m, i)) == 2 * m || l1norm2(lap_point(m, i)) == 2 * m - 2,
        lap_point(m, i).0 % 2 != 0,
        lap_point(m, i).1 % 2 != 0,
{
}

/// A lap visits no point twice.
pub proof fn lemma_lap_injective(m: int, i: int, j: int)
    requires
        1 <= m,
        0 <= i < j < lap_len(m),
    ensures
        lap_point(m, i) != lap_point(m, j),
{
}

/// Every point of the spiral has odd coordinates and L1-norm between 2 and `2n`.
pub proof fn lemma_spiral_norm(n: int, i: int)
    requires
        1 <= n,
        0 <= i < spool_size_of(n),
    ensures
        2 <= l1norm2(spiral_point(n, i)) <= 2 * n,
        spiral_point(n, i).0 % 2 != 0,
        spiral_point(n, i).1 % 2 != 0,
        i >= lap_len(n) ==> l1norm2(spiral_point(n, i)) <= 2 * n - 4,
    decreases n,
{
    lemma_spool_split(n);
    if i < lap_len(n) {
        lemma_lap_rings(n, i);
    } else {
        lemma_spiral_norm(n - 2, i - lap_len(n));
    }
}

/// The spiral of order-index `n` is one lap followed by the spiral of
/// order-index `n - 2`.
pub proof fn lemma_spool_split(n: int)
    ensures
        spool_size_of(n) == lap_len(n) + spool_size_of(n - 2),
        n >= 1 ==> spool_size_of(n) >= lap_len(n) >= 4,
        n >= 3 ==> spool_size_of(n - 2) > 0,
        n == 1 || n == 2 ==> spool_size_of(n - 2) == 0,
{
    assert(2 * n * (n + 1) == 8 * n - 4 + 2 * (n - 2) * (n - 2 + 1)) by (nonlinear_arith);
    if n >= 3 {
        assert(2 * (n - 2) * (n - 2 + 1) > 0) by (nonlinear_arith)
            requires
                n >= 3,
        ;
    }
    if n >= 1 {
        assert(2 * (n - 2) * (n - 2 + 1) >= 0) by (nonlinear_arith)
            requires
                n >= 1,
        ;
    }
    if n == 1 || n == 2 {
        assert(2 * (n - 2) * (n - 2 + 1) == 0) by (nonlinear_arith)
            requires
                n == 1 || n == 2,
        ;
    }
}

/// The spiral visits no point twice.
pub proof fn lemma_spiral_injective(n: int, i: int, j: int)
    requires
        1 <= n,
        0 <= i < j < spool_size_of(n),
    ensures
        spiral_point(n, i) != spiral_point(n, j),
    decreases n,
{
    lemma_spool_split(n);
    if j < lap_len(n) {
        lemma_lap_injective(n, i, j);
    } else if i < lap_len(n) {
        lemma_lap_rings(n, i);
        lemma_spiral_norm(n, j);
    } else {
        lemma_spiral_injective(n - 2, i - lap_len(n), j - lap_len(n));
    }
}

/// Consecutive points of the spiral are neighbours.
pub proof fn lemma_spiral_step(n: int, i: int)
    requires
        1 <= n,
        0 <= i < spool_size_of(n) - 1,
    ensures
        adjacent2(spiral_point(n, i), spiral_point(n, i + 1)),
    decreases n,
{
    lemma_spool_split(n);
    if i + 1 < lap_len(n) {
        lemma_walk_step(n, i);
    } else if i < lap_len(n) {
        lemma_walk_step(n, i);
        lemma_spool_split(n - 2);
        assert(spiral_point(n - 2, 0) == lap_point(n - 2, 0));
    } else {
        lemma_spiral_step(n - 2, i - lap_len(n));
    }
}

/// The spiral starts on the outermost ring, at `(2n - 1, 1)`, and ends next to
/// the centre: at `(1, 1)` for even `n` and at `(-1, 1)` for odd `n`.
pub proof fn lemma_spiral_ends(n: int)
    requires
        1 <= n,
    ensures
        spiral_point(n, 0) == (2 * n - 1, 1int),
        spiral_point(n, spool_size_of(n) - 1) == (if n % 2 == 0 { 1int } else { -1int }, 1int),
    decreases n,
{
    lemma_spool_split(n);
    if n >= 3 {
        lemma_spiral_ends(n - 2);
    }
}

/// The properties of the whole spiral: it has `2n(n + 1)` points, all of them
/// different, each a neighbour of the next, all with odd coordinates of
/// magnitude at most `2n - 1` and L1-norm at most `2n`.
pub proof fn lemma_spiral_is_hamiltonian_path(n: int)
    requires
        1 <= n,
    ensures
        spiral(n).len() == spool_size_of(n),
        spiral(n).no_duplicates(),
        forall|i: int|
            0 <= i < spiral(n).len() - 1 ==> adjacent2(#[trigger] spiral(n)[i], spiral(n)[i + 1]),
        forall|i: int| 0 <= i < spiral(n).len() ==> l1norm2(#[trigger] spiral(n)[i]) <= 2 * n,
        forall|i: int|
            0 <= i < spiral(n).len() ==> abs((#[trigger] spiral(n)[i]).0) <= 2 * n - 1 && abs(
                spiral(n)[i].1,
            ) <= 2 * n - 1,
        spiral(n).first() == (2 * n - 1, 1int),
        spiral(n).last() == (if n % 2 == 0 { 1int } else { -1int }, 1int),
{
    lemma_spool_split(n);
    assert forall|i: int, j: int|
        0 <= i < spiral(n).len() && 0 <= j < spiral(n).len() && i != j implies spiral(n)[i]
        != spiral(n)[j] by {
        if i < j {
            lemma_spiral_injective(n, i, j);
        } else {
            lemma_spiral_injective(n, j, i);
        }
    }
    assert forall|i: int| 0 <= i < spiral(n).len() - 1 implies adjacent2(
        #[trigger] spiral(n)[i],
        spiral(n)[i + 1],
    ) by {
        lemma_spiral_step(n, i);
    }
    assert forall|i: int| 0 <= i < spiral(n).len() implies l1norm2(#[trigger] spiral(n)[i]) <= 2
        * n && abs(spiral(n)[i].0) <= 2 * n - 1 && abs(spiral(n)[i].1) <= 2 * n - 1 by {
        lemma_spiral_norm(n, i);
    }
    lemma_spiral_ends(n);
}

/// The index at which a lap holds the planar point `(x, y)` of one of its two
/// rings: the point is looked up on the side of its quadrant.
pub open spec fn lap_index(m: int, x: int, y: int) -> int {
    if x >= 1 && y <= -1 {
        let a = (2 * m - 1 - x) / 2;
        let b = (1 - y) / 2;
        if b == a {
            2 * a
        } else {
            2 * a + 1
        }
    } else if x <= -1 && y <= -1 {
        let c = (1 - x) / 2;
        let d = (y - 1 + 2 * m) / 2;
        2 * m - 1 + if d == c {
            2 * c
        } else {
            2 * c - 1
        }
    } else if x <= -1 {
        if x == 1 - 2 * m {
            4 * m - 1
        } else {
            let c = (x - 1 + 2 * m) / 2;
            let d = (y - 1) / 2;
            4 * m - 1 + if d == c {
                2 * c
            } else {
                2 * c - 1
            }
        }
    } else {
        if x == 2 * m - 1 {
            0
        } else {
            let c = (x + 1) / 2;
            let d = (2 * m - 1 - y) / 2;
            6 * m - 3 + if d == c {
                2 * c
            } else {
                2 * c - 1
            }
        }
    }
}

/// The index at which the spiral of order-index `n` holds the planar point
/// `(x, y)`: in the lap of its ring, or further in.
pub open spec fn spiral_index(n: int, x: int, y: int) -> int
    decreases
            if n >= 0 {
                n + 1
            } else {
                0
            },
{
    if n <= 0 {
        0
    } else if l1norm2((x, y)) >= 2 * n - 2 {
        lap_index(n, x, y)
    } else {
        lap_len(n) + spiral_index(n - 2, x, y)
    }
}

/// A lap holds every point with odd coordinates of its two rings.
pub proof fn lemma_lap_onto(m: int, x: int, y: int)
    requires
        1 <= m,
        x % 2 != 0,
        y % 2 != 0,
        l1norm2((x, y)) == 2 * m || l1norm2((x, y)) == 2 * m - 2,
    ensures
        0 <= lap_index(m, x, y) < lap_len(m),
        lap_point(m, lap_index(m, x, y)) == (x, y),
{
}

/// The spiral holds every point with odd coordinates and L1-norm at most `2n`.
pub proof fn lemma_spiral_onto(n: int, x: int, y: int)
    requires
        1 <= n,
        x % 2 != 0,
        y % 2 != 0,
        l1norm2((x, y)) <= 2 * n,
    ensures
        0 <= spiral_index(n, x, y) < spool_size_of(n),
        spiral_point(n, spiral_index(n, x, y)) == (x, y),
    decreases n,
{
    lemma_spool_split(n);
    assert(l1norm2((x, y)) % 2 == 0 && l1norm2((x, y)) >= 2);
    if l1norm2((x, y)) >= 2 * n - 2 {
        lemma_lap_onto(n, x, y);
    } else {
        lemma_spiral_onto(n - 2, x, y);
    }
}

/// The displacement of one step: along y if `vertical`, else along x, in the
/// direction of the given side.
pub fn zigzag(side: usize, vertical: bool) -> (d: V2d)
    requires
        side < 4,
    ensures
        pt2(d) == zigzag_of(side as int, vertical),
{
    if side == 0 {
        if vertical {
            [0, -2]
        } else {
            [-2, 0]
        }
    } else if side == 1 {
        if vertical {
            [0, 2]
        } else {
            [-2, 0]
        }
    } else if side == 2 {
        if vertical {
            [0, 2]
        } else {
            [2, 0]
        }
    } else {
        if vertical {
            [0, -2]
        } else {
            [2, 0]
        }
    }
}

/// Spins the spiral of order-index `n`: starting at the corner `(2n - 1, 1)`,
/// every step adds a displacement of length two, alternately along y and along
/// x, and at each turning index the next pair of the displacement table takes
/// over, which bends the path inward.
pub fn spin(n: usize) -> (spool: Vec<V2d>)
    requires
        1 <= n <= 16383,
        spool_size_of(n as int) <= usize::MAX,
    ensures
        pts2(spool@) == spiral(n as int),
        spool@.len() == spool_size_of(n as int),
        pts2(spool@).no_duplicates(),
        forall|i: int|
            0 <= i < spool@.len() - 1 ==> adjacent2(#[trigger] pts2(spool@)[i], pts2(spool@)[i + 1]),
        forall|i: int| 0 <= i < spool@.len() ==> l1norm2(#[trigger] pts2(spool@)[i]) <= 2 * n,
        pts2(spool@).first() == (2 * n - 1, 1int),
        pts2(spool@).last() == (if n % 2 == 0 { 1int } else { -1int }, 1int),
{
    let size: usize = get_spool_size(n);
    let mut spool: Vec<V2d> = Vec::with_capacity(size);
    let mut x: i16 = (2 * n - 1) as i16;
    let mut y: i16 = 1;
    let mut m: usize = n;
    let ghost mut order: int = n as int;
    let ghost mut base: int = 0;
    while m >= 1
        invariant
            1 <= n <= 16383,
            size == spool_size_of(n as int),
            order <= n,
            m == if order > 0 { order } else { 0 },
            order >= -1,
            base == size - spool_size_of(order),
            spool@.len() == base,
            0 <= base <= size,
            forall|j: int| 0 <= j < base ==> pt2(#[trigger] spool@[j]) == spiral_point(n as int, j),
            forall|j: int|
                base <= j < size ==> #[trigger] spiral_point(n as int, j) == spiral_point(
                    order,
                    j - base,
                ),
            order >= 1 ==> (x as int, y as int) == (2 * order - 1, 1int),
        decreases m,
    {
        proof {
            lemma_spool_split(order);
        }
        let t1: usize = 2 * m - 1;
        let t2: usize = 4 * m - 1;
        let t3: usize = 6 * m - 3;
        let t4: usize = 8 * m - 5;
        let lap: usize = 8 * m - 4;
        let mut i: usize = 0;
        while i < lap
            invariant
                1 <= m <= 16383,
                m == order,
                order <= n,
                t1 == 2 * m - 1,
                t2 == 4 * m - 1,
                t3 == 6 * m - 3,
                t4 == 8 * m - 5,
                lap == lap_len(order),
                i <= lap,
                base + lap <= size,
                size == spool_size_of(n as int),
                spool@.len() == base + i,
                (x as int, y as int) == walk_point(order, i as int),
                forall|j: int|
                    0 <= j < base + i ==> pt2(#[trigger] spool@[j]) == spiral_point(n as int, j),
                forall|j: int|
                    base <= j < size ==> #[trigger] spiral_point(n as int, j) == spiral_point(
                        order,
                        j - base,
                    ),
            decreases lap - i,
        {
            proof {
                lemma_lap_rings(order, i as int);
                lemma_walk_step(order, i as int);
                assert(spiral_point(n as int, base + i) == spiral_point(order, i as int));
            }
            spool.push([x, y]);
            let side: usize = if i < t1 {
                0
            } else if i < t2 {
                1
            } else if i < t3 {
                2
            } else if i < t4 {
                3
            } else {
                0
            };
            let d: V2d = zigzag(side, i % 2 == 0);
            x = x + d[0];
            y = y + d[1];
            i += 1;
        }
        proof {
            assert forall|j: int| base + lap <= j < size implies #[trigger] spiral_point(
                n as int,
                j,
            ) == spiral_point(order - 2, j - (base + lap)) by {
                assert(spiral_point(n as int, j) == spiral_point(order, j - base));
            }
            base = base + lap;
            order = order - 2;
        }
        m = if m >= 2 {
            m - 2
        } else {
            0
        };
    }
    proof {
        lemma_spool_split(order);
        assert(spool_size_of(order) == 0) by (nonlinear_arith)
            requires
                order == 0 || order == -1,
        ;
        assert(pts2(spool@) =~= spiral(n as int));
        lemma_spiral_is_hamiltonian_path(n as int);
    }
    spool
}

/// Spins the spiral of order-index `n` from the centre outward: the points of
/// `spin(n)`, last first. It starts next to the centre and ends at the corner
/// `(2n - 1, 1)`.
pub fn spin_out(n: usize) -> (spool: Vec<V2d>)
    requires
        1 <= n <= 16383,
        spool_size_of(n as int) <= usize::MAX,
    ensures
        pts2(spool@) == spiral(n as int).reverse(),
        spool@.len() == spool_size_of(n as int),
        pts2(spool@).first() == (if n % 2 == 0 { 1int } else { -1int }, 1int),
        pts2(spool@).last() == (2 * n - 1, 1int),
{
    let inward: Vec<V2d> = spin(n);
    let len: usize = inward.len();
    let mut spool: Vec<V2d> = Vec::with_capacity(len);
    let mut k: usize = len;
    while k > 0
        invariant
            k <= len,
            len == inward@.len(),
            spool@.len() == len - k,
            forall|i: int| 0 <= i < len - k ==> spool@[i] == inward@[len - 1 - i],
        decreases k,
    {
        k -= 1;
        spool.push(inward[k]);
    }
    proof {
        lemma_spool_split(n as int);
        assert(pts2(spool@) =~= pts2(inward@).reverse());
    }
    spool
}

} // verus!
