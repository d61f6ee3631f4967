//! Constants of the graph of order-index `n`: vertex count, radius, spool size
//! and the elevation, template and cut of every level.
use vstd::prelude::*;
use crate::point::l1norm3;

verus! {

/// The two level templates.
#[derive(Debug, Clone, Copy, PartialEq, Eq, Structural)]
pub enum Color {
    /// The spiral reflected through the origin and shifted by two along y.
    Red,
    /// The spiral itself.
    Blue,
}

/// What one level is cut from: its elevation, the index at which its fragment
/// starts in the template, and the template's colour.
pub type LevelSetting = ((i16, usize), Color);

/// Number of vertices of the graph of order-index `n`.
pub open spec fn order_of(n: int) -> int {
    4 * (n + 2) * (n + 1) * n / 3
}

/// Largest coordinate magnitude of the graph of order-index `n`.
pub open spec fn radius_of(n: int) -> int {
    2 * n - 1
}

/// Largest L1-norm of a vertex of the graph of order-index `n`.
pub open spec fn max_norm_of(n: int) -> int {
    2 * n + 1
}

/// Whether `p` is a vertex of the graph of order-index `n`: a lattice point
/// with odd coordinates within L1-distance `2n + 1` of the origin.
pub open spec fn is_vertex(n: int, p: (int, int, int)) -> bool {
    &&& p.0 % 2 != 0
    &&& p.1 % 2 != 0
    &&& p.2 % 2 != 0
    &&& l1norm3(p) <= max_norm_of(n)
}

/// Number of points of the spiral, which is the size of the innermost level.
pub open spec fn spool_size_of(n: int) -> int {
    2 * n * (n + 1)
}

/// Number of points of the `k`-th level counted from the outside, `1 <= k <= n`.
pub open spec fn level_size(k: int) -> int {
    2 * k * (k + 1)
}

/// Elevation of level `i`, counted from zero at the outermost level.
pub open spec fn level_z(n: int, i: int) -> int {
    -(2 * n - 1) + 2 * i
}

/// Index in the template at which the fragment of level `i` starts.
pub open spec fn level_start(n: int, i: int) -> int {
    spool_size_of(n) - level_size(i + 1)
}

/// Colour of level `i`: the innermost level is blue, and colours alternate outward.
pub open spec fn level_color(n: int, i: int) -> Color {
    if (n + i) % 2 == 0 {
        Color::Red
    } else {
        Color::Blue
    }
}

/// `r` is the integer cube root of `x`.
pub open spec fn is_cube_root(x: int, r: int) -> bool {
    0 <= r && r * r * r <= x < (r + 1) * (r + 1) * (r + 1)
}

/// The product of three consecutive integers is a multiple of three, so the
/// division in `order_of` is exact.
pub proof fn lemma_order_exact(n: int)
    requires
        0 <= n,
    ensures
        3 * order_of(n) == 4 * (n + 2) * (n + 1) * n,
        order_of(n) >= 0,
    decreases n,
{
    if n > 0 {
        lemma_order_exact(n - 1);
        assert(4 * (n + 2) * (n + 1) * n == 4 * (n + 1) * n * (n - 1) + 12 * ((n + 1) * n))
            by (nonlinear_arith);
        assert(4 * (n + 1) * n * (n - 1) == 4 * (n - 1 + 2) * (n - 1 + 1) * (n - 1))
            by (nonlinear_arith);
        assert((n + 1) * n >= 0) by (nonlinear_arith)
            requires
                n > 0,
        ;
    } else {
        assert(4 * (n + 2) * (n + 1) * n == 0) by (nonlinear_arith)
            requires
                n == 0,
        ;
    }
}

/// The graphs of order-index `-1` and `0` have no vertices.
pub proof fn lemma_order_zero()
    ensures
        order_of(0) == 0,
        order_of(-1) == 0,
{
    assert(4 * (0int + 2) * (0int + 1) * 0int == 0) by (nonlinear_arith);
    assert(4 * (-1int + 2) * (-1int + 1) * (-1int) == 0) by (nonlinear_arith);
}

/// The order is twice the total size of the levels: adding level `n` to the
/// graph of order-index `n - 1` adds `2 * level_size(n)` vertices.
pub proof fn lemma_order_step(n: int)
    requires
        1 <= n,
    ensures
        order_of(n) == order_of(n - 1) + 2 * level_size(n),
{
    lemma_order_exact(n);
    lemma_order_exact(n - 1);
    assert(4 * (n + 2) * (n + 1) * n == 4 * (n - 1 + 2) * (n - 1 + 1) * (n - 1) + 3 * (2 * (2 * n
        * (n + 1)))) by (nonlinear_arith);
}

/// Cubes grow with their base.
pub proof fn lemma_cube_monotonic(a: int, b: int)
    requires
        0 <= a <= b,
    ensures
        a * a * a <= b * b * b,
{
    assert(a * a <= b * b) by (nonlinear_arith)
        requires
            0 <= a <= b,
    ;
    assert(a * a * a <= b * b * b) by (nonlinear_arith)
        requires
            0 <= a <= b,
            0 <= a * a <= b * b,
    ;
}

/// An integer has at most one integer cube root.
pub proof fn lemma_cube_root_unique(x: int, r: int, s: int)
    requires
        is_cube_root(x, r),
        is_cube_root(x, s),
    ensures
        r == s,
{
    if r < s {
        lemma_cube_monotonic(r + 1, s);
    }
    if s < r {
        lemma_cube_monotonic(s + 1, r);
    }
}

/// The order-index is recovered from the order: it is the integer cube root of
/// three quarters of the order.
pub proof fn lemma_n_from_order(n: int)
    requires
        1 <= n,
    ensures
        is_cube_root(3 * order_of(n) / 4, n),
{
    lemma_order_exact(n);
    let m = (n + 2) * (n + 1) * n;
    assert(4 * (n + 2) * (n + 1) * n == 4 * m) by (nonlinear_arith)
        requires
            m == (n + 2) * (n + 1) * n,
    ;
    assert(3 * order_of(n) / 4 == m);
    assert(n * n * n <= m < (n + 1) * (n + 1) * (n + 1)) by (nonlinear_arith)
        requires
            m == (n + 2) * (n + 1) * n,
            1 <= n,
    ;
}

/// Number of threads the loom is sized for.
pub fn loom_size(n: usize) -> (r: usize)
    ensures
        r == n / 2 + 1,
{
    n / 2 + 1
}

/// Largest L1-norm of a vertex, `2n + 1`, as a coordinate. The value is
/// truncated to sixteen bits where it does not fit.
pub fn get_max_absumv(n: usize) -> (r: i16)
    requires
        2 * n + 1 <= usize::MAX,
    ensures
        r == (2 * n + 1) as i16,
        max_norm_of(n as int) <= i16::MAX ==> r == max_norm_of(n as int),
{
    #[verifier::truncate]
    ((n * 2 + 1) as i16)
}

/// Largest coordinate magnitude, `2n - 1`, as a coordinate. The value is
/// truncated to sixteen bits where it does not fit.
pub fn get_radius(n: usize) -> (r: i16)
    requires
        1 <= n,
        2 * n <= usize::MAX,
    ensures
        r == (2 * n - 1) as i16,
        radius_of(n as int) <= i16::MAX ==> r == radius_of(n as int),
{
    #[verifier::truncate]
    ((n * 2 - 1) as i16)
}

/// Largest coordinate magnitude, `2n - 1`.
pub fn get_radius_usize(n: usize) -> (r: usize)
    requires
        1 <= n,
        2 * n <= usize::MAX,
    ensures
        r == radius_of(n as int),
{
    n * 2 - 1
}

/// Number of vertices of the graph of order-index `n`.
pub fn get_order_from_n(n: usize) -> (r: usize)
    requires
        4 * (n + 2) * (n + 1) * n <= usize::MAX,
    ensures
        r == order_of(n as int),
        3 * r == 4 * (n + 2) * (n + 1) * n,
{
    proof {
        lemma_order_exact(n as int);
        if n >= 1 {
            assert(4 * (n + 2) <= 4 * (n + 2) * (n + 1) <= 4 * (n + 2) * (n + 1) * n)
                by (nonlinear_arith)
                requires
                    n >= 1,
            ;
        } else {
            assert(4 * (n + 2) * (n + 1) == 8) by (nonlinear_arith)
                requires
                    n == 0,
            ;
        }
    }
    (4 * (n + 2) * (n + 1) * n) / 3
}

/// Number of points of the spiral: the vertices at elevation `-1`.
pub fn get_spool_size(n: usize) -> (r: usize)
    requires
        2 * n * (n + 1) <= usize::MAX,
    ensures
        r == spool_size_of(n as int),
{
    proof {
        assert(2 * n <= 2 * n * (n + 1)) by (nonlinear_arith);
    }
    2 * n * (n + 1)
}

/// The order-index of the graph with `order` vertices: the integer cube root of
/// three quarters of the order.
pub fn get_n_from_order(order: usize) -> (r: usize)
    requires
        3 * order <= usize::MAX,
    ensures
        is_cube_root(3 * order / 4, r as int),
{
    let x: u128 = ((3 * order) / 4) as u128;
    let mut k: u128 = 0;
    loop
        invariant_except_break
            k * k * k <= x,
            x <= u64::MAX,
            k <= 0x40_0000,
        ensures
            is_cube_root(x as int, k as int),
            k <= 0x40_0000,
        decreases x - k * k * k,
    {
        let j: u128 = k + 1;
        proof {
            assert(j * j <= 0x40_0001 * 0x40_0001) by (nonlinear_arith)
                requires
                    0 <= j <= 0x40_0001,
            ;
            assert(j * j * j <= 0x40_0001 * 0x40_0001 * 0x40_0001) by (nonlinear_arith)
                requires
                    0 <= j <= 0x40_0001,
            ;
        }
        let cube: u128 = j * j * j;
        if cube > x {
            break;
        }
        proof {
            if j > 0x40_0000 {
                assert(0x40_0001int * 0x40_0001 * 0x40_0001 > u64::MAX) by (nonlinear_arith);
            }
            assert(j * j * j > k * k * k) by (nonlinear_arith)
                requires
                    j == k + 1,
                    k >= 0,
            ;
        }
        k = j;
    }
    k as usize
}

/// Largest coordinate magnitude of the graph with `order` vertices.
pub fn get_radius_from_order(order: usize) -> (r: i16)
    requires
        3 * order <= usize::MAX,
        3 * order / 4 < 16384 * 16384 * 16384,
    ensures
        (r + 1) % 2 == 0,
        is_cube_root(3 * order / 4, (r + 1) / 2),
{
    let k: usize = get_n_from_order(order);
    proof {
        if k >= 16384 {
            lemma_cube_monotonic(16384, k as int);
        }
    }
    (k as i16) * 2 - 1
}

/// The settings of level `i` of the graph of order-index `n`.
pub open spec fn level_setting(n: int, i: int) -> ((int, int), Color) {
    ((level_z(n, i), level_start(n, i)), level_color(n, i))
}

/// The model of a level setting.
pub open spec fn setting_view(s: LevelSetting) -> ((int, int), Color) {
    ((s.0.0 as int, s.0.1 as int), s.1)
}

/// The settings of all `n` levels, from the outermost at elevation `-(2n - 1)`
/// to the innermost at elevation `-1`.
pub fn get_zpos_size_color(n: usize) -> (levels: Vec<LevelSetting>)
    requires
        1 <= n <= 16383,
        2 * n * (n + 1) <= usize::MAX,
    ensures
        levels.len() == n,
        forall|i: int|
            0 <= i < n ==> setting_view(#[trigger] levels[i]) == level_setting(n as int, i),
{
    let spool: usize = get_spool_size(n);
    let mut levels: Vec<LevelSetting> = Vec::with_capacity(n);
    let mut i: usize = 0;
    while i < n
        invariant
            1 <= n <= 16383,
            i <= n,
            spool == spool_size_of(n as int),
            levels.len() == i,
            forall|j: int|
                0 <= j < i ==> setting_view(#[trigger] levels[j]) == level_setting(n as int, j),
        decreases n - i,
    {
        proof {
            assert(0 <= 2 * (i + 1) * (i + 2) <= 2 * n * (n + 1)) by (nonlinear_arith)
                requires
                    0 <= i < n,
            ;
        }
        let z: i16 = (2 * i) as i16 - (2 * n - 1) as i16;
        let size: usize = 2 * (i + 1) * (i + 2);
        let color: Color = if (n + i) % 2 == 0 {
            Color::Red
        } else {
            Color::Blue
        };
        levels.push(((z, spool - size), color));
        i += 1;
    }
    levels
}

/// The number of order-indices that `uon` looks at, counted from `-1`.
pub const UON_LIMIT: usize = 2002;

/// The orders of the graphs of order-index `-1` up to `k - 2` that lie between
/// `start` and `end`, in ascending order. The graphs of order-index `-1` and
/// `0` have no vertices.
pub open spec fn uon_spec(start: int, end: int, k: int) -> Seq<int>
    decreases k,
{
    if k <= 0 {
        Seq::empty()
    } else if start <= order_of(k - 2) <= end {
        uon_spec(start, end, k - 1).push(order_of(k - 2))
    } else {
        uon_spec(start, end, k - 1)
    }
}

/// The orders are not negative, and grow with the order-index.
pub proof fn lemma_order_monotonic(a: int, b: int)
    requires
        -1 <= a <= b,
    ensures
        0 <= order_of(a) <= order_of(b),
    decreases b - a,
{
    if a == -1 {
        assert(4 * (a + 2) * (a + 1) * a == 0) by (nonlinear_arith)
            requires
                a == -1,
        ;
        if b >= 0 {
            lemma_order_exact(b);
        }
    } else {
        lemma_order_exact(a);
        if a < b {
            lemma_order_monotonic(a, b - 1);
            lemma_order_step(b);
            assert(2 * b * (b + 1) >= 0) by (nonlinear_arith)
                requires
                    b >= 1,
            ;
        }
    }
}

/// The orders of the graphs that lie between `start` and `end`, in ascending
/// order, for the order-indices from `-1` up to two thousand.
pub fn uon(start: usize, end: usize) -> (orders: Vec<usize>)
    requires
        order_of(UON_LIMIT - 2) <= usize::MAX,
    ensures
        orders@.map_values(|v: usize| v as int) == uon_spec(
            start as int,
            end as int,
            UON_LIMIT as int,
        ),
{
    let mut orders: Vec<usize> = Vec::new();
    let mut order: usize = 0;
    let mut i: usize = 0;
    proof {
        assert(4 * (-1 + 2) * (-1 + 1) * (-1int) == 0) by (nonlinear_arith);
    }
    while i < UON_LIMIT
        invariant
            i <= UON_LIMIT,
            order_of(UON_LIMIT - 2) <= usize::MAX,
            i < UON_LIMIT ==> order == order_of(i - 1),
            orders@.map_values(|v: usize| v as int) == uon_spec(start as int, end as int, i as int),
        decreases UON_LIMIT - i,
    {
        let ghost before = orders@.map_values(|v: usize| v as int);
        if order >= start && order <= end {
            orders.push(order);
            proof {
                assert(orders@.map_values(|v: usize| v as int) =~= before.push(order as int));
            }
        }
        if i + 1 < UON_LIMIT {
            proof {
                lemma_order_growth(i as int);
                lemma_order_monotonic(i as int, UON_LIMIT as int - 2);
                lemma_order_monotonic(-1, i as int - 1);
                assert(0 <= 4 * i <= 4 * i * (i + 1)) by (nonlinear_arith)
                    requires
                        0 <= i,
                ;
            }
            let step: usize = 4 * i * (i + 1);
            order = order + step;
        }
        i += 1;
    }
    orders
}

/// From one order-index to the next the order grows by twice the size of the
/// new level.
pub proof fn lemma_order_growth(m: int)
    requires
        0 <= m,
    ensures
        order_of(m) == order_of(m - 1) + 4 * m * (m + 1),
{
    if m >= 1 {
        lemma_order_step(m);
        assert(2 * (2 * m * (m + 1)) == 4 * m * (m + 1)) by (nonlinear_arith);
    } else {
        lemma_order_exact(0);
        assert(4 * (m - 1 + 2) * (m - 1 + 1) * (m - 1) == 0 && 4 * m * (m + 1) == 0)
            by (nonlinear_arith)
            requires
                m == 0,
        ;
    }
}

/// The largest order-index for which the thresholds of the lead cycle fit
/// their sixteen bits.
pub const MAX_N: usize = 8191;

} // verus!
