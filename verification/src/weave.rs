//! The weave: the whole construction, from the order-index to the finished tour.
use vstd::prelude::*;
use crate::point::{Tour, abs, each, each_thread, pts2, pts3};
use crate::info::{
    Color, LevelSetting, MAX_N, get_zpos_size_color, level_color, level_setting, level_size,
    level_start, level_z, loom_size, radius_of, setting_view, spool_size_of,
};
use crate::spin::{lemma_spiral_is_hamiltonian_path, spin, spiral};
use crate::color::{Yarns, colorized, red_of};
use crate::cut::{
    Cushion, InvariantViolation, fragment, lemma_cut_each, prepare, prepare_spec, warps_view,
};
use crate::loom::{
    Loom, ends_below_top, extend_from, extend_spec, extend_threads, leftover, lemma_extend_each,
    lemma_mirror_each, lemma_pin_each, loom_view, mirror_spec, mirror_threads, pin_ends,
    pin_spec, pins_of, reflectable, threads_nonempty,
};
use crate::merge::{cubed, detach_weft, merge_from, merge_warp, new_weft, thresholds_fit};
use crate::certify::is_tour_of;
use crate::woven::lemma_woven_is_hamiltonian;

verus! {

/// The finished tour.
pub type Solution = Tour;

/// The template of a colour, for order-index `n`.
pub open spec fn template(n: int, color: Color) -> Seq<(int, int)> {
    match color {
        Color::Blue => spiral(n),
        Color::Red => red_of(spiral(n)),
    }
}

/// The pieces of level `i`, cut at the given pins.
pub open spec fn level_pieces(n: int, i: int, pins: Seq<(int, int, int)>) -> Option<
    Seq<Seq<(int, int, int)>>,
> {
    prepare_spec(template(n, level_color(n, i)), level_start(n, i), level_z(n, i), pins)
}

/// The loom after the first `k` levels, together with the pins for the next
/// level. `None` if a level could not be cut at its pins.
pub open spec fn loom_after(n: int, k: int) -> Option<
    (Seq<Seq<(int, int, int)>>, Seq<(int, int, int)>),
>
    decreases k,
{
    if k <= 0 {
        Some((Seq::empty(), Seq::empty()))
    } else {
        match loom_after(n, k - 1) {
            None => None,
            Some((loom, pins)) => match level_pieces(n, k - 1, pins) {
                None => None,
                Some(warps) => {
                    let extended = extend_spec(loom, warps);
                    if k == n {
                        Some((extended, Seq::empty()))
                    } else {
                        Some(
                            (
                                pin_spec(extended, extended.len() as int),
                                pins_of(extended, extended.len() as int),
                            ),
                        )
                    }
                },
            },
        }
    }
}

/// The tour of order-index `n`: the levels are woven from the outermost to the
/// innermost, every thread is mirrored into a cycle, and the cycles are merged
/// into the first of them in the order in which their threads were started.
#[verifier::opaque]
pub open spec fn weave_spec(n: int) -> Result<Seq<(int, int, int)>, InvariantViolation> {
    match loom_after(n, n) {
        None => Err(InvariantViolation::UnmatchedPin),
        Some((loom, pins)) => {
            let cycles = mirror_spec(loom);
            match merge_from(new_weft(cycles[0], radius_of(n)), cycles.skip(1), 0) {
                Err(e) => Err(e),
                Ok(weft) => Ok(weft.data),
            }
        },
    }
}

/// The points with planar coordinates of magnitude at most `2n + 1` and
/// elevation between `-(2n - 1)` and `top`.
pub open spec fn boxed(n: int, top: int) -> spec_fn((int, int, int)) -> bool {
    |p: (int, int, int)|
        -(2 * n + 1) <= p.0 <= 2 * n + 1 && -(2 * n + 1) <= p.1 <= 2 * n + 1 && -(2 * n - 1)
            <= p.2 <= top
}

/// Once a level cannot be cut, no later state of the loom exists.
pub proof fn lemma_loom_after_none(n: int, k: int, l: int)
    requires
        0 <= k <= l,
        loom_after(n, k) is None,
    ensures
        loom_after(n, l) is None,
    decreases l - k,
{
    if k < l {
        lemma_loom_after_none(n, k, l - 1);
    }
}

/// The fragment of level `i` has as many points as the level, and all of them
/// lie at the level's elevation, within the planar bounds.
pub proof fn lemma_fragment_boxed(n: int, i: int)
    requires
        1 <= n,
        0 <= i < n,
    ensures
        0 <= level_start(n, i) <= spool_size_of(n),
        fragment(template(n, level_color(n, i)), level_start(n, i), level_z(n, i)).len()
            == level_size(i + 1),
        level_size(i + 1) >= 4,
        each(
            fragment(template(n, level_color(n, i)), level_start(n, i), level_z(n, i)),
            boxed(n, level_z(n, i)),
        ),
{
    lemma_spiral_is_hamiltonian_path(n);
    assert(4 <= 2 * (i + 1) * (i + 1 + 1) <= 2 * n * (n + 1)) by (nonlinear_arith)
        requires
            0 <= i < n,
    ;
    let yarn = template(n, level_color(n, i));
    let start = level_start(n, i);
    let piece = fragment(yarn, start, level_z(n, i));
    assert forall|k: int| 0 <= k < piece.len() implies boxed(n, level_z(n, i))(
        #[trigger] piece[k],
    ) by {
        assert(piece[k] == (yarn.skip(start)[k].0, yarn.skip(start)[k].1, level_z(n, i)));
        assert(yarn.skip(start)[k] == yarn[start + k]);
        let p = spiral(n)[start + k];
        assert(abs(p.0) <= 2 * n - 1 && abs(p.1) <= 2 * n - 1);
    }
}

/// Weaves the Hamiltonian cycle of the graph of order-index `n`.
///
/// The spiral is spun and coloured once. Level by level, from the outermost
/// to the innermost, the level's fragment is cut at the pins, the threads of
/// the loom take their pieces, and their ends are pinned for the next level.
/// The threads are mirrored into cycles, and the cycles are merged into the
/// first one. The result is the tour that `weave_spec` describes; the weave
/// fails where `weave_spec` does, with the same reason. A tour that it yields
/// is a Hamiltonian cycle of the graph.
pub fn weave(n: usize) -> (r: Result<Solution, InvariantViolation>)
    requires
        1 <= n <= MAX_N,
        4 * (n + 2) * (n + 1) * n <= usize::MAX,
    ensures
        match r {
            Ok(tour) => weave_spec(n as int) == Ok::<Seq<(int, int, int)>, InvariantViolation>(
                pts3(tour@),
            ) && is_tour_of(pts3(tour@), n as int),
            Err(e) => weave_spec(n as int) == Err::<Seq<(int, int, int)>, InvariantViolation>(e),
        },
{
    proof {
        assert(2 * n * (n + 1) <= 4 * (n + 2) * (n + 1) * n) by (nonlinear_arith)
            requires
                1 <= n,
        ;
    }
    let mut loom: Loom = Vec::with_capacity(loom_size(n));
    let spool = spin(n);
    proof {
        lemma_spiral_is_hamiltonian_path(n as int);
        assert forall|i: int| 0 <= i < spool.len() implies -32765 <= (#[trigger] spool[i])[0]
            && -32765 <= spool[i][1] by {
            let p = pts2(spool@)[i];
            assert(abs(p.0) <= 2 * n - 1 && abs(p.1) <= 2 * n - 1);
        }
    }
    let yarns: Yarns = colorized(spool);
    let levels: Vec<LevelSetting> = get_zpos_size_color(n);
    let mut cushion: Cushion = Vec::new();
    let mut i: usize = 0;
    while i < n
        invariant
            1 <= n <= MAX_N,
            i <= n,
            levels.len() == n,
            forall|k: int|
                0 <= k < n ==> setting_view(#[trigger] levels[k]) == level_setting(n as int, k),
            pts2(yarns.blue@) == spiral(n as int),
            pts2(yarns.red@) == red_of(spiral(n as int)),
            loom_after(n as int, i as int) == Some((loom_view(loom@), pts3(cushion@))),
            threads_nonempty(loom_view(loom@)),
            each_thread(loom_view(loom@), boxed(n as int, level_z(n as int, i as int))),
            i >= 1 ==> loom@.len() >= 1,
        decreases n - i,
    {
        let setting: LevelSetting = levels[i];
        let z: i16 = setting.0.0;
        let start: usize = setting.0.1;
        let color: Color = setting.1;
        let ghost before = loom_view(loom@);
        let ghost pins = pts3(cushion@);
        let ghost top = level_z(n as int, i as int);
        proof {
            assert(setting_view(levels[i as int]) == level_setting(n as int, i as int));
            lemma_fragment_boxed(n as int, i as int);
            assert(pts2(yarns.of(color)) == template(n as int, level_color(n as int, i as int)));
        }
        match prepare(z, color, start, &cushion, &yarns) {
            Err(e) => {
                proof {
                    reveal(weave_spec);
                    assert(loom_after(n as int, i as int + 1) is None);
                    lemma_loom_after_none(n as int, i as int + 1, n as int);
                }
                return Err(e);
            },
            Ok(warps) => {
                let ghost pieces = warps_view(warps@);
                proof {
                    let piece = fragment(
                        template(n as int, level_color(n as int, i as int)),
                        level_start(n as int, i as int),
                        top,
                    );
                    if pins.len() > 0 {
                        lemma_cut_each(piece, pins, boxed(n as int, top));
                    } else {
                        assert(pieces[0] == piece);
                    }
                    lemma_extend_each(before, pieces, boxed(n as int, top));
                    if i == 0 {
                        assert(before.len() == 0);
                        assert(pieces =~= seq![piece]);
                        let (threads, rest) = extend_from(before, pieces, 0);
                        assert(rest == pieces);
                        assert(leftover(rest, 0).len() == 0);
                        assert(leftover(rest, 1).len() == 1);
                    }
                }
                extend_threads(&mut loom, warps);
                let ghost extended = loom_view(loom@);
                proof {
                    if i + 1 != n {
                        lemma_pin_each(
                            extended,
                            boxed(n as int, top),
                            boxed(n as int, level_z(n as int, i as int + 1)),
                        );
                        assert(ends_below_top(extended)) by {
                            assert forall|k: int| 0 <= k < extended.len() implies (
                            #[trigger] extended[k]).first().2 + 2 <= i16::MAX && extended[k].last().2
                                + 2 <= i16::MAX by {
                                assert(each(extended[k], boxed(n as int, top)));
                                assert(boxed(n as int, top)(extended[k][0]));
                                assert(boxed(n as int, top)(extended[k][extended[k].len() - 1]));
                            }
                        }
                    } else {
                        assert forall|k: int| 0 <= k < extended.len() implies each(
                            #[trigger] extended[k],
                            boxed(n as int, level_z(n as int, i as int + 1)),
                        ) by {
                            assert(each(extended[k], boxed(n as int, top)));
                            assert forall|l: int| 0 <= l < extended[k].len() implies boxed(
                                n as int,
                                level_z(n as int, i as int + 1),
                            )(#[trigger] extended[k][l]) by {
                                assert(boxed(n as int, top)(extended[k][l]));
                            }
                        }
                    }
                }
                cushion = pin_ends(&mut loom, i + 1 == n);
                proof {
                    if i + 1 == n {
                        assert(pts3(cushion@) =~= Seq::empty());
                        assert(loom_view(loom@) == extended);
                    }
                }
            },
        }
        i += 1;
    }
    let ghost half = loom_view(loom@);
    proof {
        lemma_mirror_each(half, boxed(n as int, level_z(n as int, n as int)), cubed(n as int));
        assert forall|k: int| 0 <= k < half.len() implies reflectable(#[trigger] half[k]) by {
            assert(each(half[k], boxed(n as int, level_z(n as int, n as int))));
            assert forall|l: int| 0 <= l < half[k].len() implies (#[trigger] half[k][l]).2
                > i16::MIN by {
                assert(boxed(n as int, level_z(n as int, n as int))(half[k][l]));
            }
        }
    }
    mirror_threads(&mut loom);
    let ghost cycles = loom_view(loom@);
    let (mut weft, mut warps) = detach_weft(loom, n);
    let ghost others = cycles.skip(1);
    let ghost start_weft = weft@;
    let ghost goal = merge_from(start_weft, others, 0);
    proof {
        reveal(weave_spec);
        assert(loom_after(n as int, n as int) == Some((half, pts3(cushion@))));
        assert(cycles == mirror_spec(half));
        assert(weave_spec(n as int) == match goal {
            Err(e) => Err::<Seq<(int, int, int)>, InvariantViolation>(e),
            Ok(w) => Ok(w.data),
        });
        assert(each(cycles[0], cubed(n as int)));
        assert forall|k: int| 0 <= k < weft@.data.len() implies cubed(MAX_N as int)(
            #[trigger] weft@.data[k],
        ) by {
            assert(cubed(n as int)(cycles[0][k]));
        }
    }
    let mut j: usize = 0;
    while j < warps.len()
        invariant
            1 <= n <= MAX_N,
            j <= warps.len(),
            warps@.len() == others.len(),
            each_thread(others, cubed(n as int)),
            forall|k: int| j <= k < others.len() ==> #[trigger] warps_view(warps@)[k] == others[k],
            thresholds_fit(weft@),
            each(weft@.data, cubed(MAX_N as int)),
            merge_from(weft@, others, j as int) == goal,
            weave_spec(n as int) == match goal {
                Err(e) => Err::<Seq<(int, int, int)>, InvariantViolation>(e),
                Ok(w) => Ok(w.data),
            },
        decreases warps.len() - j,
    {
        let ghost old_warps = warps_view(warps@);
        proof {
            assert(old_warps[j as int] == others[j as int]);
            assert(each(others[j as int], cubed(n as int)));
            assert forall|k: int| 0 <= k < others[j as int].len() implies cubed(MAX_N as int)(
                #[trigger] others[j as int][k],
            ) by {
                assert(cubed(n as int)(others[j as int][k]));
            }
        }
        match merge_warp(&mut weft, &mut warps[j]) {
            Err(e) => {
                return Err(e);
            },
            Ok(()) => {},
        }
        proof {
            assert forall|k: int| j + 1 <= k < others.len() implies #[trigger] warps_view(
                warps@,
            )[k] == others[k] by {
                assert(warps_view(warps@)[k] == old_warps[k]);
            }
        }
        j += 1;
    }
    let tour: Solution = weft.get_woven();
    proof {
        lemma_woven_is_hamiltonian(n as int, pts3(tour@));
    }
    Ok(tour)
}

} // verus!
