//! What holds of the woven tour: whenever the weave yields a tour, the tour is
//! a Hamiltonian cycle of the graph.
use vstd::prelude::*;
use crate::point::{V3d, adjacent, each, each_thread, l1norm3};
use crate::info::{MAX_N, is_vertex, level_z, max_norm_of, order_of, radius_of};
use crate::cut::{
    InvariantViolation, ascending_within, cut_at, cut_spec, head_piece, lemma_cut_each,
    lemma_pin_positions, piece_start, pin_positions,
};
use crate::loom::{
    above, absorb, extend_from, extend_spec, leftover, mirror_spec, mirrored, pin_spec, pinned,
    pins_of, reflect, threads_nonempty,
};
use crate::edge::{
    first_candidate, lemma_warp_edges_members, lemma_weft_edge_members, warp_edges, weft_eadj,
};
use crate::merge::{
    WeftView, align_spec, first_index, lemma_align_at_each, lemma_first_index, merge_from,
    merge_step, new_weft, weft_edge_of,
};
use crate::weave::{level_pieces, loom_after, weave, weave_spec};
use crate::certify::{SequenceID, certify, classify, is_chain, is_tour_of, joins};
use crate::chains::{
    is_closed, lemma_align_cycle, lemma_chain_concat, lemma_chain_reverse, lemma_chain_subrange,
    lemma_same_length_covers, lemma_sum_same_points,
};
use crate::levels::{
    lemma_level_points, lemma_lower_half, lemma_vertices, lemma_vertices_are_graph,
    level_points, lower_half, vertices,
};
use crate::splice::{
    lemma_extend_len, lemma_mirror_len, lemma_pin_len, lemma_spliced, lemma_total_len_first,
    lemma_total_len_take, pins_match, total_len,
};

verus! {

/// Some thread of the loom holds the point `p`.
pub open spec fn holds(loom: Seq<Seq<(int, int, int)>>, p: (int, int, int)) -> bool {
    exists|i: int| 0 <= i < loom.len() && (#[trigger] loom[i]).contains(p)
}

/// Every thread of the loom is a chain.
pub open spec fn all_chains(loom: Seq<Seq<(int, int, int)>>) -> bool {
    forall|i: int| 0 <= i < loom.len() ==> is_chain(#[trigger] loom[i])
}

/// Both ends of every thread of the loom lie at elevation `z`.
pub open spec fn ends_at(loom: Seq<Seq<(int, int, int)>>, z: int) -> bool {
    forall|i: int|
        0 <= i < loom.len() ==> (#[trigger] loom[i]).first().2 == z && loom[i].last().2 == z
}

/// The points at elevation `z`.
pub open spec fn at_level(z: int) -> spec_fn((int, int, int)) -> bool {
    |p: (int, int, int)| p.2 == z
}

/// Every index up to the `j`-th pin lies in one of the pieces that end with
/// one of the first `j + 1` pins.
proof fn lemma_head_covers(m: Seq<int>, j: int, x: int)
    requires
        0 <= j < m.len(),
        forall|a: int, b: int| 0 <= a < b < m.len() ==> m[a] < m[b],
        0 <= x <= m[j],
    ensures
        exists|i: int| 0 <= i <= j && piece_start(m, i) <= x <= #[trigger] m[i],
    decreases j,
{
    if x >= piece_start(m, j) {
        assert(piece_start(m, j) <= x <= m[j]);
    } else {
        lemma_head_covers(m, j - 1, x);
    }
}

/// The pieces of a chain cut at ascending positions are chains.
proof fn lemma_cut_at_chains(yarn: Seq<(int, int, int)>, m: Seq<int>)
    requires
        is_chain(yarn),
        m.len() > 0,
        ascending_within(m, yarn.len() as int),
    ensures
        all_chains(cut_at(yarn, m)),
{
    let pieces = cut_at(yarn, m);
    let last = m.len() - 1;
    let len = yarn.len() as int;
    assert forall|i: int| 0 <= i < pieces.len() implies is_chain(#[trigger] pieces[i]) by {
        let j = if i < last {
            i
        } else {
            last
        };
        let start = piece_start(m, j);
        assert(0 <= start <= m[j]) by {
            if j > 0 {
                assert(m[j - 1] < m[j]);
            }
        }
        if i < last {
            assert(pieces[i] == head_piece(yarn, m, i));
            lemma_chain_subrange(yarn, start, m[i] + 1);
            lemma_chain_reverse(yarn.subrange(start, m[i] + 1));
        } else if m[last] != len - 1 {
            if i == last {
                lemma_chain_subrange(yarn, m[last], len);
            } else {
                lemma_chain_subrange(yarn, start, m[last]);
                lemma_chain_reverse(yarn.subrange(start, m[last]));
            }
        } else {
            lemma_chain_subrange(yarn, start, m[last] + 1);
            lemma_chain_reverse(yarn.subrange(start, m[last] + 1));
        }
    }
}

/// A point of a stretch of the yarn is a point of the stretch read backwards.
proof fn lemma_reversed_range_holds(yarn: Seq<(int, int, int)>, from: int, to: int, x: int)
    requires
        0 <= from <= x < to <= yarn.len(),
    ensures
        yarn.subrange(from, to).reverse().contains(yarn[x]),
{
    let range = yarn.subrange(from, to);
    assert(range.reverse()[to - 1 - x] == range[x - from]);
}

/// Every point of the yarn lies in one of the pieces cut at ascending positions.
proof fn lemma_cut_at_covers(yarn: Seq<(int, int, int)>, m: Seq<int>, x: int)
    requires
        m.len() > 0,
        ascending_within(m, yarn.len() as int),
        0 <= x < yarn.len(),
    ensures
        holds(cut_at(yarn, m), yarn[x]),
{
    let pieces = cut_at(yarn, m);
    let last = m.len() - 1;
    let len = yarn.len() as int;
    let p = yarn[x];
    let start = piece_start(m, last);
    assert(0 <= start <= m[last]) by {
        if last > 0 {
            assert(m[last - 1] < m[last]);
        }
    }
    if x < start {
        lemma_head_covers(m, last - 1, x);
        let i = choose|i: int| 0 <= i <= last - 1 && piece_start(m, i) <= x <= #[trigger] m[i];
        assert(pieces[i] == head_piece(yarn, m, i));
        lemma_reversed_range_holds(yarn, piece_start(m, i), m[i] + 1, x);
        assert(pieces[i].contains(p));
    } else if m[last] != len - 1 {
        if x >= m[last] {
            assert(pieces[last] == yarn.subrange(m[last], len));
            assert(pieces[last][x - m[last]] == p);
            assert(pieces[last].contains(p));
        } else {
            assert(pieces[last + 1] == yarn.subrange(start, m[last]).reverse());
            lemma_reversed_range_holds(yarn, start, m[last], x);
            assert(pieces[last + 1].contains(p));
        }
    } else {
        assert(pieces[last] == head_piece(yarn, m, last));
        lemma_reversed_range_holds(yarn, start, m[last] + 1, x);
        assert(pieces[last].contains(p));
    }
}

/// The pieces of a chain are chains, and every point of the chain lies in one
/// of them.
pub proof fn lemma_cut_pieces(yarn: Seq<(int, int, int)>, pins: Seq<(int, int, int)>)
    requires
        is_chain(yarn),
        cut_spec(yarn, pins) is Some,
    ensures
        all_chains(cut_spec(yarn, pins).unwrap()),
        forall|p: (int, int, int)| yarn.contains(p) ==> holds(cut_spec(yarn, pins).unwrap(), p),
{
    let m = pin_positions(yarn, pins, yarn.len() as int);
    assert(ascending_within(m, yarn.len() as int)) by {
        lemma_pin_positions(yarn, pins, yarn.len() as int);
    }
    lemma_cut_at_chains(yarn, m);
    assert forall|p: (int, int, int)| yarn.contains(p) implies holds(cut_at(yarn, m), p) by {
        let x = choose|x: int| 0 <= x < yarn.len() && yarn[x] == p;
        lemma_cut_at_covers(yarn, m, x);
    }
}

/// A thread that takes its pieces stays a chain with its ends at the level, and
/// no point is lost.
pub proof fn lemma_absorb_inv(
    thread: Seq<(int, int, int)>,
    warps: Seq<Seq<(int, int, int)>>,
    j: int,
    z: int,
)
    requires
        0 <= j,
        thread.len() > 0,
        is_chain(thread),
        thread.first().2 == z,
        thread.last().2 == z,
        all_chains(warps),
        each_thread(warps, at_level(z)),
    ensures
        absorb(thread, warps, j).0.len() > 0,
        is_chain(absorb(thread, warps, j).0),
        absorb(thread, warps, j).0.first().2 == z,
        absorb(thread, warps, j).0.last().2 == z,
        absorb(thread, warps, j).1.len() == warps.len(),
        all_chains(absorb(thread, warps, j).1),
        each_thread(absorb(thread, warps, j).1, at_level(z)),
        forall|p: (int, int, int)|
            thread.contains(p) || holds(warps, p) ==> absorb(thread, warps, j).0.contains(p)
                || holds(absorb(thread, warps, j).1, p),
    decreases warps.len() - j,
{
    if j < warps.len() {
        let w = warps[j];
        let emptied = warps.update(j, Seq::empty());
        let front = w.len() > 0 && thread.first() == w.first();
        let back = w.len() > 0 && thread.last() == w.first();
        if front || back {
            let grown = if front {
                w.skip(1).reverse() + thread
            } else {
                thread + w.skip(1)
            };
            assert(is_chain(w));
            assert(each(w, at_level(z)));
            lemma_chain_subrange(w, 1, w.len() as int);
            assert(w.skip(1) =~= w.subrange(1, w.len() as int));
            lemma_chain_reverse(w.skip(1));
            if w.len() > 1 {
                assert(joins(w, 0));
                assert(w.skip(1).first() == w[1]);
                assert(at_level(z)(w[w.len() - 1]));
                assert(w.skip(1).last() == w[w.len() - 1]);
            }
            if front {
                lemma_chain_concat(w.skip(1).reverse(), thread);
            } else {
                lemma_chain_concat(thread, w.skip(1));
            }
            assert(all_chains(emptied) && each_thread(emptied, at_level(z))) by {
                assert forall|i: int| 0 <= i < emptied.len() implies is_chain(
                    #[trigger] emptied[i],
                ) && each(emptied[i], at_level(z)) by {
                    if i != j {
                        assert(emptied[i] == warps[i]);
                        assert(is_chain(warps[i]));
                        assert(each(warps[i], at_level(z)));
                    }
                }
            }
            lemma_absorb_inv(grown, emptied, j + 1, z);
            assert forall|p: (int, int, int)| thread.contains(p) || holds(warps, p) implies absorb(
                thread,
                warps,
                j,
            ).0.contains(p) || holds(absorb(thread, warps, j).1, p) by {
                if thread.contains(p) {
                    let l = choose|l: int| 0 <= l < thread.len() && thread[l] == p;
                    if front {
                        assert(grown[w.len() - 1 + l] == p);
                    } else {
                        assert(grown[l] == p);
                    }
                    assert(grown.contains(p));
                } else {
                    let i = choose|i: int| 0 <= i < warps.len() && (#[trigger] warps[i]).contains(p);
                    if i != j {
                        assert(emptied[i].contains(p));
                        assert(holds(emptied, p));
                    } else {
                        let l = choose|l: int| 0 <= l < w.len() && w[l] == p;
                        if l == 0 {
                            if front {
                                assert(grown[w.len() - 1] == p);
                            } else {
                                assert(grown[thread.len() - 1] == p);
                            }
                        } else {
                            if front {
                                assert(w.skip(1).reverse()[w.len() - 1 - l] == w.skip(1)[l - 1]);
                                assert(grown[w.len() - 1 - l] == p);
                            } else {
                                assert(grown[thread.len() + l - 1] == p);
                            }
                        }
                        assert(grown.contains(p));
                    }
                }
            }
        } else {
            lemma_absorb_inv(thread, warps, j + 1, z);
        }
    }
}

/// The threads that take their pieces stay chains with their ends at the
/// level, and no point is lost.
pub proof fn lemma_extend_from_inv(
    loom: Seq<Seq<(int, int, int)>>,
    warps: Seq<Seq<(int, int, int)>>,
    i: int,
    z: int,
)
    requires
        0 <= i,
        threads_nonempty(loom),
        all_chains(loom),
        ends_at(loom, z),
        all_chains(warps),
        each_thread(warps, at_level(z)),
    ensures
        extend_from(loom, warps, i).0.len() == loom.len(),
        threads_nonempty(extend_from(loom, warps, i).0),
        all_chains(extend_from(loom, warps, i).0),
        ends_at(extend_from(loom, warps, i).0, z),
        extend_from(loom, warps, i).1.len() == warps.len(),
        all_chains(extend_from(loom, warps, i).1),
        each_thread(extend_from(loom, warps, i).1, at_level(z)),
        forall|p: (int, int, int)|
            holds(loom, p) || holds(warps, p) ==> holds(extend_from(loom, warps, i).0, p) || holds(
                extend_from(loom, warps, i).1,
                p,
            ),
    decreases loom.len() - i,
{
    if i < loom.len() {
        let thread = loom[i];
        assert(thread.len() > 0 && is_chain(thread));
        lemma_absorb_inv(thread, warps, 0, z);
        let (grown, rest) = absorb(thread, warps, 0);
        let next = loom.update(i, grown);
        assert(threads_nonempty(next) && all_chains(next) && ends_at(next, z)) by {
            assert forall|k: int| 0 <= k < next.len() implies (#[trigger] next[k]).len() > 0
                && is_chain(next[k]) && next[k].first().2 == z && next[k].last().2 == z by {
                if k != i {
                    assert(next[k] == loom[k]);
                }
            }
        }
        lemma_extend_from_inv(next, rest, i + 1, z);
        assert forall|p: (int, int, int)| holds(loom, p) || holds(warps, p) implies holds(
            extend_from(loom, warps, i).0,
            p,
        ) || holds(extend_from(loom, warps, i).1, p) by {
            if holds(loom, p) {
                let k = choose|k: int| 0 <= k < loom.len() && (#[trigger] loom[k]).contains(p);
                if k != i {
                    assert(next[k].contains(p));
                    assert(holds(next, p));
                } else {
                    assert(grown.contains(p) || holds(rest, p));
                    if grown.contains(p) {
                        assert(next[i].contains(p));
                        assert(holds(next, p));
                    }
                }
            } else {
                assert(grown.contains(p) || holds(rest, p));
                if grown.contains(p) {
                    assert(next[i].contains(p));
                    assert(holds(next, p));
                }
            }
        }
    }
}

/// The pieces that are left are chains at the level, and hold every point of
/// the pieces they are taken from.
pub proof fn lemma_leftover_inv(warps: Seq<Seq<(int, int, int)>>, k: int, z: int)
    requires
        0 <= k <= warps.len(),
        all_chains(warps),
        each_thread(warps, at_level(z)),
    ensures
        threads_nonempty(leftover(warps, k)),
        all_chains(leftover(warps, k)),
        ends_at(leftover(warps, k), z),
        forall|p: (int, int, int)|
            (exists|i: int| 0 <= i < k && (#[trigger] warps[i]).contains(p)) ==> holds(
                leftover(warps, k),
                p,
            ),
    decreases k,
{
    if k > 0 {
        lemma_leftover_inv(warps, k - 1, z);
        let rest = leftover(warps, k - 1);
        let all = leftover(warps, k);
        let w = warps[k - 1];
        assert(is_chain(w) && each(w, at_level(z)));
        if w.len() > 0 {
            assert(at_level(z)(w[0]) && at_level(z)(w[w.len() - 1]));
        }
        assert forall|i: int| 0 <= i < all.len() implies (#[trigger] all[i]).len() > 0 && is_chain(
            all[i],
        ) && all[i].first().2 == z && all[i].last().2 == z by {
            if i < rest.len() {
                assert(all[i] == rest[i]);
            }
        }
        assert forall|p: (int, int, int)|
            (exists|i: int| 0 <= i < k && (#[trigger] warps[i]).contains(p)) implies holds(
            all,
            p,
        ) by {
            let i = choose|i: int| 0 <= i < k && (#[trigger] warps[i]).contains(p);
            if i < k - 1 {
                assert(holds(rest, p));
                let l = choose|l: int| 0 <= l < rest.len() && (#[trigger] rest[l]).contains(p);
                assert(all[l].contains(p));
            } else {
                assert(w.len() > 0);
                assert(all[all.len() - 1].contains(p));
            }
        }
    }
}

/// The loom after a level keeps its threads as chains with their ends at the
/// level, and holds every point it held and every point of the pieces.
pub proof fn lemma_extend_inv(
    loom: Seq<Seq<(int, int, int)>>,
    warps: Seq<Seq<(int, int, int)>>,
    z: int,
)
    requires
        threads_nonempty(loom),
        all_chains(loom),
        ends_at(loom, z),
        all_chains(warps),
        each_thread(warps, at_level(z)),
    ensures
        threads_nonempty(extend_spec(loom, warps)),
        all_chains(extend_spec(loom, warps)),
        ends_at(extend_spec(loom, warps), z),
        forall|p: (int, int, int)|
            holds(loom, p) || holds(warps, p) ==> holds(extend_spec(loom, warps), p),
{
    lemma_extend_from_inv(loom, warps, 0, z);
    let (threads, rest) = extend_from(loom, warps, 0);
    lemma_leftover_inv(rest, rest.len() as int, z);
    let extra = leftover(rest, rest.len() as int);
    let all = extend_spec(loom, warps);
    assert(all == threads + extra);
    assert forall|i: int| 0 <= i < all.len() implies (#[trigger] all[i]).len() > 0 && is_chain(
        all[i],
    ) && all[i].first().2 == z && all[i].last().2 == z by {
        if i < threads.len() {
            assert(all[i] == threads[i]);
        } else {
            assert(all[i] == extra[i - threads.len()]);
        }
    }
    assert forall|p: (int, int, int)| holds(loom, p) || holds(warps, p) implies holds(all, p) by {
        assert(holds(threads, p) || holds(rest, p));
        if holds(threads, p) {
            let i = choose|i: int| 0 <= i < threads.len() && (#[trigger] threads[i]).contains(p);
            assert(all[i].contains(p));
        } else {
            let i = choose|i: int| 0 <= i < rest.len() && (#[trigger] rest[i]).contains(p);
            assert(holds(extra, p));
            let l = choose|l: int| 0 <= l < extra.len() && (#[trigger] extra[l]).contains(p);
            assert(all[threads.len() + l].contains(p));
        }
    }
}

/// The pinned threads are chains with their ends one level up, and hold every
/// point they held.
pub proof fn lemma_pin_inv(loom: Seq<Seq<(int, int, int)>>, z: int)
    requires
        threads_nonempty(loom),
        all_chains(loom),
        ends_at(loom, z),
    ensures
        pin_spec(loom, loom.len() as int).len() == loom.len(),
        threads_nonempty(pin_spec(loom, loom.len() as int)),
        all_chains(pin_spec(loom, loom.len() as int)),
        ends_at(pin_spec(loom, loom.len() as int), z + 2),
        forall|p: (int, int, int)| holds(loom, p) ==> holds(pin_spec(loom, loom.len() as int), p),
{
    let out = pin_spec(loom, loom.len() as int);
    assert forall|i: int| 0 <= i < out.len() implies (#[trigger] out[i]).len() > 0 && is_chain(
        out[i],
    ) && out[i].first().2 == z + 2 && out[i].last().2 == z + 2 by {
        let t = loom[i];
        assert(t.len() > 0 && is_chain(t));
        assert(out[i] == pinned(t));
        let front = seq![above(t.first())];
        let back = seq![above(t.last())];
        lemma_chain_concat(front, t);
        lemma_chain_concat(front + t, back);
        assert(out[i].first() == above(t.first()));
        assert(out[i].last() == above(t.last()));
    }
    assert forall|p: (int, int, int)| holds(loom, p) implies holds(out, p) by {
        let i = choose|i: int| 0 <= i < loom.len() && (#[trigger] loom[i]).contains(p);
        let l = choose|l: int| 0 <= l < loom[i].len() && loom[i][l] == p;
        assert(out[i][l + 1] == p);
        assert(out[i].contains(p));
    }
}

/// The elevation of the thread ends after `k` levels: the pins lie one level
/// up, and after the last level the ends lie just below the mid-plane.
pub open spec fn end_z(n: int, k: int) -> int {
    if k < n {
        level_z(n, k)
    } else {
        -1
    }
}

/// After every level the threads of the loom are chains that end at the same
/// elevation, and hold every point of the levels woven so far.
pub proof fn lemma_loom_after_inv(n: int, k: int)
    requires
        1 <= n,
        0 <= k <= n,
        loom_after(n, k) is Some,
    ensures
        threads_nonempty(loom_after(n, k).unwrap().0),
        all_chains(loom_after(n, k).unwrap().0),
        ends_at(loom_after(n, k).unwrap().0, end_z(n, k)),
        forall|p: (int, int, int)|
            lower_half(n, k).contains(p) ==> holds(loom_after(n, k).unwrap().0, p),
    decreases k,
{
    if k > 0 {
        lemma_loom_after_inv(n, k - 1);
        let (before, pins) = loom_after(n, k - 1).unwrap();
        let z = level_z(n, k - 1);
        let level = level_points(n, k - 1);
        let pieces = level_pieces(n, k - 1, pins).unwrap();
        lemma_level_points(n, k - 1);
        assert(each(level, at_level(z)));
        assert(all_chains(pieces) && each_thread(pieces, at_level(z)) && forall|
            p: (int, int, int),
        | level.contains(p) ==> holds(pieces, p)) by {
            if pins.len() == 0 {
                assert(pieces == seq![level]);
                assert(pieces[0] == level);
                assert forall|p: (int, int, int)| level.contains(p) implies holds(pieces, p) by {
                    assert(pieces[0].contains(p));
                }
            } else {
                lemma_cut_pieces(level, pins);
                lemma_cut_each(level, pins, at_level(z));
            }
        }
        assert(ends_at(before, z)) by {
            if k - 1 == 0 {
                assert(before.len() == 0);
            }
        }
        lemma_extend_inv(before, pieces, z);
        let extended = extend_spec(before, pieces);
        let below = lower_half(n, k - 1);
        assert forall|p: (int, int, int)| lower_half(n, k).contains(p) implies holds(
            extended,
            p,
        ) by {
            let all = lower_half(n, k);
            assert(all == below + level);
            let j = choose|j: int| 0 <= j < all.len() && all[j] == p;
            if j < below.len() {
                assert(below[j] == p);
                assert(below.contains(p));
            } else {
                assert(level[j - below.len()] == p);
                assert(level.contains(p));
            }
        }
        let after = loom_after(n, k).unwrap().0;
        if k != n {
            lemma_pin_inv(extended, z);
            assert(after == pin_spec(extended, extended.len() as int));
        } else {
            assert(after == extended);
        }
        assert forall|p: (int, int, int)| lower_half(n, k).contains(p) implies holds(after, p) by {
            assert(holds(extended, p));
        }
    } else {
        assert(lower_half(n, 0).len() == 0);
    }
}

/// A chain whose ends lie just below the mid-plane, followed by its mirror
/// image, is a closed chain. It holds the points of the chain and their mirror
/// images.
pub proof fn lemma_mirrored(t: Seq<(int, int, int)>)
    requires
        t.len() > 0,
        is_chain(t),
        t.first().2 == -1,
        t.last().2 == -1,
    ensures
        is_chain(mirrored(t)),
        is_closed(mirrored(t)),
        forall|p: (int, int, int)|
            t.contains(p) ==> mirrored(t).contains(p) && mirrored(t).contains(reflect(p)),
{
    let image = t.reverse().map_values(|p: (int, int, int)| reflect(p));
    lemma_chain_reverse(t);
    assert(is_chain(image)) by {
        assert forall|i: int| 0 <= i < image.len() - 1 implies #[trigger] joins(image, i) by {
            assert(joins(t.reverse(), i));
        }
    }
    assert(image.first() == reflect(t.last()));
    assert(image.last() == reflect(t.first()));
    lemma_chain_concat(t, image);
    let whole = mirrored(t);
    assert(whole == t + image);
    assert(whole.last() == image.last());
    assert(whole.first() == t.first());
    assert forall|p: (int, int, int)| t.contains(p) implies whole.contains(p) && whole.contains(
        reflect(p),
    ) by {
        let l = choose|l: int| 0 <= l < t.len() && t[l] == p;
        assert(whole[l] == p);
        assert(t.reverse()[t.len() - 1 - l] == p);
        assert(image[t.len() - 1 - l] == reflect(p));
        assert(whole[t.len() + (t.len() - 1 - l)] == reflect(p));
    }
}

/// A point of a sequence is found in it.
proof fn lemma_found(s: Seq<(int, int, int)>, p: (int, int, int))
    requires
        s.contains(p),
    ensures
        0 <= first_index(s, p, 0) < s.len(),
{
    lemma_first_index(s, p, 0);
}

/// What a merge that succeeds has found: both bridge edges join points of
/// their cycles, the turned cycles fit end to end, and the merged cycle is the
/// first turned cycle followed by the second.
pub proof fn lemma_merge_step_found(weft: WeftView, warp: Seq<(int, int, int)>)
    requires
        merge_step(weft, warp) is Ok,
    ensures
        weft_edge_of(weft) is Some,
        weft.data.contains(weft_edge_of(weft).unwrap().0),
        weft.data.contains(weft_edge_of(weft).unwrap().1),
        warp.contains(weft_eadj(weft_edge_of(weft).unwrap()).0),
        warp.contains(weft_eadj(weft_edge_of(weft).unwrap()).1),
        ({
            let bridge = weft_edge_of(weft).unwrap();
            let other = weft_eadj(bridge);
            let lead = align_spec(weft.data, bridge.0, bridge.1);
            let next = align_spec(warp, other.1, other.0);
            &&& adjacent(lead.last(), next.first())
            &&& adjacent(next.last(), lead.first())
            &&& merge_step(weft, warp).unwrap().data == lead + next
        }),
{
    reveal(merge_step);
    let data = weft.data;
    let candidates = warp_edges(warp, weft.joined, weft.max_sum_z, warp.len() as int);
    let bridge = weft_edge_of(weft).unwrap();
    let other = weft_eadj(bridge);
    let i = first_candidate(data, weft.joined, weft.max_sum_z, 0);
    lemma_weft_edge_members(data, weft.joined, weft.max_sum_z, 0);
    assert(data.contains(data[i]) && data.contains(data[i + 1]));
    lemma_warp_edges_members(warp, weft.joined, weft.max_sum_z, warp.len() as int);
    let c = choose|c: int| 0 <= c < candidates.len() && candidates[c] == other;
    assert(warp.contains(candidates[c].0) && warp.contains(candidates[c].1));
}

/// Merging a closed chain into the lead cycle, itself a closed chain, gives a
/// closed chain that holds the points of both.
pub proof fn lemma_merge_step(weft: WeftView, warp: Seq<(int, int, int)>)
    requires
        is_chain(weft.data),
        is_closed(weft.data),
        is_chain(warp),
        is_closed(warp),
        merge_step(weft, warp) is Ok,
    ensures
        is_chain(merge_step(weft, warp).unwrap().data),
        is_closed(merge_step(weft, warp).unwrap().data),
        forall|p: (int, int, int)| #[trigger]
            weft.data.contains(p) ==> merge_step(weft, warp).unwrap().data.contains(p),
        forall|p: (int, int, int)| #[trigger]
            warp.contains(p) ==> merge_step(weft, warp).unwrap().data.contains(p),
{
    lemma_merge_step_found(weft, warp);
    let data = weft.data;
    let bridge = weft_edge_of(weft).unwrap();
    let other = weft_eadj(bridge);
    lemma_found(data, bridge.0);
    lemma_found(data, bridge.1);
    lemma_found(warp, other.0);
    lemma_found(warp, other.1);
    let lead = align_spec(data, bridge.0, bridge.1);
    let next = align_spec(warp, other.1, other.0);
    lemma_align_cycle(data, first_index(data, bridge.0, 0), first_index(data, bridge.1, 0));
    lemma_align_cycle(warp, first_index(warp, other.1, 0), first_index(warp, other.0, 0));
    lemma_chain_concat(lead, next);
    let joined = lead + next;
    assert(joined.last() == next.last());
    assert(joined.first() == lead.first());
    assert forall|p: (int, int, int)| #[trigger] data.contains(p) implies joined.contains(p) by {
        let l = choose|l: int| 0 <= l < lead.len() && lead[l] == p;
        assert(joined[l] == p);
    }
    assert forall|p: (int, int, int)| #[trigger] warp.contains(p) implies joined.contains(p) by {
        let l = choose|l: int| 0 <= l < next.len() && next[l] == p;
        assert(joined[lead.len() + l] == p);
    }
}

/// Merging closed chains into the lead cycle, itself a closed chain, gives a
/// closed chain that holds the points of all of them.
pub proof fn lemma_merge_from(weft: WeftView, warps: Seq<Seq<(int, int, int)>>, j: int)
    requires
        0 <= j,
        is_chain(weft.data),
        is_closed(weft.data),
        forall|i: int| 0 <= i < warps.len() ==> is_chain(#[trigger] warps[i]) && is_closed(warps[i]),
        merge_from(weft, warps, j) is Ok,
    ensures
        is_chain(merge_from(weft, warps, j).unwrap().data),
        is_closed(merge_from(weft, warps, j).unwrap().data),
        forall|p: (int, int, int)| #[trigger]
            weft.data.contains(p) ==> merge_from(weft, warps, j).unwrap().data.contains(p),
        forall|p: (int, int, int), i: int|
            j <= i < warps.len() && (#[trigger] warps[i].contains(p)) ==> merge_from(
                weft,
                warps,
                j,
            ).unwrap().data.contains(p),
    decreases warps.len() - j,
{
    if j < warps.len() {
        assert(is_chain(warps[j]) && is_closed(warps[j]));
        lemma_merge_step(weft, warps[j]);
        let next = merge_step(weft, warps[j]).unwrap();
        lemma_merge_from(next, warps, j + 1);
        let done = merge_from(weft, warps, j).unwrap().data;
        assert forall|p: (int, int, int)| #[trigger] weft.data.contains(p) implies done.contains(
            p,
        ) by {
            assert(next.data.contains(p));
        }
        assert forall|p: (int, int, int), i: int|
            j <= i < warps.len() && (#[trigger] warps[i].contains(p)) implies done.contains(p) by {
            if i == j {
                assert(next.data.contains(p));
            }
        }
    }
}

/// The cycles that the finished loom is mirrored into are closed chains, there
/// is at least one, and together they hold every vertex of the graph.
pub proof fn lemma_cycles(n: int)
    requires
        1 <= n,
        loom_after(n, n) is Some,
    ensures
        mirror_spec(loom_after(n, n).unwrap().0).len() >= 1,
        forall|i: int|
            0 <= i < mirror_spec(loom_after(n, n).unwrap().0).len() ==> is_chain(
                #[trigger] mirror_spec(loom_after(n, n).unwrap().0)[i],
            ) && is_closed(mirror_spec(loom_after(n, n).unwrap().0)[i]),
        forall|p: (int, int, int)|
            vertices(n).contains(p) ==> holds(mirror_spec(loom_after(n, n).unwrap().0), p),
{
    let loom = loom_after(n, n).unwrap().0;
    lemma_loom_after_inv(n, n);
    lemma_lower_half(n, n);
    let lower = lower_half(n, n);
    assert(lower.len() > 0) by {
        lemma_order_positive(n);
    }
    assert(holds(loom, lower[0])) by {
        assert(lower.contains(lower[0]));
    }
    let cycles = mirror_spec(loom);
    assert forall|i: int| 0 <= i < cycles.len() implies is_chain(#[trigger] cycles[i]) && is_closed(
        cycles[i],
    ) by {
        assert(loom[i].len() > 0 && is_chain(loom[i]));
        lemma_mirrored(loom[i]);
    }
    assert forall|p: (int, int, int)| vertices(n).contains(p) implies holds(cycles, p) by {
        let all = vertices(n);
        let upper = lower.map_values(|q: (int, int, int)| reflect(q));
        assert(all == lower + upper);
        let j = choose|j: int| 0 <= j < all.len() && all[j] == p;
        let q = if j < lower.len() {
            lower[j]
        } else {
            lower[j - lower.len()]
        };
        assert(lower.contains(q));
        assert(p == q || p == reflect(q)) by {
            if j >= lower.len() {
                assert(all[j] == upper[j - lower.len()]);
            }
        }
        assert(holds(loom, q));
        let i = choose|i: int| 0 <= i < loom.len() && (#[trigger] loom[i]).contains(q);
        assert(loom[i].len() > 0 && is_chain(loom[i]));
        lemma_mirrored(loom[i]);
        assert(cycles[i].contains(p));
    }
}

/// A tour that the weave yields is what the merge of the mirrored loom yields.
proof fn lemma_weave_unfolded(n: int, tour: Seq<(int, int, int)>)
    requires
        weave_spec(n) == Ok::<Seq<(int, int, int)>, InvariantViolation>(tour),
    ensures
        loom_after(n, n) is Some,
        merge_from(
            new_weft(mirror_spec(loom_after(n, n).unwrap().0)[0], radius_of(n)),
            mirror_spec(loom_after(n, n).unwrap().0).skip(1),
            0,
        ) is Ok,
        merge_from(
            new_weft(mirror_spec(loom_after(n, n).unwrap().0)[0], radius_of(n)),
            mirror_spec(loom_after(n, n).unwrap().0).skip(1),
            0,
        ).unwrap().data == tour,
{
    reveal(weave_spec);
}

/// The woven tour holds every vertex of the graph, and is a closed chain.
pub proof fn lemma_woven_covers(n: int, tour: Seq<(int, int, int)>)
    requires
        1 <= n,
        weave_spec(n) == Ok::<Seq<(int, int, int)>, InvariantViolation>(tour),
    ensures
        is_chain(tour),
        is_closed(tour),
        forall|p: (int, int, int)| vertices(n).contains(p) ==> tour.contains(p),
{
    lemma_weave_unfolded(n, tour);
    lemma_cycles(n);
    let cycles = mirror_spec(loom_after(n, n).unwrap().0);
    let others = cycles.skip(1);
    let start = new_weft(cycles[0], radius_of(n));
    assert forall|i: int| 0 <= i < others.len() implies is_chain(#[trigger] others[i]) && is_closed(
        others[i],
    ) by {
        assert(others[i] == cycles[i + 1]);
    }
    lemma_merge_from(start, others, 0);
    assert forall|p: (int, int, int)| vertices(n).contains(p) implies tour.contains(p) by {
        assert(holds(cycles, p));
        let i = choose|i: int| 0 <= i < cycles.len() && (#[trigger] cycles[i]).contains(p);
        if i > 0 {
            assert(others[i - 1] == cycles[i]);
            assert(0 <= i - 1 < others.len() && others[i - 1].contains(p));
        } else {
            assert(start.data.contains(p));
        }
    }
}

/// The graph of a positive order-index has vertices.
proof fn lemma_order_positive(n: int)
    requires
        1 <= n,
    ensures
        order_of(n) >= 8,
{
    crate::info::lemma_order_exact(n);
    assert(4 * (n + 2) * (n + 1) * n >= 24) by (nonlinear_arith)
        requires
            1 <= n,
    ;
}

/// After every level the loom holds as many points as the levels woven so far,
/// and the pins on top: every pin of the level before was spliced away.
pub proof fn lemma_loom_after_len(n: int, k: int)
    requires
        1 <= n,
        0 <= k <= n,
        loom_after(n, k) is Some,
    ensures
        total_len(loom_after(n, k).unwrap().0) == lower_half(n, k).len() + loom_after(
            n,
            k,
        ).unwrap().1.len(),
        loom_after(n, k).unwrap().1.len() > 0 ==> pins_match(
            loom_after(n, k).unwrap().0,
            loom_after(n, k).unwrap().1,
        ),
        k == 0 ==> loom_after(n, k).unwrap().0.len() == 0,
        1 <= k ==> loom_after(n, k).unwrap().0.len() >= 1,
        1 <= k < n ==> loom_after(n, k).unwrap().1.len() > 0,
    decreases k,
{
    if k > 0 {
        lemma_loom_after_len(n, k - 1);
        lemma_loom_after_inv(n, k - 1);
        lemma_loom_after_inv(n, k);
        let (before, pins) = loom_after(n, k - 1).unwrap();
        let level = level_points(n, k - 1);
        let pieces = level_pieces(n, k - 1, pins).unwrap();
        lemma_level_points(n, k - 1);
        let extended = extend_spec(before, pieces);
        assert(lower_half(n, k).len() == lower_half(n, k - 1).len() + level.len());
        assert(total_len(extended) == lower_half(n, k).len()) by {
            if pins.len() == 0 {
                assert(k - 1 == 0);
                assert(before.len() == 0);
                assert(pieces == seq![level]);
                lemma_extend_len(before, pieces);
                let (threads, rest) = extend_from(before, pieces, 0);
                assert(rest == pieces);
                assert(total_len(before) == 0);
                assert(pieces.drop_last().len() == 0);
                assert(total_len(pieces.drop_last()) == 0);
                assert(pieces.last() == level);
                assert(total_len(pieces) == level.len());
            } else {
                assert(k - 1 >= 1) by {
                    if k - 1 == 0 {
                        assert(loom_after(n, 0).unwrap().1.len() == 0);
                    }
                }
                assert(pins_match(before, pins));
                assert(cut_spec(level, pins) == Some(pieces));
                lemma_spliced(before, pins, level);
            }
        }
        assert(extended.len() >= 1) by {
            if extended.len() == 0 {
                assert(total_len(extended) == 0);
            }
        }
        let (after, next_pins) = loom_after(n, k).unwrap();
        if k != n {
            assert(threads_nonempty(extended)) by {
                assert(ends_at(before, level_z(n, k - 1))) by {
                    if k - 1 == 0 {
                        assert(before.len() == 0);
                    }
                }
                lemma_level_pieces(n, k - 1, pins);
                lemma_extend_inv(before, pieces, level_z(n, k - 1));
            }
            lemma_pin_len(extended);
            assert(after == pin_spec(extended, extended.len() as int));
            assert(next_pins == pins_of(extended, extended.len() as int));
        } else {
            assert(after == extended);
            assert(next_pins.len() == 0);
        }
    } else {
        assert(lower_half(n, 0).len() == 0);
        assert(total_len(loom_after(n, 0).unwrap().0) == 0);
    }
}

/// The pieces of a level are chains at the level's elevation, and hold every
/// point of the level.
pub proof fn lemma_level_pieces(n: int, i: int, pins: Seq<(int, int, int)>)
    requires
        1 <= n,
        0 <= i < n,
        level_pieces(n, i, pins) is Some,
    ensures
        all_chains(level_pieces(n, i, pins).unwrap()),
        each_thread(level_pieces(n, i, pins).unwrap(), at_level(level_z(n, i))),
        forall|p: (int, int, int)|
            level_points(n, i).contains(p) ==> holds(level_pieces(n, i, pins).unwrap(), p),
{
    let z = level_z(n, i);
    let level = level_points(n, i);
    let pieces = level_pieces(n, i, pins).unwrap();
    lemma_level_points(n, i);
    assert(each(level, at_level(z)));
    if pins.len() == 0 {
        assert(pieces == seq![level]);
        assert(pieces[0] == level);
        assert forall|p: (int, int, int)| level.contains(p) implies holds(pieces, p) by {
            assert(pieces[0].contains(p));
        }
    } else {
        lemma_cut_pieces(level, pins);
        lemma_cut_each(level, pins, at_level(z));
    }
}

/// A merge that succeeds yields a cycle with the points of both cycles.
pub proof fn lemma_merge_step_len(weft: WeftView, warp: Seq<(int, int, int)>)
    requires
        merge_step(weft, warp) is Ok,
    ensures
        merge_step(weft, warp).unwrap().data.len() == weft.data.len() + warp.len(),
{
    lemma_merge_step_found(weft, warp);
    let bridge = weft_edge_of(weft).unwrap();
    let other = weft_eadj(bridge);
    lemma_first_index(weft.data, bridge.0, 0);
    lemma_first_index(weft.data, bridge.1, 0);
    lemma_first_index(warp, other.0, 0);
    lemma_first_index(warp, other.1, 0);
    let any = |p: (int, int, int)| true;
    lemma_align_at_each(
        weft.data,
        first_index(weft.data, bridge.0, 0),
        first_index(weft.data, bridge.1, 0),
        any,
    );
    lemma_align_at_each(warp, first_index(warp, other.1, 0), first_index(warp, other.0, 0), any);
}

/// Merges that succeed yield a cycle with the points of all the cycles.
pub proof fn lemma_merge_from_len(weft: WeftView, warps: Seq<Seq<(int, int, int)>>, j: int)
    requires
        0 <= j <= warps.len(),
        merge_from(weft, warps, j) is Ok,
    ensures
        merge_from(weft, warps, j).unwrap().data.len() == weft.data.len() + total_len(warps)
            - total_len(warps.take(j)),
    decreases warps.len() - j,
{
    if j < warps.len() {
        lemma_merge_step_len(weft, warps[j]);
        let next = merge_step(weft, warps[j]).unwrap();
        lemma_merge_from_len(next, warps, j + 1);
        lemma_total_len_take(warps, j);
    } else {
        assert(warps.take(j) =~= warps);
    }
}

/// The woven tour has as many points as the graph has vertices.
pub proof fn lemma_woven_len(n: int, tour: Seq<(int, int, int)>)
    requires
        1 <= n,
        weave_spec(n) == Ok::<Seq<(int, int, int)>, InvariantViolation>(tour),
    ensures
        tour.len() == order_of(n),
{
    lemma_weave_unfolded(n, tour);
    lemma_loom_after_len(n, n);
    lemma_lower_half(n, n);
    let loom = loom_after(n, n).unwrap().0;
    assert(loom_after(n, n).unwrap().1.len() == 0) by {
        lemma_last_level_unpinned(n);
    }
    let cycles = mirror_spec(loom);
    lemma_mirror_len(loom);
    lemma_total_len_first(cycles);
    let others = cycles.skip(1);
    let start = new_weft(cycles[0], radius_of(n));
    lemma_merge_from_len(start, others, 0);
    assert(total_len(others.take(0)) == 0);
}

/// After the last level no pins are left.
proof fn lemma_last_level_unpinned(n: int)
    requires
        1 <= n,
        loom_after(n, n) is Some,
    ensures
        loom_after(n, n).unwrap().1.len() == 0,
{
}

/// Whenever the weave yields a tour, the tour is a Hamiltonian cycle of the
/// graph: it visits every vertex once, every step joins two neighbours, and so
/// does the step from its last point back to its first. The certifier's
/// verdict on it is `HamCycle`.
pub proof fn lemma_woven_is_hamiltonian(n: int, tour: Seq<(int, int, int)>)
    requires
        1 <= n,
        weave_spec(n) == Ok::<Seq<(int, int, int)>, InvariantViolation>(tour),
    ensures
        is_tour_of(tour, n),
        classify(tour, order_of(n), max_norm_of(n)) == SequenceID::HamCycle,
{
    lemma_woven_covers(n, tour);
    lemma_woven_len(n, tour);
    lemma_vertices(n);
    lemma_vertices_are_graph(n);
    let all = vertices(n);
    lemma_same_length_covers(tour, all);
    lemma_sum_same_points(tour, all);
    assert forall|i: int| 0 <= i < tour.len() implies l1norm3(#[trigger] tour[i]) <= max_norm_of(
        n,
    ) by {
        assert(tour.contains(tour[i]));
        let j = choose|j: int| 0 <= j < all.len() && all[j] == tour[i];
        assert(l1norm3(all[j]) <= 2 * n + 1);
    }
}

/// Along a chain the coordinates keep their parity.
proof fn lemma_chain_parity(s: Seq<(int, int, int)>, i: int)
    requires
        is_chain(s),
        0 <= i < s.len(),
        s[0].0 % 2 != 0,
        s[0].1 % 2 != 0,
        s[0].2 % 2 != 0,
    ensures
        s[i].0 % 2 != 0,
        s[i].1 % 2 != 0,
        s[i].2 % 2 != 0,
    decreases i,
{
    if i > 0 {
        lemma_chain_parity(s, i - 1);
        assert(joins(s, i - 1));
    }
}

/// What the certifier's verdict means: a sequence that it reports as a
/// Hamiltonian cycle for the order and the norm bound of the graph of
/// order-index `n`, and that starts at a point with odd coordinates, visits
/// every vertex of that graph once, and nothing else.
pub proof fn lemma_certified_is_tour(s: Seq<(int, int, int)>, n: int)
    requires
        1 <= n,
        classify(s, order_of(n), max_norm_of(n)) == SequenceID::HamCycle,
        s[0].0 % 2 != 0,
        s[0].1 % 2 != 0,
        s[0].2 % 2 != 0,
    ensures
        is_tour_of(s, n),
{
    lemma_vertices(n);
    lemma_vertices_are_graph(n);
    let all = vertices(n);
    assert forall|p: (int, int, int)| s.contains(p) implies all.contains(p) by {
        let i = choose|i: int| 0 <= i < s.len() && s[i] == p;
        lemma_chain_parity(s, i);
        assert(l1norm3(s[i]) <= max_norm_of(n));
        assert(is_vertex(n, p));
    }
    lemma_same_length_covers(all, s);
}

/// Every tour that `weave` returns is certified: for every order-index that
/// `weave` accepts, `certify` reports a tour returned by `weave` as a
/// Hamiltonian cycle of the graph's order and norm bound.
pub proof fn lemma_weave_is_certified(
    n: usize,
    tour: Vec<V3d>,
    order: usize,
    max_absumv: i16,
    verdict: SequenceID,
)
    requires
        1 <= n <= MAX_N,
        4 * (n + 2) * (n + 1) * n <= usize::MAX,
        call_ensures(weave, (n,), Ok::<Vec<V3d>, InvariantViolation>(tour)),
        order == order_of(n as int),
        max_absumv == max_norm_of(n as int),
        call_ensures(certify, (&tour, order, max_absumv), verdict),
    ensures
        tour@.len() == order,
        verdict == SequenceID::HamCycle,
{
    lemma_order_positive(n as int);
}

} // verus!
