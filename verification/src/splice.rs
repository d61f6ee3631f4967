//! The accounts of a level: every pin is spliced away with the piece that
//! starts at it, so that after a level the loom holds as many points as it
//! held before, plus the points of the level.
use vstd::prelude::*;
use crate::cut::{
    ascending_within, cut_at, cut_spec, head_piece, lemma_pin_positions, piece_start,
    pin_positions,
};
use crate::loom::{
    above, absorb, extend_from, extend_spec, leftover, lemma_extend_from_shape, mirror_spec,
    mirrored, pin_spec, pinned, pins_of, threads_nonempty,
};

verus! {

/// The number of points of all threads together.
pub open spec fn total_len(loom: Seq<Seq<(int, int, int)>>) -> int
    decreases loom.len(),
{
    if loom.len() == 0 {
        0
    } else {
        total_len(loom.drop_last()) + loom.last().len()
    }
}

/// The number of pieces that hold a point.
pub open spec fn filled(warps: Seq<Seq<(int, int, int)>>) -> int
    decreases warps.len(),
{
    if warps.len() == 0 {
        0
    } else {
        filled(warps.drop_last()) + if warps.last().len() > 0 {
            1int
        } else {
            0int
        }
    }
}

/// No point lies in two of the pieces.
pub open spec fn disjoint_pieces(warps: Seq<Seq<(int, int, int)>>) -> bool {
    forall|i: int, j: int, a: int, b: int|
        0 <= i < warps.len() && 0 <= j < warps.len() && i != j && 0 <= a < warps[i].len() && 0 <= b
            < warps[j].len() ==> #[trigger] warps[i][a] != #[trigger] warps[j][b]
}

/// The lengths of two looms put together add up.
pub proof fn lemma_total_len_concat(a: Seq<Seq<(int, int, int)>>, b: Seq<Seq<(int, int, int)>>)
    ensures
        total_len(a + b) == total_len(a) + total_len(b),
    decreases b.len(),
{
    if b.len() == 0 {
        assert(a + b =~= a);
    } else {
        assert((a + b).drop_last() =~= a + b.drop_last());
        lemma_total_len_concat(a, b.drop_last());
    }
}

/// Replacing a thread changes the total length by the difference of the lengths.
pub proof fn lemma_total_len_update(
    loom: Seq<Seq<(int, int, int)>>,
    i: int,
    thread: Seq<(int, int, int)>,
)
    requires
        0 <= i < loom.len(),
    ensures
        total_len(loom.update(i, thread)) == total_len(loom) - loom[i].len() + thread.len(),
    decreases loom.len(),
{
    let next = loom.update(i, thread);
    if i == loom.len() - 1 {
        assert(next.drop_last() =~= loom.drop_last());
    } else {
        assert(next.drop_last() =~= loom.drop_last().update(i, thread));
        lemma_total_len_update(loom.drop_last(), i, thread);
    }
}

/// Emptying a piece that holds a point leaves one filled piece less.
pub proof fn lemma_filled_update(warps: Seq<Seq<(int, int, int)>>, j: int)
    requires
        0 <= j < warps.len(),
    ensures
        filled(warps.update(j, Seq::empty())) == filled(warps) - if warps[j].len() > 0 {
            1int
        } else {
            0int
        },
    decreases warps.len(),
{
    let next = warps.update(j, Seq::empty());
    if j == warps.len() - 1 {
        assert(next.drop_last() =~= warps.drop_last());
    } else {
        assert(next.drop_last() =~= warps.drop_last().update(j, Seq::empty()));
        lemma_filled_update(warps.drop_last(), j);
    }
}

/// The pieces that are left over have the total length of all pieces, and
/// there are as many of them as there are filled pieces.
pub proof fn lemma_leftover_len(warps: Seq<Seq<(int, int, int)>>, k: int)
    requires
        0 <= k <= warps.len(),
    ensures
        total_len(leftover(warps, k)) == total_len(warps.take(k)),
        leftover(warps, k).len() == filled(warps.take(k)),
    decreases k,
{
    if k > 0 {
        lemma_leftover_len(warps, k - 1);
        assert(warps.take(k).drop_last() =~= warps.take(k - 1));
        if warps[k - 1].len() > 0 {
            assert(leftover(warps, k).drop_last() =~= leftover(warps, k - 1));
        }
    }
}

/// Whatever a thread takes, the total length of the thread and the pieces
/// goes down by one for every piece taken.
pub proof fn lemma_absorb_len(
    thread: Seq<(int, int, int)>,
    warps: Seq<Seq<(int, int, int)>>,
    j: int,
)
    requires
        0 <= j,
    ensures
        absorb(thread, warps, j).0.len() + total_len(absorb(thread, warps, j).1) - filled(
            absorb(thread, warps, j).1,
        ) == thread.len() + total_len(warps) - filled(warps),
    decreases warps.len() - j,
{
    if j < warps.len() {
        let w = warps[j];
        let emptied = warps.update(j, Seq::empty());
        lemma_total_len_update(warps, j, Seq::empty());
        lemma_filled_update(warps, j);
        if w.len() > 0 && thread.first() == w.first() {
            lemma_absorb_len(w.skip(1).reverse() + thread, emptied, j + 1);
        } else if w.len() > 0 && thread.last() == w.first() {
            lemma_absorb_len(thread + w.skip(1), emptied, j + 1);
        } else {
            lemma_absorb_len(thread, warps, j + 1);
        }
    }
}

/// Whatever the threads take, the total length of the threads and the pieces
/// goes down by one for every piece taken.
pub proof fn lemma_extend_from_len(
    loom: Seq<Seq<(int, int, int)>>,
    warps: Seq<Seq<(int, int, int)>>,
    i: int,
)
    requires
        0 <= i,
    ensures
        total_len(extend_from(loom, warps, i).0) + total_len(extend_from(loom, warps, i).1)
            - filled(extend_from(loom, warps, i).1) == total_len(loom) + total_len(warps) - filled(
            warps,
        ),
    decreases loom.len() - i,
{
    if i < loom.len() {
        lemma_absorb_len(loom[i], warps, 0);
        let (thread, rest) = absorb(loom[i], warps, 0);
        lemma_total_len_update(loom, i, thread);
        lemma_extend_from_len(loom.update(i, thread), rest, i + 1);
    }
}

/// The total length of the loom after a level: that of the loom and the
/// pieces, less one for every piece that a thread took.
pub proof fn lemma_extend_len(loom: Seq<Seq<(int, int, int)>>, warps: Seq<Seq<(int, int, int)>>)
    ensures
        total_len(extend_spec(loom, warps)) == total_len(loom) + total_len(warps) - filled(warps)
            + filled(extend_from(loom, warps, 0).1),
{
    lemma_extend_from_len(loom, warps, 0);
    let (threads, rest) = extend_from(loom, warps, 0);
    lemma_leftover_len(rest, rest.len() as int);
    assert(rest.take(rest.len() as int) =~= rest);
    lemma_total_len_concat(threads, leftover(rest, rest.len() as int));
}

/// The piece at index `c` holds a point and starts with `x`.
pub open spec fn starts(warps: Seq<Seq<(int, int, int)>>, c: int, x: (int, int, int)) -> bool {
    0 <= c < warps.len() && warps[c].len() > 0 && warps[c][0] == x
}

/// No piece from index `j` on holds the point `x`.
pub open spec fn clean(warps: Seq<Seq<(int, int, int)>>, j: int, x: (int, int, int)) -> bool {
    forall|i: int| j <= i < warps.len() ==> !(#[trigger] warps[i]).contains(x)
}

/// What an end `x` of a thread can expect of the pieces from index `j` on:
/// either the piece `c` among them starts with `x`, or none of them holds `x`.
pub open spec fn end_waits(
    warps: Seq<Seq<(int, int, int)>>,
    j: int,
    x: (int, int, int),
    c: Option<int>,
) -> bool {
    match c {
        Some(c) => j <= c && starts(warps, c, x),
        None => clean(warps, j, x),
    }
}

/// The pieces with the pieces at the indices `cf` and `cb` emptied.
pub open spec fn taken(warps: Seq<Seq<(int, int, int)>>, cf: Option<int>, cb: Option<int>) -> Seq<
    Seq<(int, int, int)>,
> {
    Seq::new(
        warps.len(),
        |i: int|
            if Some(i) == cf || Some(i) == cb {
                Seq::empty()
            } else {
                warps[i]
            },
    )
}

/// Emptying a piece keeps the pieces disjoint.
proof fn lemma_disjoint_update(warps: Seq<Seq<(int, int, int)>>, j: int)
    requires
        0 <= j < warps.len(),
        disjoint_pieces(warps),
    ensures
        disjoint_pieces(warps.update(j, Seq::empty())),
{
    let next = warps.update(j, Seq::empty());
    assert forall|i: int, k: int, a: int, b: int|
        0 <= i < next.len() && 0 <= k < next.len() && i != k && 0 <= a < next[i].len() && 0 <= b
            < next[k].len() implies #[trigger] next[i][a] != #[trigger] next[k][b] by {
        assert(next[i] == warps[i] && next[k] == warps[k]);
        assert(warps[i][a] != warps[k][b]);
    }
}

/// A point of one piece lies in no other piece.
proof fn lemma_disjoint_clean(
    warps: Seq<Seq<(int, int, int)>>,
    j: int,
    a: int,
    i: int,
)
    requires
        disjoint_pieces(warps),
        0 <= j < warps.len(),
        0 <= a < warps[j].len(),
        0 <= i < warps.len(),
        i != j,
    ensures
        !warps[i].contains(warps[j][a]),
{
    if warps[i].contains(warps[j][a]) {
        let b = choose|b: int| 0 <= b < warps[i].len() && warps[i][b] == warps[j][a];
        assert(warps[j][a] != warps[i][b]);
    }
}

/// A thread takes exactly the pieces that start with its ends. Where the
/// pieces are disjoint, and each end of the thread either starts one of the
/// pieces to come or lies in none of them, the pieces that are left are the
/// pieces without those two.
pub proof fn lemma_absorb_count(
    thread: Seq<(int, int, int)>,
    warps: Seq<Seq<(int, int, int)>>,
    j: int,
    cf: Option<int>,
    cb: Option<int>,
)
    requires
        0 <= j,
        thread.len() > 0,
        disjoint_pieces(warps),
        end_waits(warps, j, thread.first(), cf),
        end_waits(warps, j, thread.last(), cb),
        cf is Some && cb is Some ==> cf != cb,
    ensures
        absorb(thread, warps, j).1 == taken(warps, cf, cb),
    decreases warps.len() - j,
{
    if j >= warps.len() {
        assert(taken(warps, cf, cb) =~= warps);
    } else {
        let w = warps[j];
        let emptied = warps.update(j, Seq::empty());
        lemma_disjoint_update(warps, j);
        if w.len() > 0 && thread.first() == w.first() {
            assert(cf == Some(j)) by {
                assert(w.contains(w[0]));
                if cf is Some && cf != Some(j) {
                    assert(warps[cf.unwrap()][0] != warps[j][0]);
                }
            }
            let grown = w.skip(1).reverse() + thread;
            let a = if w.len() > 1 {
                w.len() - 1
            } else {
                0
            };
            assert(grown.first() == w[a]) by {
                if w.len() > 1 {
                    assert(w.skip(1).reverse()[0] == w.skip(1)[w.len() - 2]);
                }
            }
            assert(grown.last() == thread.last());
            assert(clean(emptied, j + 1, grown.first())) by {
                assert forall|i: int| j + 1 <= i < emptied.len() implies !(
                #[trigger] emptied[i]).contains(grown.first()) by {
                    lemma_disjoint_clean(warps, j, a, i);
                }
            }
            assert(end_waits(emptied, j + 1, grown.last(), cb)) by {
                if cb is Some {
                    assert(emptied[cb.unwrap()] == warps[cb.unwrap()]);
                } else {
                    assert forall|i: int| j + 1 <= i < emptied.len() implies !(
                    #[trigger] emptied[i]).contains(grown.last()) by {
                        assert(emptied[i] == warps[i]);
                    }
                }
            }
            lemma_absorb_count(grown, emptied, j + 1, None, cb);
            assert(taken(emptied, None, cb) =~= taken(warps, cf, cb));
        } else if w.len() > 0 && thread.last() == w.first() {
            assert(cb == Some(j)) by {
                assert(w.contains(w[0]));
                if cb is Some && cb != Some(j) {
                    assert(warps[cb.unwrap()][0] != warps[j][0]);
                }
            }
            let grown = thread + w.skip(1);
            let a = if w.len() > 1 {
                w.len() - 1
            } else {
                0
            };
            assert(grown.last() == w[a]) by {
                if w.len() > 1 {
                    assert(grown[grown.len() - 1] == w.skip(1)[w.len() - 2]);
                }
            }
            assert(grown.first() == thread.first());
            assert(clean(emptied, j + 1, grown.last())) by {
                assert forall|i: int| j + 1 <= i < emptied.len() implies !(
                #[trigger] emptied[i]).contains(grown.last()) by {
                    lemma_disjoint_clean(warps, j, a, i);
                }
            }
            assert(end_waits(emptied, j + 1, grown.first(), cf)) by {
                if cf is Some {
                    assert(emptied[cf.unwrap()] == warps[cf.unwrap()]);
                } else {
                    assert forall|i: int| j + 1 <= i < emptied.len() implies !(
                    #[trigger] emptied[i]).contains(grown.first()) by {
                        assert(emptied[i] == warps[i]);
                    }
                }
            }
            lemma_absorb_count(grown, emptied, j + 1, cf, None);
            assert(taken(emptied, cf, None) =~= taken(warps, cf, cb));
        } else {
            assert(cf != Some(j) && cb != Some(j));
            lemma_absorb_count(thread, warps, j + 1, cf, cb);
        }
    }
}

/// From thread `i` on, every thread holds a point, its two ends differ, and
/// each of them starts one of the pieces.
pub open spec fn ends_wait(
    loom: Seq<Seq<(int, int, int)>>,
    warps: Seq<Seq<(int, int, int)>>,
    i: int,
) -> bool {
    forall|k: int|
        i <= k < loom.len() ==> (#[trigger] loom[k]).len() > 0 && loom[k].first() != loom[k].last()
            && (exists|c: int| starts(warps, c, loom[k].first())) && (exists|c: int|
            starts(warps, c, loom[k].last()))
}

/// From thread `i` on, no two threads share an end.
pub open spec fn ends_differ(loom: Seq<Seq<(int, int, int)>>, i: int) -> bool {
    forall|k: int, l: int|
        i <= k < loom.len() && i <= l < loom.len() && k != l ==> (#[trigger] loom[k]).first() != (
        #[trigger] loom[l]).first() && loom[k].first() != loom[l].last() && loom[k].last()
            != loom[l].last()
}

/// Where the ends of the threads each start a piece of their own, every
/// thread takes two pieces.
pub proof fn lemma_extend_from_count(
    loom: Seq<Seq<(int, int, int)>>,
    warps: Seq<Seq<(int, int, int)>>,
    i: int,
)
    requires
        0 <= i <= loom.len(),
        disjoint_pieces(warps),
        ends_wait(loom, warps, i),
        ends_differ(loom, i),
    ensures
        filled(extend_from(loom, warps, i).1) == filled(warps) - 2 * (loom.len() - i),
    decreases loom.len() - i,
{
    if i < loom.len() {
        let thread = loom[i];
        assert(thread.len() > 0);
        let cf = choose|c: int| starts(warps, c, thread.first());
        let cb = choose|c: int| starts(warps, c, thread.last());
        lemma_absorb_count(thread, warps, 0, Some(cf), Some(cb));
        let (grown, rest) = absorb(thread, warps, 0);
        assert(rest =~= warps.update(cf, Seq::empty()).update(cb, Seq::empty()));
        lemma_filled_update(warps, cf);
        lemma_filled_update(warps.update(cf, Seq::empty()), cb);
        lemma_disjoint_update(warps, cf);
        lemma_disjoint_update(warps.update(cf, Seq::empty()), cb);
        let next = loom.update(i, grown);
        assert(ends_wait(next, rest, i + 1)) by {
            assert forall|k: int| i + 1 <= k < next.len() implies (#[trigger] next[k]).len() > 0
                && next[k].first() != next[k].last() && (exists|c: int|
                starts(rest, c, next[k].first())) && (exists|c: int|
                starts(rest, c, next[k].last())) by {
                assert(next[k] == loom[k]);
                assert(loom[k].len() > 0);
                assert(loom[i].first() != loom[k].first() && loom[i].first() != loom[k].last()
                    && loom[i].last() != loom[k].last() && loom[k].first() != loom[i].last());
                let c1 = choose|c: int| starts(warps, c, loom[k].first());
                let c2 = choose|c: int| starts(warps, c, loom[k].last());
                assert(starts(rest, c1, next[k].first()));
                assert(starts(rest, c2, next[k].last()));
            }
        }
        assert(ends_differ(next, i + 1)) by {
            assert forall|k: int, l: int|
                i + 1 <= k < next.len() && i + 1 <= l < next.len() && k != l implies (
            #[trigger] next[k]).first() != (#[trigger] next[l]).first() && next[k].first()
                != next[l].last() && next[k].last() != next[l].last() by {
                assert(next[k] == loom[k] && next[l] == loom[l]);
            }
        }
        lemma_extend_from_count(next, rest, i + 1);
    }
}

/// The index in the yarn of point `a` of piece `i` of the yarn cut at the
/// positions `m`.
pub open spec fn source(m: Seq<int>, len: int, i: int, a: int) -> int {
    let last = m.len() - 1;
    if i < last {
        m[i] - a
    } else if m[last] != len - 1 {
        if i == last {
            m[last] + a
        } else {
            m[last] - 1 - a
        }
    } else {
        m[last] - a
    }
}

/// The first index of the yarn that piece `i` holds.
pub open spec fn lowest(m: Seq<int>, len: int, i: int) -> int {
    let last = m.len() - 1;
    if i < last {
        piece_start(m, i)
    } else if m[last] != len - 1 && i == last {
        m[last]
    } else {
        piece_start(m, last)
    }
}

/// The last index of the yarn that piece `i` holds.
pub open spec fn highest(m: Seq<int>, len: int, i: int) -> int {
    let last = m.len() - 1;
    if i < last {
        m[i]
    } else if m[last] != len - 1 {
        if i == last {
            len - 1
        } else {
            m[last] - 1
        }
    } else {
        m[last]
    }
}

/// Every point of a piece is the point of the yarn at its source, which lies
/// in the stretch of the piece; the piece is as long as the stretch, and
/// starts with the point at its pin where it has one.
proof fn lemma_piece_points(yarn: Seq<(int, int, int)>, m: Seq<int>, i: int)
    requires
        m.len() > 0,
        ascending_within(m, yarn.len() as int),
        0 <= i < cut_at(yarn, m).len(),
    ensures
        0 <= lowest(m, yarn.len() as int, i) <= highest(m, yarn.len() as int, i) < yarn.len(),
        cut_at(yarn, m)[i].len() == highest(m, yarn.len() as int, i) - lowest(
            m,
            yarn.len() as int,
            i,
        ) + 1,
        forall|a: int|
            0 <= a < cut_at(yarn, m)[i].len() ==> lowest(m, yarn.len() as int, i) <= source(
                m,
                yarn.len() as int,
                i,
                a,
            ) <= highest(m, yarn.len() as int, i) && #[trigger] cut_at(yarn, m)[i][a]
                == yarn[source(m, yarn.len() as int, i, a)],
        i < m.len() ==> cut_at(yarn, m)[i][0] == yarn[m[i]],
        cut_at(yarn, m).len() <= m.len() + 1,
        cut_at(yarn, m).len() >= m.len(),
{
    let pieces = cut_at(yarn, m);
    let last = m.len() - 1;
    let len = yarn.len() as int;
    let j = if i < last {
        i
    } else {
        last
    };
    let start = piece_start(m, j);
    assert(0 <= start <= m[j]) by {
        if j > 0 {
            assert(m[j - 1] < m[j]);
        }
    }
    if i < last {
        assert(pieces[i] == head_piece(yarn, m, i));
        let range = yarn.subrange(start, m[i] + 1);
        assert forall|a: int| 0 <= a < pieces[i].len() implies #[trigger] pieces[i][a] == yarn[m[i]
            - a] by {
            assert(range.reverse()[a] == range[range.len() - 1 - a]);
        }
    } else if m[last] != len - 1 {
        if i == last {
            assert(pieces[i] == yarn.subrange(m[last], len));
        } else {
            let range = yarn.subrange(start, m[last]);
            assert(pieces[i] == range.reverse());
            assert forall|a: int| 0 <= a < pieces[i].len() implies #[trigger] pieces[i][a]
                == yarn[m[last] - 1 - a] by {
                assert(range.reverse()[a] == range[range.len() - 1 - a]);
            }
        }
    } else {
        let range = yarn.subrange(start, m[last] + 1);
        assert(pieces[i] == range.reverse());
        assert forall|a: int| 0 <= a < pieces[i].len() implies #[trigger] pieces[i][a] == yarn[m[last]
            - a] by {
            assert(range.reverse()[a] == range[range.len() - 1 - a]);
        }
    }
}

/// The stretches of two pieces do not overlap: that of the earlier piece ends
/// before that of the later one starts, but for the piece between the last
/// two pins, which comes last and lies before the piece of the last pin.
proof fn lemma_stretches_apart(m: Seq<int>, len: int, i: int, j: int)
    requires
        m.len() > 0,
        ascending_within(m, len),
        0 <= i < j <= m.len(),
        j == m.len() ==> m[m.len() - 1] != len - 1,
    ensures
        highest(m, len, i) < lowest(m, len, j) || highest(m, len, j) < lowest(m, len, i),
{
    let last = m.len() - 1;
    if i < last {
        let k = if j < last {
            j
        } else {
            last
        };
        assert(m[i] <= m[k - 1]) by {
            if i < k - 1 {
                assert(m[i] < m[k - 1]);
            }
        }
        if j == last && m[last] != len - 1 {
            assert(m[last - 1] < m[last]);
        }
    }
}

/// The pieces of a yarn without duplicates are disjoint.
pub proof fn lemma_cut_at_disjoint(yarn: Seq<(int, int, int)>, m: Seq<int>)
    requires
        m.len() > 0,
        ascending_within(m, yarn.len() as int),
        yarn.no_duplicates(),
    ensures
        disjoint_pieces(cut_at(yarn, m)),
{
    let pieces = cut_at(yarn, m);
    let len = yarn.len() as int;
    assert forall|i: int, j: int, a: int, b: int|
        0 <= i < pieces.len() && 0 <= j < pieces.len() && i != j && 0 <= a < pieces[i].len() && 0
            <= b < pieces[j].len() implies #[trigger] pieces[i][a] != #[trigger] pieces[j][b] by {
        lemma_piece_points(yarn, m, i);
        lemma_piece_points(yarn, m, j);
        if i < j {
            lemma_stretches_apart(m, len, i, j);
        } else {
            lemma_stretches_apart(m, len, j, i);
        }
        let x = source(m, len, i, a);
        let y = source(m, len, j, b);
        assert(pieces[i][a] == yarn[x]);
        assert(pieces[j][b] == yarn[y]);
        assert(x != y);
    }
}

/// The lengths of the pieces that end with the first `k` pins add up to the
/// index at which the next piece starts.
proof fn lemma_heads_len(yarn: Seq<(int, int, int)>, m: Seq<int>, k: int)
    requires
        m.len() > 0,
        ascending_within(m, yarn.len() as int),
        0 <= k < m.len(),
    ensures
        total_len(Seq::new(k as nat, |j: int| head_piece(yarn, m, j))) == piece_start(m, k),
        filled(Seq::new(k as nat, |j: int| head_piece(yarn, m, j))) == k,
    decreases k,
{
    let heads = Seq::new(k as nat, |j: int| head_piece(yarn, m, j));
    if k > 0 {
        lemma_heads_len(yarn, m, k - 1);
        assert(heads.drop_last() =~= Seq::new((k - 1) as nat, |j: int| head_piece(yarn, m, j)));
        assert(heads.last() == head_piece(yarn, m, k - 1));
        assert(0 <= piece_start(m, k - 1) <= m[k - 1]) by {
            if k - 1 > 0 {
                assert(m[k - 2] < m[k - 1]);
            }
        }
    }
}

/// One more thread adds its length to the total, and counts as filled if it
/// holds a point.
proof fn lemma_push_len(loom: Seq<Seq<(int, int, int)>>, thread: Seq<(int, int, int)>)
    ensures
        total_len(loom.push(thread)) == total_len(loom) + thread.len(),
        filled(loom.push(thread)) == filled(loom) + if thread.len() > 0 {
            1int
        } else {
            0int
        },
{
    assert(loom.push(thread).drop_last() =~= loom);
    assert(loom.push(thread).last() == thread);
}

/// The pieces of a yarn hold as many points as the yarn, and each of them
/// holds a point.
pub proof fn lemma_cut_at_len(yarn: Seq<(int, int, int)>, m: Seq<int>)
    requires
        m.len() > 0,
        ascending_within(m, yarn.len() as int),
    ensures
        total_len(cut_at(yarn, m)) == yarn.len(),
        filled(cut_at(yarn, m)) == cut_at(yarn, m).len(),
{
    let pieces = cut_at(yarn, m);
    let last = m.len() - 1;
    let len = yarn.len() as int;
    let heads = Seq::new(last as nat, |j: int| head_piece(yarn, m, j));
    lemma_heads_len(yarn, m, last);
    let start = piece_start(m, last);
    assert(0 <= start <= m[last]) by {
        if last > 0 {
            assert(m[last - 1] < m[last]);
        }
    }
    if m[last] != len - 1 {
        let tail = yarn.subrange(m[last], len);
        let gap = yarn.subrange(start, m[last]);
        let most = heads.push(tail);
        lemma_push_len(heads, tail);
        if gap.len() > 0 {
            lemma_push_len(most, gap.reverse());
            assert(pieces == most.push(gap.reverse()));
        } else {
            assert(pieces == most);
        }
    } else {
        let head = head_piece(yarn, m, last);
        lemma_push_len(heads, head);
        assert(pieces == heads.push(head));
    }
}

/// Where as many points of a yarn without duplicates are pins as there are
/// pins, the pins are all different and all of them are points of the yarn.
pub proof fn lemma_match_count(yarn: Seq<(int, int, int)>, pins: Seq<(int, int, int)>)
    requires
        yarn.no_duplicates(),
        pin_positions(yarn, pins, yarn.len() as int).len() == pins.len(),
    ensures
        pins.no_duplicates(),
        forall|q: int| 0 <= q < pins.len() ==> yarn.contains(#[trigger] pins[q]),
{
    broadcast use vstd::seq_lib::seq_to_set_is_finite;

    let m = pin_positions(yarn, pins, yarn.len() as int);
    lemma_pin_positions(yarn, pins, yarn.len() as int);
    let found = Seq::new(m.len(), |j: int| yarn[m[j]]);
    assert(found.no_duplicates()) by {
        assert forall|a: int, b: int|
            0 <= a < found.len() && 0 <= b < found.len() && a != b implies found[a] != found[b] by {
            if a < b {
                assert(m[a] < m[b]);
            } else {
                assert(m[b] < m[a]);
            }
        }
    }
    found.unique_seq_to_set();
    pins.lemma_cardinality_of_set();
    assert(found.to_set().subset_of(pins.to_set())) by {
        assert forall|x: (int, int, int)| found.to_set().contains(x) implies pins.to_set().contains(
            x,
        ) by {
            let j = choose|j: int| 0 <= j < found.len() && found[j] == x;
            assert(pins.contains(yarn[m[j]]));
        }
    }
    vstd::set_lib::lemma_len_subset(found.to_set(), pins.to_set());
    pins.lemma_no_dup_set_cardinality();
    vstd::set_lib::lemma_subset_equality(found.to_set(), pins.to_set());
    assert forall|q: int| 0 <= q < pins.len() implies yarn.contains(#[trigger] pins[q]) by {
        assert(pins.contains(pins[q]));
        assert(pins.to_set().contains(pins[q]));
        assert(found.to_set().contains(pins[q]));
        assert(found.contains(pins[q]));
        let j = choose|j: int| 0 <= j < found.len() && found[j] == pins[q];
        assert(yarn[m[j]] == pins[q]);
    }
}

/// The pins are the ends of the threads: thread `i` starts with pin `2i` and
/// ends with pin `2i + 1`.
pub open spec fn pins_match(loom: Seq<Seq<(int, int, int)>>, pins: Seq<(int, int, int)>) -> bool {
    &&& pins.len() == 2 * loom.len()
    &&& forall|i: int|
        0 <= i < loom.len() ==> (#[trigger] loom[i]).len() > 0 && loom[i].first() == pins[2 * i]
            && loom[i].last() == pins[2 * i + 1]
}

/// The pins of the first `k` threads, by index.
pub proof fn lemma_pins_of(loom: Seq<Seq<(int, int, int)>>, k: int)
    requires
        0 <= k <= loom.len(),
    ensures
        pins_of(loom, k).len() == 2 * k,
        forall|i: int|
            0 <= i < k ==> pins_of(loom, k)[2 * i] == above((#[trigger] loom[i]).first())
                && pins_of(loom, k)[2 * i + 1] == above(loom[i].last()),
    decreases k,
{
    if k > 0 {
        lemma_pins_of(loom, k - 1);
        let rest = pins_of(loom, k - 1);
        let all = pins_of(loom, k);
        assert forall|i: int| 0 <= i < k implies all[2 * i] == above((#[trigger] loom[i]).first())
            && all[2 * i + 1] == above(loom[i].last()) by {
            if i < k - 1 {
                assert(all[2 * i] == rest[2 * i]);
                assert(all[2 * i + 1] == rest[2 * i + 1]);
            }
        }
    }
}

/// Threads that are each longer by two are longer by two each in total.
proof fn lemma_total_len_plus_two(a: Seq<Seq<(int, int, int)>>, b: Seq<Seq<(int, int, int)>>)
    requires
        a.len() == b.len(),
        forall|i: int| 0 <= i < a.len() ==> (#[trigger] b[i]).len() == a[i].len() + 2,
    ensures
        total_len(b) == total_len(a) + 2 * a.len(),
    decreases a.len(),
{
    if a.len() > 0 {
        assert(b.last().len() == a.last().len() + 2) by {
            assert(b[b.len() - 1].len() == a[b.len() - 1].len() + 2);
        }
        assert forall|i: int| 0 <= i < a.drop_last().len() implies (#[trigger] b.drop_last()[i]).len()
            == a.drop_last()[i].len() + 2 by {
            assert(b[i].len() == a[i].len() + 2);
        }
        lemma_total_len_plus_two(a.drop_last(), b.drop_last());
    }
}

/// Threads that are each twice as long are twice as long in total.
proof fn lemma_total_len_doubled(a: Seq<Seq<(int, int, int)>>, b: Seq<Seq<(int, int, int)>>)
    requires
        a.len() == b.len(),
        forall|i: int| 0 <= i < a.len() ==> (#[trigger] b[i]).len() == 2 * a[i].len(),
    ensures
        total_len(b) == 2 * total_len(a),
    decreases a.len(),
{
    if a.len() > 0 {
        assert(b.last().len() == 2 * a.last().len()) by {
            assert(b[b.len() - 1].len() == 2 * a[b.len() - 1].len());
        }
        assert forall|i: int| 0 <= i < a.drop_last().len() implies (#[trigger] b.drop_last()[i]).len()
            == 2 * a.drop_last()[i].len() by {
            assert(b[i].len() == 2 * a[i].len());
        }
        lemma_total_len_doubled(a.drop_last(), b.drop_last());
    }
}

/// The pinned loom holds two points more for every thread, and its pins are
/// the ends of its threads.
pub proof fn lemma_pin_len(loom: Seq<Seq<(int, int, int)>>)
    requires
        threads_nonempty(loom),
    ensures
        total_len(pin_spec(loom, loom.len() as int)) == total_len(loom) + 2 * loom.len(),
        pins_match(pin_spec(loom, loom.len() as int), pins_of(loom, loom.len() as int)),
{
    let out = pin_spec(loom, loom.len() as int);
    let pins = pins_of(loom, loom.len() as int);
    lemma_pins_of(loom, loom.len() as int);
    assert forall|i: int| 0 <= i < loom.len() implies (#[trigger] out[i]).len() == loom[i].len() + 2
        && out[i].first() == pins[2 * i] && out[i].last() == pins[2 * i + 1] by {
        assert(loom[i].len() > 0);
        assert(out[i] == pinned(loom[i]));
    }
    lemma_total_len_plus_two(loom, out);
}

/// The mirrored loom holds twice as many points.
pub proof fn lemma_mirror_len(loom: Seq<Seq<(int, int, int)>>)
    ensures
        total_len(mirror_spec(loom)) == 2 * total_len(loom),
{
    let out = mirror_spec(loom);
    assert forall|i: int| 0 <= i < loom.len() implies (#[trigger] out[i]).len() == 2
        * loom[i].len() by {
        assert(out[i] == mirrored(loom[i]));
    }
    lemma_total_len_doubled(loom, out);
}

/// The total length of a loom: the length of its first thread and the total
/// length of the others.
pub proof fn lemma_total_len_first(loom: Seq<Seq<(int, int, int)>>)
    requires
        loom.len() > 0,
    ensures
        total_len(loom) == loom[0].len() + total_len(loom.skip(1)),
{
    let one = seq![loom[0]];
    assert(loom =~= one + loom.skip(1));
    lemma_total_len_concat(one, loom.skip(1));
    assert(one.drop_last().len() == 0);
    assert(total_len(one.drop_last()) == 0);
    assert(one.last() == loom[0]);
}

/// One more thread of a loom taken into account.
pub proof fn lemma_total_len_take(loom: Seq<Seq<(int, int, int)>>, j: int)
    requires
        0 <= j < loom.len(),
    ensures
        total_len(loom.take(j + 1)) == total_len(loom.take(j)) + loom[j].len(),
{
    assert(loom.take(j + 1).drop_last() =~= loom.take(j));
}

/// A level whose pins are the ends of the threads adds its points to the loom
/// and takes the pins out: every pin is spliced away with the piece that
/// starts at it. The level starts at most one new thread, from the piece
/// between its last two pins.
pub proof fn lemma_spliced(
    loom: Seq<Seq<(int, int, int)>>,
    pins: Seq<(int, int, int)>,
    yarn: Seq<(int, int, int)>,
)
    requires
        loom.len() >= 1,
        pins_match(loom, pins),
        yarn.no_duplicates(),
        cut_spec(yarn, pins) is Some,
    ensures
        total_len(extend_spec(loom, cut_spec(yarn, pins).unwrap())) == total_len(loom) + yarn.len()
            - pins.len(),
        loom.len() <= extend_spec(loom, cut_spec(yarn, pins).unwrap()).len() <= loom.len() + 1,
{
    let len = yarn.len() as int;
    let m = pin_positions(yarn, pins, len);
    let pieces = cut_at(yarn, m);
    assert(ascending_within(m, len)) by {
        lemma_pin_positions(yarn, pins, len);
    }
    lemma_match_count(yarn, pins);
    lemma_cut_at_disjoint(yarn, m);
    lemma_cut_at_len(yarn, m);
    assert forall|q: int| 0 <= q < pins.len() implies exists|c: int|
        starts(pieces, c, #[trigger] pins[q]) by {
        let x = choose|x: int| 0 <= x < yarn.len() && yarn[x] == pins[q];
        assert(pins.contains(yarn[x]));
        assert(m.contains(x)) by {
            lemma_pin_positions(yarn, pins, len);
        }
        let j = choose|j: int| 0 <= j < m.len() && m[j] == x;
        lemma_piece_points(yarn, m, j);
        assert(starts(pieces, j, pins[q]));
    }
    assert(ends_wait(loom, pieces, 0)) by {
        assert forall|k: int| 0 <= k < loom.len() implies (#[trigger] loom[k]).len() > 0
            && loom[k].first() != loom[k].last() && (exists|c: int|
            starts(pieces, c, loom[k].first())) && (exists|c: int|
            starts(pieces, c, loom[k].last())) by {
            assert(loom[k].first() == pins[2 * k] && loom[k].last() == pins[2 * k + 1]);
            assert(pins[2 * k] != pins[2 * k + 1]);
        }
    }
    assert(ends_differ(loom, 0)) by {
        assert forall|k: int, l: int|
            0 <= k < loom.len() && 0 <= l < loom.len() && k != l implies (
        #[trigger] loom[k]).first() != (#[trigger] loom[l]).first() && loom[k].first()
            != loom[l].last() && loom[k].last() != loom[l].last() by {
            assert(loom[k].first() == pins[2 * k] && loom[k].last() == pins[2 * k + 1]);
            assert(loom[l].first() == pins[2 * l] && loom[l].last() == pins[2 * l + 1]);
            assert(pins[2 * k] != pins[2 * l]);
            assert(pins[2 * k] != pins[2 * l + 1]);
            assert(pins[2 * k + 1] != pins[2 * l + 1]);
        }
    }
    lemma_extend_from_count(loom, pieces, 0);
    lemma_extend_len(loom, pieces);
    let (threads, rest) = extend_from(loom, pieces, 0);
    lemma_extend_from_shape(loom, pieces, 0);
    lemma_leftover_len(rest, rest.len() as int);
    assert(rest.take(rest.len() as int) =~= rest);
    lemma_piece_points(yarn, m, 0);
}

} // verus!
