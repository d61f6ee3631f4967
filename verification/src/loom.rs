//! The loom: the open threads that grow level by level, the pins that mark
//! their ends for the next level, and the mirror that closes them.
use vstd::prelude::*;
use std::collections::VecDeque;
use rayon::iter::{IntoParallelRefMutIterator, ParallelIterator};
use crate::point::{V3d, each, each_thread, pt3, pts3, same_point};
use crate::cut::{Cushion, Warp, Warps, warps_view};

verus! {

/// An open chain that can grow at both ends.
pub type LoomThread = VecDeque<V3d>;

/// The threads under construction, in the order in which they were started.
pub type Loom = Vec<LoomThread>;

/// The model of a loom.
pub open spec fn loom_view(loom: Seq<LoomThread>) -> Seq<Seq<(int, int, int)>> {
    loom.map_values(|t: LoomThread| pts3(t@))
}

/// What becomes of a thread and of the pieces from index `j` on, when the
/// pieces are offered to the thread one after the other. A piece that starts
/// with the thread's first point goes in front of the thread, turned round and
/// without the shared point; one that starts with the thread's last point
/// goes behind it, without the shared point. A piece that was taken is left
/// empty.
pub open spec fn absorb(
    thread: Seq<(int, int, int)>,
    warps: Seq<Seq<(int, int, int)>>,
    j: int,
) -> (Seq<(int, int, int)>, Seq<Seq<(int, int, int)>>)
    decreases warps.len() - j,
{
    if j < 0 || j >= warps.len() {
        (thread, warps)
    } else if warps[j].len() > 0 && thread.first() == warps[j].first() {
        absorb(warps[j].skip(1).reverse() + thread, warps.update(j, Seq::empty()), j + 1)
    } else if warps[j].len() > 0 && thread.last() == warps[j].first() {
        absorb(thread + warps[j].skip(1), warps.update(j, Seq::empty()), j + 1)
    } else {
        absorb(thread, warps, j + 1)
    }
}

/// What becomes of the loom and of the pieces when the threads from index `i`
/// on take their pieces, one thread after the other.
pub open spec fn extend_from(
    loom: Seq<Seq<(int, int, int)>>,
    warps: Seq<Seq<(int, int, int)>>,
    i: int,
) -> (Seq<Seq<(int, int, int)>>, Seq<Seq<(int, int, int)>>)
    decreases loom.len() - i,
{
    if i < 0 || i >= loom.len() {
        (loom, warps)
    } else {
        let (thread, rest) = absorb(loom[i], warps, 0);
        extend_from(loom.update(i, thread), rest, i + 1)
    }
}

/// The pieces among the first `k` that are not empty, in order.
pub open spec fn leftover(warps: Seq<Seq<(int, int, int)>>, k: int) -> Seq<Seq<(int, int, int)>>
    decreases k,
{
    if k <= 0 {
        Seq::empty()
    } else if warps[k - 1].len() > 0 {
        leftover(warps, k - 1).push(warps[k - 1])
    } else {
        leftover(warps, k - 1)
    }
}

/// The loom after a level: every thread has taken the pieces that start at its
/// ends, and the pieces that no thread took are new threads.
pub open spec fn extend_spec(
    loom: Seq<Seq<(int, int, int)>>,
    warps: Seq<Seq<(int, int, int)>>,
) -> Seq<Seq<(int, int, int)>> {
    let (threads, rest) = extend_from(loom, warps, 0);
    threads + leftover(rest, rest.len() as int)
}

/// The point one level above `p`.
pub open spec fn above(p: (int, int, int)) -> (int, int, int) {
    (p.0, p.1, p.2 + 2)
}

/// A thread with a pin at either end: the point above its first point in
/// front, the point above its last point behind.
pub open spec fn pinned(thread: Seq<(int, int, int)>) -> Seq<(int, int, int)> {
    seq![above(thread.first())] + thread + seq![above(thread.last())]
}

/// The pins of the first `k` threads: for each thread the one in front, then
/// the one behind.
pub open spec fn pins_of(loom: Seq<Seq<(int, int, int)>>, k: int) -> Seq<(int, int, int)>
    decreases k,
{
    if k <= 0 {
        Seq::empty()
    } else {
        pins_of(loom, k - 1).push(above(loom[k - 1].first())).push(above(loom[k - 1].last()))
    }
}

/// The mirror image of a point across the mid-plane.
pub open spec fn reflect(p: (int, int, int)) -> (int, int, int) {
    (p.0, p.1, -p.2)
}

/// A thread followed by its mirror image, last point first.
pub open spec fn mirrored(thread: Seq<(int, int, int)>) -> Seq<(int, int, int)> {
    thread + thread.reverse().map_values(|p: (int, int, int)| reflect(p))
}

/// Every thread of the loom holds a point.
pub open spec fn threads_nonempty(loom: Seq<Seq<(int, int, int)>>) -> bool {
    forall|i: int| 0 <= i < loom.len() ==> (#[trigger] loom[i]).len() > 0
}

/// Offering pieces to a thread leaves it with a point, and changes neither the
/// number of pieces nor the pieces before index `j`.
pub proof fn lemma_absorb_shape(
    thread: Seq<(int, int, int)>,
    warps: Seq<Seq<(int, int, int)>>,
    j: int,
)
    requires
        thread.len() > 0,
        0 <= j,
    ensures
        absorb(thread, warps, j).0.len() > 0,
        absorb(thread, warps, j).1.len() == warps.len(),
    decreases warps.len() - j,
{
    if j < warps.len() {
        if warps[j].len() > 0 && thread.first() == warps[j].first() {
            lemma_absorb_shape(
                warps[j].skip(1).reverse() + thread,
                warps.update(j, Seq::empty()),
                j + 1,
            );
        } else if warps[j].len() > 0 && thread.last() == warps[j].first() {
            lemma_absorb_shape(thread + warps[j].skip(1), warps.update(j, Seq::empty()), j + 1);
        } else {
            lemma_absorb_shape(thread, warps, j + 1);
        }
    }
}

/// Extending the threads keeps their number, leaves each with a point, and
/// keeps the number of pieces.
pub proof fn lemma_extend_from_shape(
    loom: Seq<Seq<(int, int, int)>>,
    warps: Seq<Seq<(int, int, int)>>,
    i: int,
)
    requires
        threads_nonempty(loom),
        0 <= i,
    ensures
        extend_from(loom, warps, i).0.len() == loom.len(),
        extend_from(loom, warps, i).1.len() == warps.len(),
        threads_nonempty(extend_from(loom, warps, i).0),
    decreases loom.len() - i,
{
    if i < loom.len() {
        lemma_absorb_shape(loom[i], warps, 0);
        let (thread, rest) = absorb(loom[i], warps, 0);
        lemma_extend_from_shape(loom.update(i, thread), rest, i + 1);
    }
}

/// The pieces that are left over each hold a point, and there are at most `k` of them.
pub proof fn lemma_leftover_shape(warps: Seq<Seq<(int, int, int)>>, k: int)
    requires
        0 <= k <= warps.len(),
    ensures
        leftover(warps, k).len() <= k,
        threads_nonempty(leftover(warps, k)),
    decreases k,
{
    if k > 0 {
        lemma_leftover_shape(warps, k - 1);
    }
}

/// Puts the points of `warp` but the first in front of the thread, one after
/// the other, so that they end up last first.
pub fn extend_front(thread: &mut LoomThread, warp: &Warp)
    requires
        warp.len() > 0,
    ensures
        pts3(final(thread)@) == pts3(warp@).skip(1).reverse() + pts3(old(thread)@),
        final(thread)@.len() == old(thread)@.len() + warp.len() - 1,
{
    let mut k: usize = 1;
    while k < warp.len()
        invariant
            1 <= k <= warp.len(),
            thread@.len() == old(thread)@.len() + k - 1,
            pts3(thread@) == pts3(warp@).subrange(1, k as int).reverse() + pts3(old(thread)@),
        decreases warp.len() - k,
    {
        let ghost before = pts3(thread@);
        thread.push_front(warp[k]);
        proof {
            assert(pts3(thread@) =~= seq![pt3(warp@[k as int])] + before);
            assert(pts3(thread@) =~= pts3(warp@).subrange(1, k as int + 1).reverse() + pts3(
                old(thread)@,
            ));
        }
        k += 1;
    }
    proof {
        assert(pts3(warp@).subrange(1, warp.len() as int) =~= pts3(warp@).skip(1));
    }
}

/// Puts the points of `warp` but the first behind the thread.
pub fn extend_back(thread: &mut LoomThread, warp: &Warp)
    requires
        warp.len() > 0,
    ensures
        pts3(final(thread)@) == pts3(old(thread)@) + pts3(warp@).skip(1),
        final(thread)@.len() == old(thread)@.len() + warp.len() - 1,
{
    let mut k: usize = 1;
    while k < warp.len()
        invariant
            1 <= k <= warp.len(),
            thread@.len() == old(thread)@.len() + k - 1,
            pts3(thread@) == pts3(old(thread)@) + pts3(warp@).subrange(1, k as int),
        decreases warp.len() - k,
    {
        let ghost before = pts3(thread@);
        thread.push_back(warp[k]);
        proof {
            assert(pts3(thread@) =~= before.push(pt3(warp@[k as int])));
            assert(pts3(thread@) =~= pts3(old(thread)@) + pts3(warp@).subrange(1, k as int + 1));
        }
        k += 1;
    }
    proof {
        assert(pts3(warp@).subrange(1, warp.len() as int) =~= pts3(warp@).skip(1));
    }
}

/// Offers every piece to the thread, in order. A piece that starts at one of
/// the thread's ends is taken and left empty.
pub fn extend_thread(thread: &mut LoomThread, warps: &mut Warps)
    requires
        old(thread)@.len() > 0,
    ensures
        (pts3(final(thread)@), warps_view(final(warps)@)) == absorb(
            pts3(old(thread)@),
            warps_view(old(warps)@),
            0,
        ),
        final(thread)@.len() > 0,
        final(warps)@.len() == old(warps)@.len(),
{
    let mut j: usize = 0;
    while j < warps.len()
        invariant
            j <= warps.len(),
            warps@.len() == old(warps)@.len(),
            thread@.len() > 0,
            absorb(pts3(thread@), warps_view(warps@), j as int) == absorb(
                pts3(old(thread)@),
                warps_view(old(warps)@),
                0,
            ),
        decreases warps.len() - j,
    {
        let ghost t0 = pts3(thread@);
        let ghost w0 = warps_view(warps@);
        if warps[j].len() > 0 {
            let last: usize = thread.len() - 1;
            proof {
                assert(t0.first() == pt3(thread@[0]));
                assert(t0.last() == pt3(thread@[last as int]));
                assert(w0[j as int].first() == pt3(warps@[j as int]@[0]));
            }
            if same_point(&thread[0], &warps[j][0]) {
                extend_front(thread, &warps[j]);
                warps[j].clear();
                proof {
                    assert(warps_view(warps@) =~~= w0.update(j as int, Seq::empty()));
                }
            } else if same_point(&thread[last], &warps[j][0]) {
                extend_back(thread, &warps[j]);
                warps[j].clear();
                proof {
                    assert(warps_view(warps@) =~~= w0.update(j as int, Seq::empty()));
                }
            }
        }
        j += 1;
    }
}

/// A thread with the points of `warp`.
pub fn to_thread(warp: &Warp) -> (thread: LoomThread)
    ensures
        thread@ == warp@,
{
    let mut thread: LoomThread = VecDeque::with_capacity(warp.len());
    let mut k: usize = 0;
    while k < warp.len()
        invariant
            k <= warp.len(),
            thread@ == warp@.take(k as int),
        decreases warp.len() - k,
    {
        thread.push_back(warp[k]);
        proof {
            assert(thread@ =~= warp@.take(k as int + 1));
        }
        k += 1;
    }
    proof {
        assert(warp@.take(warp.len() as int) =~= warp@);
    }
    thread
}

/// Extends the threads of the loom with the pieces of a level. Every thread, in
/// order, takes the pieces that start at one of its ends; the pieces that no
/// thread took start new threads.
pub fn extend_threads(loom: &mut Loom, warps: Warps)
    requires
        threads_nonempty(loom_view(old(loom)@)),
    ensures
        loom_view(final(loom)@) == extend_spec(loom_view(old(loom)@), warps_view(warps@)),
        threads_nonempty(loom_view(final(loom)@)),
{
    let mut warps = warps;
    let ghost l0 = loom_view(loom@);
    let ghost w0 = warps_view(warps@);
    let n: usize = loom.len();
    let mut i: usize = 0;
    while i < n
        invariant
            i <= n,
            n == loom.len(),
            threads_nonempty(loom_view(loom@)),
            extend_from(loom_view(loom@), warps_view(warps@), i as int) == extend_from(l0, w0, 0),
        decreases n - i,
    {
        let ghost l1 = loom_view(loom@);
        assert(l1[i as int].len() > 0);
        extend_thread(&mut loom[i], &mut warps);
        proof {
            assert(loom_view(loom@) =~= l1.update(i as int, pts3(loom@[i as int]@)));
        }
        i += 1;
    }
    let ghost threads = loom_view(loom@);
    let ghost rest = warps_view(warps@);
    proof {
        lemma_extend_from_shape(l0, w0, 0);
    }
    let mut k: usize = 0;
    while k < warps.len()
        invariant
            k <= warps.len(),
            rest == warps_view(warps@),
            loom_view(loom@) == threads + leftover(rest, k as int),
            threads_nonempty(threads),
        decreases warps.len() - k,
    {
        if warps[k].len() > 0 {
            let ghost before = loom_view(loom@);
            let thread: LoomThread = to_thread(&warps[k]);
            loom.push(thread);
            proof {
                assert(loom_view(loom@) =~= before.push(rest[k as int]));
                assert(loom_view(loom@) =~= threads + leftover(rest, k as int + 1));
            }
        }
        k += 1;
    }
    proof {
        lemma_leftover_shape(rest, rest.len() as int);
    }
}

/// The ends of every thread lie low enough to have a point above them.
pub open spec fn ends_below_top(loom: Seq<Seq<(int, int, int)>>) -> bool {
    forall|i: int|
        0 <= i < loom.len() ==> (#[trigger] loom[i]).first().2 + 2 <= i16::MAX && loom[i].last().2
            + 2 <= i16::MAX
}

/// The loom in which the first `k` threads carry their pins.
pub open spec fn pin_spec(loom: Seq<Seq<(int, int, int)>>, k: int) -> Seq<Seq<(int, int, int)>> {
    Seq::new(
        loom.len(),
        |i: int|
            if i < k {
                pinned(loom[i])
            } else {
                loom[i]
            },
    )
}

/// Marks the ends of the threads for the next level. Unless this is the last
/// level, every thread gets a pin at either end, the point one level above the
/// end, and the pins are returned: for each thread the one in front, then the
/// one behind. At the last level nothing is changed and no pin is returned.
pub fn pin_ends(loom: &mut Loom, last: bool) -> (cushion: Cushion)
    requires
        threads_nonempty(loom_view(old(loom)@)),
        !last ==> ends_below_top(loom_view(old(loom)@)),
    ensures
        last ==> final(loom)@ == old(loom)@ && cushion@.len() == 0,
        !last ==> loom_view(final(loom)@) == pin_spec(
            loom_view(old(loom)@),
            old(loom)@.len() as int,
        ) && pts3(cushion@) == pins_of(loom_view(old(loom)@), old(loom)@.len() as int),
        threads_nonempty(loom_view(final(loom)@)),
{
    let mut cushion: Cushion = Vec::new();
    if last {
        return cushion;
    }
    let ghost l0 = loom_view(loom@);
    let n: usize = loom.len();
    let mut i: usize = 0;
    while i < n
        invariant
            i <= n,
            n == loom.len(),
            l0.len() == n,
            threads_nonempty(l0),
            ends_below_top(l0),
            loom_view(loom@) == pin_spec(l0, i as int),
            pts3(cushion@) == pins_of(l0, i as int),
        decreases n - i,
    {
        let ghost l1 = loom_view(loom@);
        let ghost c1 = pts3(cushion@);
        assert(l1[i as int] == l0[i as int]);
        assert(l0[i as int].len() > 0);
        let len: usize = loom[i].len();
        let first: V3d = loom[i][0];
        let end: V3d = loom[i][len - 1];
        proof {
            assert(l0[i as int].first() == pt3(first));
            assert(l0[i as int].last() == pt3(end));
        }
        let front: V3d = [first[0], first[1], first[2] + 2];
        let back: V3d = [end[0], end[1], end[2] + 2];
        loom[i].push_front(front);
        loom[i].push_back(back);
        cushion.push(front);
        cushion.push(back);
        proof {
            assert(pts3(loom@[i as int]@) =~= pinned(l0[i as int]));
            assert forall|j: int| 0 <= j < n implies #[trigger] loom_view(loom@)[j] == pin_spec(
                l0,
                i as int + 1,
            )[j] by {
                if j != i {
                    assert(loom_view(loom@)[j] == l1[j]);
                }
            }
            assert(loom_view(loom@) =~= pin_spec(l0, i as int + 1));
            assert(pts3(cushion@) =~= c1.push(pt3(front)).push(pt3(back)));
        }
        i += 1;
    }
    cushion
}

/// The point of elevation `z` above or below `p`.
pub open spec fn at_elevation(p: (int, int, int), z: int) -> (int, int, int) {
    (p.0, p.1, z)
}

/// A thread with a pin of elevation `z` at either end.
pub open spec fn pinned_at(thread: Seq<(int, int, int)>, z: int) -> Seq<(int, int, int)> {
    seq![at_elevation(thread.first(), z)] + thread + seq![at_elevation(thread.last(), z)]
}

/// The pins of elevation `z` of the first `k` threads: for each thread the one
/// in front, then the one behind.
pub open spec fn pins_at(loom: Seq<Seq<(int, int, int)>>, z: int, k: int) -> Seq<(int, int, int)>
    decreases k,
{
    if k <= 0 {
        Seq::empty()
    } else {
        pins_at(loom, z, k - 1).push(at_elevation(loom[k - 1].first(), z)).push(
            at_elevation(loom[k - 1].last(), z),
        )
    }
}

/// Marks the ends of the threads for the level of elevation `zrow`: every
/// thread gets a pin at either end, the point of that elevation above the end,
/// and the pins are returned, for each thread the one in front, then the one
/// behind.
pub fn pin_thread_ends(loom: &mut Loom, zrow: i16) -> (cushion: Cushion)
    requires
        threads_nonempty(loom_view(old(loom)@)),
    ensures
        final(loom)@.len() == old(loom)@.len(),
        forall|i: int|
            0 <= i < old(loom)@.len() ==> #[trigger] loom_view(final(loom)@)[i] == pinned_at(
                loom_view(old(loom)@)[i],
                zrow as int,
            ),
        pts3(cushion@) == pins_at(loom_view(old(loom)@), zrow as int, old(loom)@.len() as int),
{
    let mut cushion: Cushion = Vec::new();
    let ghost before = loom_view(loom@);
    let n: usize = loom.len();
    let mut i: usize = 0;
    while i < n
        invariant
            i <= n,
            n == loom.len(),
            before.len() == n,
            threads_nonempty(before),
            forall|j: int|
                0 <= j < i ==> #[trigger] loom_view(loom@)[j] == pinned_at(before[j], zrow as int),
            forall|j: int| i <= j < n ==> #[trigger] loom_view(loom@)[j] == before[j],
            pts3(cushion@) == pins_at(before, zrow as int, i as int),
        decreases n - i,
    {
        let ghost current = loom_view(loom@);
        let ghost pins = pts3(cushion@);
        assert(current[i as int] == before[i as int]);
        assert(before[i as int].len() > 0);
        let len: usize = loom[i].len();
        let first: V3d = loom[i][0];
        let end: V3d = loom[i][len - 1];
        proof {
            assert(before[i as int].first() == pt3(first));
            assert(before[i as int].last() == pt3(end));
        }
        let front: V3d = [first[0], first[1], zrow];
        let back: V3d = [end[0], end[1], zrow];
        loom[i].push_front(front);
        loom[i].push_back(back);
        cushion.push(front);
        cushion.push(back);
        proof {
            assert(pts3(loom@[i as int]@) =~= pinned_at(before[i as int], zrow as int));
            assert forall|j: int| 0 <= j < n && j != i implies #[trigger] loom_view(loom@)[j]
                == current[j] by {}
            assert(pts3(cushion@) =~= pins.push(pt3(front)).push(pt3(back)));
        }
        i += 1;
    }
    cushion
}

/// Every point of the thread has a mirror image among the lattice points.
pub open spec fn reflectable(thread: Seq<(int, int, int)>) -> bool {
    forall|k: int| 0 <= k < thread.len() ==> (#[trigger] thread[k]).2 > i16::MIN
}

/// Appends to the thread its mirror image across the mid-plane, last point
/// first, which closes an open half chain into a cycle.
pub fn mirror_thread(thread: &mut LoomThread)
    requires
        reflectable(pts3(old(thread)@)),
    ensures
        pts3(final(thread)@) == mirrored(pts3(old(thread)@)),
{
    let len: usize = thread.len();
    let mut k: usize = len;
    while k > 0
        invariant
            k <= len,
            len == old(thread)@.len(),
            reflectable(pts3(old(thread)@)),
            thread@.len() == len + (len - k),
            forall|i: int| 0 <= i < len ==> thread@[i] == old(thread)@[i],
            forall|i: int|
                0 <= i < len - k ==> pt3(#[trigger] thread@[len + i]) == reflect(
                    pts3(old(thread)@)[len - 1 - i],
                ),
        decreases k,
    {
        k -= 1;
        let p: V3d = thread[k];
        assert(pts3(old(thread)@)[k as int] == pt3(p));
        thread.push_back([p[0], p[1], -p[2]]);
    }
    proof {
        let half = pts3(old(thread)@);
        let whole = mirrored(half);
        assert forall|i: int| 0 <= i < 2 * len implies pts3(thread@)[i] == whole[i] by {
            let image = half.reverse().map_values(|p: (int, int, int)| reflect(p));
            assert(whole == half + image);
            assert(image.len() == len);
            if i >= len {
                let k = i - len;
                assert(half.reverse()[k] == half[len - 1 - k]);
                assert(image[k] == reflect(half.reverse()[k]));
                assert(pt3(thread@[len + k]) == reflect(half[len - 1 - k]));
                assert(whole[i] == image[k]);
            } else {
                assert(pts3(thread@)[i] == pt3(thread@[i]));
                assert(whole[i] == half[i]);
            }
        }
        assert(pts3(thread@) =~= whole);
    }
}

/// Runs `mirror_thread` on every thread of the loom through rayon's
/// `par_iter_mut().for_each(..)`, which calls the closure once on every item.
#[verifier::external_body]
fn mirror_each(loom: &mut Loom)
    requires
        forall|i: int| 0 <= i < old(loom)@.len() ==> reflectable(#[trigger] loom_view(old(loom)@)[i]),
    ensures
        final(loom)@.len() == old(loom)@.len(),
        forall|i: int|
            0 <= i < old(loom)@.len() ==> #[trigger] loom_view(final(loom)@)[i] == mirrored(
                loom_view(old(loom)@)[i],
            ),
{
    loom.par_iter_mut().for_each(|thread| mirror_thread(thread));
}

/// The loom with every thread mirrored.
pub open spec fn mirror_spec(loom: Seq<Seq<(int, int, int)>>) -> Seq<Seq<(int, int, int)>> {
    loom.map_values(|t: Seq<(int, int, int)>| mirrored(t))
}

/// Mirrors every thread of the loom across the mid-plane: each open half chain
/// becomes a closed cycle.
pub fn mirror_threads(loom: &mut Loom)
    requires
        forall|i: int| 0 <= i < old(loom)@.len() ==> reflectable(#[trigger] loom_view(old(loom)@)[i]),
    ensures
        loom_view(final(loom)@) == mirror_spec(loom_view(old(loom)@)),
{
    mirror_each(loom);
    proof {
        assert(loom_view(loom@) =~= mirror_spec(loom_view(old(loom)@)));
    }
}

/// What holds of every point of a thread and of the pieces holds of every
/// point of what becomes of them when the thread takes its pieces.
pub proof fn lemma_absorb_each(
    thread: Seq<(int, int, int)>,
    warps: Seq<Seq<(int, int, int)>>,
    j: int,
    f: spec_fn((int, int, int)) -> bool,
)
    requires
        0 <= j,
        each(thread, f),
        each_thread(warps, f),
    ensures
        each(absorb(thread, warps, j).0, f),
        each_thread(absorb(thread, warps, j).1, f),
    decreases warps.len() - j,
{
    if j < warps.len() {
        let emptied = warps.update(j, Seq::empty());
        assert(each_thread(emptied, f)) by {
            assert forall|i: int| 0 <= i < emptied.len() implies each(#[trigger] emptied[i], f) by {
                if i != j {
                    assert(emptied[i] == warps[i]);
                }
            }
        }
        assert(each(warps[j], f));
        if warps[j].len() > 0 && thread.first() == warps[j].first() {
            lemma_absorb_each(warps[j].skip(1).reverse() + thread, emptied, j + 1, f);
        } else if warps[j].len() > 0 && thread.last() == warps[j].first() {
            lemma_absorb_each(thread + warps[j].skip(1), emptied, j + 1, f);
        } else {
            lemma_absorb_each(thread, warps, j + 1, f);
        }
    }
}

/// What holds of every point of the loom and of the pieces holds of every
/// point of the extended threads and of the pieces that are left.
pub proof fn lemma_extend_from_each(
    loom: Seq<Seq<(int, int, int)>>,
    warps: Seq<Seq<(int, int, int)>>,
    i: int,
    f: spec_fn((int, int, int)) -> bool,
)
    requires
        0 <= i,
        each_thread(loom, f),
        each_thread(warps, f),
    ensures
        each_thread(extend_from(loom, warps, i).0, f),
        each_thread(extend_from(loom, warps, i).1, f),
    decreases loom.len() - i,
{
    if i < loom.len() {
        assert(each(loom[i], f));
        lemma_absorb_each(loom[i], warps, 0, f);
        let (thread, rest) = absorb(loom[i], warps, 0);
        let next = loom.update(i, thread);
        assert(each_thread(next, f)) by {
            assert forall|k: int| 0 <= k < next.len() implies each(#[trigger] next[k], f) by {
                if k != i {
                    assert(next[k] == loom[k]);
                }
            }
        }
        lemma_extend_from_each(next, rest, i + 1, f);
    }
}

/// What holds of every point of the pieces holds of every point of those that
/// are left over.
pub proof fn lemma_leftover_each(
    warps: Seq<Seq<(int, int, int)>>,
    k: int,
    f: spec_fn((int, int, int)) -> bool,
)
    requires
        0 <= k <= warps.len(),
        each_thread(warps, f),
    ensures
        each_thread(leftover(warps, k), f),
    decreases k,
{
    if k > 0 {
        lemma_leftover_each(warps, k - 1, f);
        assert(each(warps[k - 1], f));
    }
}

/// What holds of every point of the loom and of the pieces of a level holds of
/// every point of the loom after the level.
pub proof fn lemma_extend_each(
    loom: Seq<Seq<(int, int, int)>>,
    warps: Seq<Seq<(int, int, int)>>,
    f: spec_fn((int, int, int)) -> bool,
)
    requires
        each_thread(loom, f),
        each_thread(warps, f),
        threads_nonempty(loom),
    ensures
        each_thread(extend_spec(loom, warps), f),
        threads_nonempty(extend_spec(loom, warps)),
        extend_spec(loom, warps).len() >= loom.len(),
{
    lemma_extend_from_each(loom, warps, 0, f);
    lemma_extend_from_shape(loom, warps, 0);
    let (threads, rest) = extend_from(loom, warps, 0);
    lemma_leftover_each(rest, rest.len() as int, f);
    lemma_leftover_shape(rest, rest.len() as int);
}

/// What holds of the points of the threads and of the points above their ends
/// holds of the points of the threads with their pins.
pub proof fn lemma_pin_each(
    loom: Seq<Seq<(int, int, int)>>,
    f: spec_fn((int, int, int)) -> bool,
    g: spec_fn((int, int, int)) -> bool,
)
    requires
        threads_nonempty(loom),
        each_thread(loom, f),
        forall|p: (int, int, int)| #[trigger] f(p) ==> g(p) && g(above(p)),
    ensures
        each_thread(pin_spec(loom, loom.len() as int), g),
        threads_nonempty(pin_spec(loom, loom.len() as int)),
        pin_spec(loom, loom.len() as int).len() == loom.len(),
{
    let out = pin_spec(loom, loom.len() as int);
    assert forall|i: int| 0 <= i < out.len() implies each(#[trigger] out[i], g) && out[i].len()
        > 0 by {
        let t = loom[i];
        assert(each(t, f));
        assert(out[i] == pinned(t));
        assert forall|k: int| 0 <= k < out[i].len() implies g(#[trigger] out[i][k]) by {
            if k == 0 {
                assert(f(t[0]));
                assert(out[i][k] == above(t[0]));
            } else if k <= t.len() {
                assert(out[i][k] == t[k - 1]);
                assert(f(t[k - 1]));
            } else {
                assert(f(t[t.len() - 1]));
                assert(out[i][k] == above(t[t.len() - 1]));
            }
        }
    }
}

/// What holds of the points of the threads and of their mirror images holds of
/// the points of the mirrored threads.
pub proof fn lemma_mirror_each(
    loom: Seq<Seq<(int, int, int)>>,
    f: spec_fn((int, int, int)) -> bool,
    g: spec_fn((int, int, int)) -> bool,
)
    requires
        each_thread(loom, f),
        forall|p: (int, int, int)| #[trigger] f(p) ==> g(p) && g(reflect(p)),
    ensures
        each_thread(mirror_spec(loom), g),
        mirror_spec(loom).len() == loom.len(),
{
    let out = mirror_spec(loom);
    assert forall|i: int| 0 <= i < out.len() implies each(#[trigger] out[i], g) by {
        let t = loom[i];
        assert(each(t, f));
        assert(out[i] == mirrored(t));
        let image = t.reverse().map_values(|p: (int, int, int)| reflect(p));
        assert forall|k: int| 0 <= k < out[i].len() implies g(#[trigger] out[i][k]) by {
            if k < t.len() {
                assert(f(t[k]));
                assert(out[i][k] == t[k]);
            } else {
                let l = k - t.len();
                assert(out[i][k] == image[l]);
                assert(image[l] == reflect(t.reverse()[l]));
                assert(t.reverse()[l] == t[t.len() - 1 - l]);
                assert(f(t[t.len() - 1 - l]));
            }
        }
    }
}

} // verus!
