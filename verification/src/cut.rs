//! The level cutter: slices a template, lifts it to an elevation and cuts it at
//! the pins carried over from the level below.
use vstd::prelude::*;
use crate::point::{V2d, V3d, each, each_thread, pt2, pt3, pts2, pts3, same_point};
use crate::info::Color;
use crate::color::Yarns;
use crate::loom::threads_nonempty;

verus! {

/// An open path cut from a template.
pub type Warp = Vec<V3d>;

/// The pieces that a level is cut into.
pub type Warps = Vec<Warp>;

/// The pins: the markers of the thread ends, one level up.
pub type Cushion = Vec<V3d>;

/// A construction step found that something it relies on does not hold.
#[derive(Debug, Clone, Copy, PartialEq, Eq)]
pub enum InvariantViolation {
    /// The number of points of a level that are pins differs from the number of pins.
    UnmatchedPin,
    /// Two consecutive points that should bridge two cycles are not neighbours.
    InvalidEdge,
    /// The lead cycle or the cycle to merge into it holds no bridge edge.
    MissingBridge,
}

/// The model of a sequence of pieces.
pub open spec fn warps_view(warps: Seq<Warp>) -> Seq<Seq<(int, int, int)>> {
    warps.map_values(|w: Warp| pts3(w@))
}

/// The planar points `s` at elevation `z`.
pub open spec fn lift(s: Seq<(int, int)>, z: int) -> Seq<(int, int, int)> {
    s.map_values(|p: (int, int)| (p.0, p.1, z))
}

/// The indices below `k` at which `yarn` holds a pin, in ascending order.
pub open spec fn pin_positions(
    yarn: Seq<(int, int, int)>,
    pins: Seq<(int, int, int)>,
    k: int,
) -> Seq<int>
    decreases k,
{
    if k <= 0 {
        Seq::empty()
    } else if pins.contains(yarn[k - 1]) {
        pin_positions(yarn, pins, k - 1).push(k - 1)
    } else {
        pin_positions(yarn, pins, k - 1)
    }
}

/// The index at which the piece that ends with the `j`-th pin starts: after the
/// pin before it.
pub open spec fn piece_start(m: Seq<int>, j: int) -> int {
    if j == 0 {
        0
    } else {
        m[j - 1] + 1
    }
}

/// The piece that runs up to the `j`-th pin, turned so that it starts with the pin.
pub open spec fn head_piece(yarn: Seq<(int, int, int)>, m: Seq<int>, j: int) -> Seq<
    (int, int, int),
> {
    yarn.subrange(piece_start(m, j), m[j] + 1).reverse()
}

/// The pieces of `yarn` cut at the pin positions `m`, of which there is at
/// least one. Every pin but the last ends a piece, which is turned so that the
/// pin comes first. The last pin starts the piece that runs to the end of the
/// yarn; what lies between the pin before it and the last pin is a piece of
/// its own, turned as well. Where the last pin is the last point of the yarn,
/// it ends a piece like the other pins.
pub open spec fn cut_at(yarn: Seq<(int, int, int)>, m: Seq<int>) -> Seq<Seq<(int, int, int)>> {
    let last = m.len() - 1;
    let heads = Seq::new(last as nat, |j: int| head_piece(yarn, m, j));
    if m[last] != yarn.len() - 1 {
        let tail = yarn.subrange(m[last], yarn.len() as int);
        let gap = yarn.subrange(piece_start(m, last), m[last]);
        if gap.len() > 0 {
            heads.push(tail).push(gap.reverse())
        } else {
            heads.push(tail)
        }
    } else {
        heads.push(head_piece(yarn, m, last))
    }
}

/// The pieces of `yarn` cut at the pins, if every pin marks exactly one point
/// of the yarn: that is, if as many points of the yarn are pins as there are pins.
pub open spec fn cut_spec(yarn: Seq<(int, int, int)>, pins: Seq<(int, int, int)>) -> Option<
    Seq<Seq<(int, int, int)>>,
> {
    let m = pin_positions(yarn, pins, yarn.len() as int);
    if pins.len() > 0 && m.len() == pins.len() {
        Some(cut_at(yarn, m))
    } else {
        None
    }
}

/// The fragment of a level: the template from index `start` on, at elevation `z`.
pub open spec fn fragment(yarn: Seq<(int, int)>, start: int, z: int) -> Seq<(int, int, int)> {
    lift(yarn.skip(start), z)
}

/// The pieces of a level: the whole fragment where there are no pins, else the
/// fragment cut at the pins.
pub open spec fn prepare_spec(
    yarn: Seq<(int, int)>,
    start: int,
    z: int,
    pins: Seq<(int, int, int)>,
) -> Option<Seq<Seq<(int, int, int)>>> {
    if pins.len() == 0 {
        Some(seq![fragment(yarn, start, z)])
    } else {
        cut_spec(fragment(yarn, start, z), pins)
    }
}

/// The pin positions below `k` are ascending indices below `k`, and there are
/// at most `k` of them.
pub proof fn lemma_pin_positions(yarn: Seq<(int, int, int)>, pins: Seq<(int, int, int)>, k: int)
    requires
        0 <= k <= yarn.len(),
    ensures
        pin_positions(yarn, pins, k).len() <= k,
        forall|j: int|
            0 <= j < pin_positions(yarn, pins, k).len() ==> 0 <= #[trigger] pin_positions(
                yarn,
                pins,
                k,
            )[j] < k && pins.contains(yarn[pin_positions(yarn, pins, k)[j]]),
        forall|i: int, j: int|
            0 <= i < j < pin_positions(yarn, pins, k).len() ==> pin_positions(yarn, pins, k)[i]
                < pin_positions(yarn, pins, k)[j],
        forall|i: int|
            0 <= i < k && pins.contains(#[trigger] yarn[i]) ==> pin_positions(
                yarn,
                pins,
                k,
            ).contains(i),
    decreases k,
{
    if k > 0 {
        lemma_pin_positions(yarn, pins, k - 1);
        let rest = pin_positions(yarn, pins, k - 1);
        let all = pin_positions(yarn, pins, k);
        assert forall|i: int| 0 <= i < k && pins.contains(#[trigger] yarn[i]) implies all.contains(
            i,
        ) by {
            if i < k - 1 {
                let j = choose|j: int| 0 <= j < rest.len() && rest[j] == i;
                assert(all[j] == i);
            } else {
                assert(all[all.len() - 1] == i);
            }
        }
    }
}

/// Looking at more of the yarn only adds pin positions at the end.
pub proof fn lemma_pin_positions_grow(
    yarn: Seq<(int, int, int)>,
    pins: Seq<(int, int, int)>,
    k: int,
    l: int,
)
    requires
        0 <= k <= l <= yarn.len(),
    ensures
        pin_positions(yarn, pins, k).is_prefix_of(pin_positions(yarn, pins, l)),
    decreases l - k,
{
    if k < l {
        lemma_pin_positions_grow(yarn, pins, k, l - 1);
    }
}

/// Whether `p` is one of the pins.
pub fn contains_point(pins: &Vec<V3d>, p: &V3d) -> (r: bool)
    ensures
        r == pts3(pins@).contains(pt3(*p)),
{
    let mut i: usize = 0;
    while i < pins.len()
        invariant
            i <= pins.len(),
            forall|k: int| 0 <= k < i ==> pts3(pins@)[k] != pt3(*p),
        decreases pins.len() - i,
    {
        if same_point(&pins[i], p) {
            assert(pts3(pins@)[i as int] == pt3(*p));
            return true;
        }
        i += 1;
    }
    false
}

/// The points of `yarn` from index `from` up to `to`, in order.
pub fn copy_range(yarn: &Vec<V3d>, from: usize, to: usize) -> (out: Vec<V3d>)
    requires
        from <= to <= yarn.len(),
    ensures
        out@ == yarn@.subrange(from as int, to as int),
        pts3(out@) == pts3(yarn@).subrange(from as int, to as int),
{
    let mut out: Vec<V3d> = Vec::with_capacity(to - from);
    let mut i: usize = from;
    while i < to
        invariant
            from <= i <= to <= yarn.len(),
            out@ == yarn@.subrange(from as int, i as int),
        decreases to - i,
    {
        out.push(yarn[i]);
        proof {
            assert(out@ =~= yarn@.subrange(from as int, i as int + 1));
        }
        i += 1;
    }
    proof {
        assert(pts3(out@) =~= pts3(yarn@).subrange(from as int, to as int));
    }
    out
}

/// The points of `yarn` from index `from` up to `to`, last first.
pub fn reversed_range(yarn: &Vec<V3d>, from: usize, to: usize) -> (out: Vec<V3d>)
    requires
        from <= to <= yarn.len(),
    ensures
        out@ == yarn@.subrange(from as int, to as int).reverse(),
        pts3(out@) == pts3(yarn@).subrange(from as int, to as int).reverse(),
{
    let mut out: Vec<V3d> = Vec::with_capacity(to - from);
    let mut i: usize = to;
    while i > from
        invariant
            from <= i <= to <= yarn.len(),
            out@.len() == to - i,
            forall|k: int| 0 <= k < to - i ==> out@[k] == yarn@[to - 1 - k],
        decreases i,
    {
        i -= 1;
        out.push(yarn[i]);
    }
    proof {
        assert(out@ =~= yarn@.subrange(from as int, to as int).reverse());
        assert(pts3(out@) =~= pts3(yarn@).subrange(from as int, to as int).reverse());
    }
    out
}

/// Cuts `yarn` at the pins. Every pin has to mark exactly one point of the
/// yarn; where the number of points that are pins differs from the number of
/// pins, the cut fails with `UnmatchedPin`.
pub fn cut_using(yarn: &Vec<V3d>, pins: &Cushion) -> (r: Result<Warps, InvariantViolation>)
    requires
        pins.len() > 0,
    ensures
        match r {
            Ok(warps) => cut_spec(pts3(yarn@), pts3(pins@)) == Some(warps_view(warps@)),
            Err(e) => e == InvariantViolation::UnmatchedPin && cut_spec(pts3(yarn@), pts3(pins@))
                is None,
        },
{
    let ghost y = pts3(yarn@);
    let ghost p = pts3(pins@);
    let mut warps: Warps = Vec::with_capacity(pins.len());
    let last_ipin: usize = pins.len() - 1;
    let mut iprev: usize = 0;
    let mut ipin: usize = 0;
    let mut i: usize = 0;
    while i < yarn.len()
        invariant
            y == pts3(yarn@),
            p == pts3(pins@),
            pins.len() > 0,
            last_ipin == pins.len() - 1,
            i <= yarn.len(),
            ipin == pin_positions(y, p, i as int).len(),
            ipin <= pins.len(),
            iprev <= i,
            ipin <= last_ipin ==> iprev == piece_start(pin_positions(y, p, i as int), ipin as int)
                && warps_view(warps@) =~= Seq::new(
                ipin as nat,
                |j: int| head_piece(y, pin_positions(y, p, i as int), j),
            ),
            ipin == pins.len() ==> warps_view(warps@) == cut_at(y, pin_positions(y, p, i as int)),
        decreases yarn.len() - i,
    {
        let ghost m0 = pin_positions(y, p, i as int);
        let ghost m1 = pin_positions(y, p, i as int + 1);
        proof {
            lemma_pin_positions(y, p, i as int);
            lemma_pin_positions(y, p, i as int + 1);
            assert(y[i as int] == pt3(yarn@[i as int]));
        }
        if contains_point(pins, &yarn[i]) {
            assert(m1 == m0.push(i as int));
            if ipin > last_ipin {
                proof {
                    lemma_pin_positions_grow(y, p, i as int + 1, y.len() as int);
                }
                return Err(InvariantViolation::UnmatchedPin);
            }
            let ghost old_view = warps_view(warps@);
            if ipin == last_ipin && i != yarn.len() - 1 {
                let tail: Warp = copy_range(yarn, i, yarn.len());
                warps.push(tail);
                proof {
                    assert(warps_view(warps@) =~= old_view.push(y.subrange(i as int, y.len() as int)));
                }
                if iprev < i {
                    let ghost mid_view = warps_view(warps@);
                    let gap: Warp = reversed_range(yarn, iprev, i);
                    warps.push(gap);
                    proof {
                        assert(warps_view(warps@) =~= mid_view.push(
                            y.subrange(iprev as int, i as int).reverse(),
                        ));
                    }
                }
                proof {
                    let heads = Seq::new(last_ipin as nat, |j: int| head_piece(y, m1, j));
                    assert(old_view =~= heads);
                    assert(warps_view(warps@) =~= cut_at(y, m1));
                }
            } else {
                let head: Warp = reversed_range(yarn, iprev, i + 1);
                warps.push(head);
                proof {
                    assert(warps_view(warps@) =~= old_view.push(head_piece(y, m1, ipin as int)));
                    assert(warps_view(warps@) =~= Seq::new(
                        (ipin + 1) as nat,
                        |j: int| head_piece(y, m1, j),
                    ));
                    if ipin == last_ipin {
                        assert(warps_view(warps@) =~= cut_at(y, m1));
                    }
                }
                iprev = i + 1;
            }
            ipin += 1;
        } else {
            assert(m1 == m0);
        }
        i += 1;
    }
    if ipin != pins.len() {
        return Err(InvariantViolation::UnmatchedPin);
    }
    Ok(warps)
}

/// The fragment of a level: the points of `yarn` from index `start` on, each
/// with the elevation `z` as its third coordinate.
pub fn measure(yarn: &Vec<V2d>, start: usize, z: i16) -> (out: Vec<V3d>)
    requires
        start <= yarn.len(),
    ensures
        pts3(out@) == fragment(pts2(yarn@), start as int, z as int),
{
    let mut out: Vec<V3d> = Vec::with_capacity(yarn.len() - start);
    let mut i: usize = start;
    while i < yarn.len()
        invariant
            start <= i <= yarn.len(),
            out@.len() == i - start,
            forall|k: int|
                0 <= k < i - start ==> pt3(#[trigger] out@[k]) == (
                    pt2(yarn@[start + k]).0,
                    pt2(yarn@[start + k]).1,
                    z as int,
                ),
        decreases yarn.len() - i,
    {
        out.push([yarn[i][0], yarn[i][1], z]);
        i += 1;
    }
    proof {
        assert(pts3(out@) =~= fragment(pts2(yarn@), start as int, z as int));
    }
    out
}

/// Prepares the pieces of a level: measures the template of the given colour
/// from index `start` on, lifts it to elevation `zpos`, and cuts it at the pins
/// if there are any.
pub fn prepare(zpos: i16, color: Color, start: usize, pins: &Cushion, yarns: &Yarns) -> (r: Result<
    Warps,
    InvariantViolation,
>)
    requires
        start <= yarns.of(color).len(),
    ensures
        match r {
            Ok(warps) => prepare_spec(pts2(yarns.of(color)), start as int, zpos as int, pts3(pins@))
                == Some(warps_view(warps@)),
            Err(e) => e == InvariantViolation::UnmatchedPin && prepare_spec(
                pts2(yarns.of(color)),
                start as int,
                zpos as int,
                pts3(pins@),
            ) is None,
        },
{
    let yarn: Vec<V3d> = measure(yarns.get(color), start, zpos);
    if pins.len() == 0 {
        let mut warps: Warps = Vec::with_capacity(1);
        let ghost whole = pts3(yarn@);
        warps.push(yarn);
        proof {
            assert(warps_view(warps@) =~= seq![whole]);
        }
        Ok(warps)
    } else {
        cut_using(&yarn, pins)
    }
}

/// What holds of every point of a yarn holds of every point of its pieces, and
/// every piece holds a point.
pub proof fn lemma_cut_each(
    yarn: Seq<(int, int, int)>,
    pins: Seq<(int, int, int)>,
    f: spec_fn((int, int, int)) -> bool,
)
    requires
        each(yarn, f),
        cut_spec(yarn, pins) is Some,
    ensures
        each_thread(cut_spec(yarn, pins).unwrap(), f),
        threads_nonempty(cut_spec(yarn, pins).unwrap()),
{
    let m = pin_positions(yarn, pins, yarn.len() as int);
    lemma_pin_positions(yarn, pins, yarn.len() as int);
    let pieces = cut_at(yarn, m);
    let last = m.len() - 1;
    assert forall|i: int| 0 <= i < pieces.len() implies each(#[trigger] pieces[i], f)
        && pieces[i].len() > 0 by {
        if i < last {
            assert(pieces[i] == head_piece(yarn, m, i));
            if i > 0 {
                assert(m[i - 1] < m[i]);
            }
        } else {
            if last > 0 {
                assert(m[last - 1] < m[last]);
            }
        }
    }
}

/// The positions `m` are ascending indices of a sequence of length `len`.
pub open spec fn ascending_within(m: Seq<int>, len: int) -> bool {
    &&& forall|a: int, b: int| 0 <= a < b < m.len() ==> m[a] < m[b]
    &&& forall|a: int| 0 <= a < m.len() ==> 0 <= #[trigger] m[a] < len
}

/// The pieces of a fragment that runs from the centre outward, cut at the
/// pins: the pieces of the fragment read backwards, with the piece between
/// the two innermost pins, which may be empty, ahead of the piece of the
/// innermost pin. Where the fragment starts with a pin, there is no piece
/// between. Without pins the fragment is handed out whole, read backwards.
pub open spec fn chop_spec(yarn: Seq<(int, int, int)>, pins: Seq<(int, int, int)>) -> Option<
    Seq<Seq<(int, int, int)>>,
> {
    if pins.len() == 0 {
        Some(seq![yarn.reverse()])
    } else {
        match cut_spec(yarn.reverse(), pins) {
            None => None,
            Some(pieces) => {
                let heads = pieces.take(pins.len() - 1);
                let tail = pieces[pins.len() - 1];
                if pieces.len() > pins.len() {
                    Some(heads.push(pieces[pins.len() as int]).push(tail))
                } else if !pins.contains(yarn[0]) {
                    Some(heads.push(Seq::empty()).push(tail))
                } else {
                    Some(pieces)
                }
            },
        }
    }
}

/// The number of pieces of a cut: one for every pin, and one more where
/// points lie between the last two pins.
pub proof fn lemma_cut_count(yarn: Seq<(int, int, int)>, pins: Seq<(int, int, int)>)
    requires
        cut_spec(yarn, pins) is Some,
    ensures
        pins.len() <= cut_spec(yarn, pins).unwrap().len() <= pins.len() + 1,
        yarn.len() > 0,
{
    lemma_pin_positions(yarn, pins, yarn.len() as int);
}

/// Cuts a fragment that runs from the centre outward at the pins, as
/// `chop_spec` says. Fails with `UnmatchedPin` where the number of points that
/// are pins differs from the number of pins.
pub fn chop(yarn: Warp, pins: &Cushion) -> (r: Result<Warps, InvariantViolation>)
    ensures
        match r {
            Ok(warps) => chop_spec(pts3(yarn@), pts3(pins@)) == Some(warps_view(warps@)),
            Err(e) => e == InvariantViolation::UnmatchedPin && chop_spec(pts3(yarn@), pts3(pins@))
                is None,
        },
{
    let inward: Warp = reversed_range(&yarn, 0, yarn.len());
    proof {
        assert(pts3(yarn@).subrange(0, yarn@.len() as int) =~= pts3(yarn@));
    }
    if pins.len() == 0 {
        let mut whole: Warps = Vec::with_capacity(1);
        let ghost piece = pts3(inward@);
        whole.push(inward);
        proof {
            assert(warps_view(whole@) =~= seq![piece]);
        }
        return Ok(whole);
    }
    let mut pieces: Warps = match cut_using(&inward, pins) {
        Err(e) => {
            return Err(e);
        },
        Ok(pieces) => pieces,
    };
    let ghost cut = warps_view(pieces@);
    let count: usize = pins.len();
    proof {
        lemma_cut_count(pts3(inward@), pts3(pins@));
        assert(pts3(yarn@)[0] == pt3(yarn@[0]));
    }
    if pieces.len() > count {
        let between: Warp = pieces.pop().unwrap();
        let tail: Warp = pieces.pop().unwrap();
        pieces.push(between);
        pieces.push(tail);
        proof {
            assert(warps_view(pieces@) =~= cut.take(count - 1).push(cut[count as int]).push(
                cut[count - 1],
            ));
        }
    } else if !contains_point(pins, &yarn[0]) {
        let tail: Warp = pieces.pop().unwrap();
        pieces.push(Vec::new());
        pieces.push(tail);
        proof {
            assert(warps_view(pieces@) =~~= cut.take(count - 1).push(Seq::empty()).push(
                cut[count - 1],
            ));
        }
    }
    Ok(pieces)
}

impl Yarns {
    /// The first `len` points of the template of the given colour, each with
    /// the elevation `zpos` as its third coordinate.
    pub fn prep(&self, zpos: i16, color: Color, len: usize) -> (out: Warp)
        requires
            len <= self.of(color).len(),
        ensures
            pts3(out@) == lift(pts2(self.of(color)).take(len as int), zpos as int),
    {
        let yarn: &Vec<V2d> = self.get(color);
        let mut out: Warp = Vec::with_capacity(len);
        let mut i: usize = 0;
        while i < len
            invariant
                i <= len <= yarn.len(),
                out@.len() == i,
                forall|k: int|
                    0 <= k < i ==> pt3(#[trigger] out@[k]) == (
                        pt2(yarn@[k]).0,
                        pt2(yarn@[k]).1,
                        zpos as int,
                    ),
            decreases len - i,
        {
            out.push([yarn[i][0], yarn[i][1], zpos]);
            i += 1;
        }
        proof {
            assert(pts3(out@) =~= lift(pts2(yarn@).take(len as int), zpos as int));
        }
        out
    }
}

} // verus!
