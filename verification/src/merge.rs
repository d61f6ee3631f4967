//! The cycle merger: finds the pair of parallel edges that bridges the lead
//! cycle and the next cycle, turns both cycles so that they start and end at
//! their bridge edge, and joins them.
use vstd::prelude::*;
use crate::point::{Tour, V3d, adjacent, each, is_adj_to, pt3, pts3, same_point};
use crate::info::{
    MAX_N, get_order_from_n, get_radius_from_order, is_cube_root, lemma_cube_root_unique,
    lemma_n_from_order, radius_of,
};
use crate::cut::{InvariantViolation, Warp, Warps, copy_range, warps_view};
use crate::loom::{Loom, LoomThread, loom_view};
use crate::edge::{
    Edge, abs_sum, all_parallel, eadjs_spec, edge_view, edges, edges_view, first_candidate,
    lemma_eadjs_members, lemma_warp_edges_members, lemma_weft_edge_members, orient,
    parallel_to_axes, shiftable, warp_bridge, warp_edges, weft_candidate, weft_eadj, weft_edge,
};

verus! {

/// The index of the first occurrence of `p` from index `k` on, or the length
/// of the sequence if there is none.
pub open spec fn first_index(s: Seq<(int, int, int)>, p: (int, int, int), k: int) -> int
    decreases s.len() - k,
{
    if k < 0 || k >= s.len() {
        s.len() as int
    } else if s[k] == p {
        k
    } else {
        first_index(s, p, k + 1)
    }
}

/// The first occurrence of a point lies at or after the index from which it is
/// looked for, holds the point, and nothing before it does.
pub proof fn lemma_first_index(s: Seq<(int, int, int)>, p: (int, int, int), k: int)
    requires
        0 <= k <= s.len(),
    ensures
        k <= first_index(s, p, k) <= s.len(),
        first_index(s, p, k) < s.len() ==> s[first_index(s, p, k)] == p,
        forall|j: int| k <= j < first_index(s, p, k) ==> s[j] != p,
    decreases s.len() - k,
{
    if k < s.len() && s[k] != p {
        lemma_first_index(s, p, k + 1);
    }
}

/// The bridge edge of the lead cycle: the first pair of consecutive points,
/// not counting the step from the last point to the first, that is a
/// candidate. `None` if there is no candidate.
pub open spec fn weft_edge_of(weft: WeftView) -> Option<((int, int, int), (int, int, int))> {
    weft_edge(weft.data, weft.joined, weft.max_sum_z)
}

/// The model of the lead cycle.
pub struct WeftView {
    /// The points of the cycle.
    pub data: Seq<(int, int, int)>,
    /// Whether a cycle has been merged into it.
    pub joined: bool,
    /// The elevation that bounds the next bridge edge.
    pub max_abs_z: int,
    /// The sum of the elevations of the two ends of the next bridge edge.
    pub max_sum_z: int,
}

/// The lead cycle, into which the other cycles are merged one by one.
#[derive(Clone, Debug)]
pub struct Weft {
    /// The points of the cycle.
    pub data: Tour,
    /// Whether a cycle has been merged into it.
    pub joined: bool,
    /// The elevation that bounds the next bridge edge.
    pub max_abs_z: i16,
    /// The sum of the elevations of the two ends of the next bridge edge.
    pub max_sum_z: i16,
}

impl View for Weft {
    type V = WeftView;

    open spec fn view(&self) -> WeftView {
        WeftView {
            data: pts3(self.data@),
            joined: self.joined,
            max_abs_z: self.max_abs_z as int,
            max_sum_z: self.max_sum_z as int,
        }
    }
}

/// The lead cycle as it starts out, for the graph whose largest coordinate
/// magnitude is `radius`: the first bridge edge lies four below the radius.
pub open spec fn new_weft(data: Seq<(int, int, int)>, radius: int) -> WeftView {
    WeftView { data, joined: false, max_abs_z: radius - 4, max_sum_z: 2 * (radius - 4) }
}

/// The lead cycle after `warp` was appended to it: the band of the next bridge
/// edge moves inward, by two at the first merge and by four at each later one.
pub open spec fn joined_weft(weft: WeftView, warp: Seq<(int, int, int)>) -> WeftView {
    let max_abs_z = if weft.joined {
        weft.max_abs_z - 4
    } else {
        weft.max_abs_z - 2
    };
    WeftView { data: weft.data + warp, joined: true, max_abs_z, max_sum_z: 2 * max_abs_z - 2 }
}

impl Weft {
    /// The lead cycle with the points of `data`, for the graph with `order` vertices.
    pub fn new(data: LoomThread, order: usize) -> (weft: Weft)
        requires
            3 * order <= usize::MAX,
            3 * order / 4 < 8192 * 8192 * 8192,
        ensures
            exists|n: int| #[trigger]
                is_cube_root(3 * order / 4, n) && weft@ == new_weft(pts3(data@), 2 * n - 1),
    {
        let mut points: Tour = Vec::with_capacity(data.len());
        let mut k: usize = 0;
        while k < data.len()
            invariant
                k <= data.len(),
                points@ == data@.take(k as int),
            decreases data.len() - k,
        {
            points.push(data[k]);
            proof {
                assert(points@ =~= data@.take(k as int + 1));
            }
            k += 1;
        }
        proof {
            assert(data@.take(data.len() as int) =~= data@);
        }
        let radius: i16 = get_radius_from_order(order);
        let ghost n = (radius + 1) / 2;
        proof {
            if n >= 8192 {
                crate::info::lemma_cube_monotonic(8192, n);
            }
        }
        let max_abs_z: i16 = radius - 4;
        let weft = Weft { data: points, joined: false, max_abs_z, max_sum_z: max_abs_z * 2 };
        proof {
            assert(is_cube_root(3 * order / 4, n) && weft@ == new_weft(pts3(data@), 2 * n - 1));
        }
        weft
    }

    /// The bridge edge of the lead cycle: the first pair of consecutive points
    /// that is a candidate, oriented. `None` if there is no candidate.
    pub fn edges(&self) -> (r: Option<Edge>)
        ensures
            match r {
                Some(e) => weft_edge_of(self@) == Some(edge_view(e)),
                None => weft_edge_of(self@) is None,
            },
    {
        let wanted: i16 = if self.joined {
            1
        } else {
            3
        };
        let len: usize = self.data.len();
        let ghost data = pts3(self.data@);
        if len < 2 {
            return None;
        }
        let mut k: usize = 0;
        while k < len - 1
            invariant
                2 <= len,
                k <= len - 1,
                wanted == if self.joined { 1int } else { 3int },
                len == self.data.len(),
                data == pts3(self.data@),
                first_candidate(data, self.joined, self.max_sum_z as int, k as int)
                    == first_candidate(data, self.joined, self.max_sum_z as int, 0),
            decreases len - k,
        {
            let p: V3d = self.data[k];
            let q: V3d = self.data[k + 1];
            proof {
                assert(data[k as int] == pt3(p));
                assert(data[k as int + 1] == pt3(q));
            }
            let hit: bool = p[0] == 1 && q[0] == wanted && abs_sum(p[2], q[2])
                == self.max_sum_z as i32;
            assert(hit == weft_candidate(
                data[k as int],
                data[k as int + 1],
                self.joined,
                self.max_sum_z as int,
            ));
            if hit {
                assert(first_candidate(data, self.joined, self.max_sum_z as int, k as int) == k);
                return Some(orient((p, q)));
            }
            assert(first_candidate(data, self.joined, self.max_sum_z as int, k as int)
                == first_candidate(data, self.joined, self.max_sum_z as int, k as int + 1));
            k += 1;
        }
        None
    }

    /// Joins `warp` to the lead cycle: its points are moved to the end of the
    /// cycle, and the band of the next bridge edge moves inward.
    pub fn join(&mut self, warp: &mut Warp)
        requires
            -16379 <= old(self).max_abs_z <= 16385,
        ensures
            final(self)@ == joined_weft(old(self)@, pts3(old(warp)@)),
            final(warp)@.len() == 0,
    {
        let ghost before = pts3(self.data@);
        self.data.append(warp);
        proof {
            assert(pts3(self.data@) =~= before + pts3(old(warp)@));
        }
        if self.joined {
            self.max_abs_z = self.max_abs_z - 4;
        } else {
            self.joined = true;
            self.max_abs_z = self.max_abs_z - 2;
        }
        self.max_sum_z = self.max_abs_z * 2 - 2;
    }

    /// The finished tour.
    pub fn get_woven(&self) -> (tour: Tour)
        ensures
            tour@ == self.data@,
    {
        proof {
            assert(self.data@.subrange(0, self.data@.len() as int) =~= self.data@);
        }
        copy_range(&self.data, 0, self.data.len())
    }
}

/// The cycle turned so that it starts at the end of the edge that comes first:
/// where the left end is found before the right end, the cycle is rotated to
/// start at the right end and then reversed; else it is rotated to start at the
/// left end.
pub open spec fn align_at<T>(s: Seq<T>, idx_lhs: int, idx_rhs: int) -> Seq<T> {
    if idx_lhs < idx_rhs {
        (s.skip(idx_rhs) + s.take(idx_rhs)).reverse()
    } else {
        s.skip(idx_lhs) + s.take(idx_lhs)
    }
}

/// The cycle turned to the edge with ends `lhs` and `rhs`.
pub open spec fn align_spec(
    s: Seq<(int, int, int)>,
    lhs: (int, int, int),
    rhs: (int, int, int),
) -> Seq<(int, int, int)> {
    align_at(s, first_index(s, lhs, 0), first_index(s, rhs, 0))
}

/// Turns `v` to the edge whose ends stand at the indices `idx_lhs` and
/// `idx_rhs`: where `idx_lhs < idx_rhs`, the sequence is rotated left by
/// `idx_rhs` and reversed; else it is rotated left by `idx_lhs`.
pub fn rotate_to<T: Copy>(v: &mut Vec<T>, idx_lhs: usize, idx_rhs: usize)
    requires
        idx_lhs < old(v)@.len(),
        idx_rhs < old(v)@.len(),
    ensures
        final(v)@ == align_at(old(v)@, idx_lhs as int, idx_rhs as int),
{
    let len: usize = v.len();
    let mut out: Vec<T> = Vec::with_capacity(len);
    if idx_lhs < idx_rhs {
        let mut k: usize = 0;
        while k < len
            invariant
                k <= len,
                len == v@.len(),
                idx_rhs < len,
                out@.len() == k,
                forall|i: int|
                    0 <= i < k ==> out@[i] == v@[if idx_rhs - 1 - i >= 0 {
                        idx_rhs - 1 - i
                    } else {
                        idx_rhs - 1 - i + len
                    }],
            decreases len - k,
        {
            let from: usize = if idx_rhs >= k + 1 {
                idx_rhs - 1 - k
            } else {
                len - (k + 1 - idx_rhs)
            };
            out.push(v[from]);
            k += 1;
        }
        proof {
            let turned = v@.skip(idx_rhs as int) + v@.take(idx_rhs as int);
            assert forall|i: int| 0 <= i < len implies out@[i] == turned.reverse()[i] by {
                assert(turned.reverse()[i] == turned[len - 1 - i]);
            }
            assert(out@ =~= turned.reverse());
        }
    } else {
        let mut k: usize = 0;
        while k < len
            invariant
                k <= len,
                len == v@.len(),
                idx_lhs < len,
                out@.len() == k,
                forall|i: int|
                    0 <= i < k ==> out@[i] == v@[if idx_lhs + i < len {
                        idx_lhs + i
                    } else {
                        idx_lhs + i - len
                    }],
            decreases len - k,
        {
            let from: usize = if k < len - idx_lhs {
                idx_lhs + k
            } else {
                k - (len - idx_lhs)
            };
            out.push(v[from]);
            k += 1;
        }
        proof {
            assert(out@ =~= v@.skip(idx_lhs as int) + v@.take(idx_lhs as int));
        }
    }
    *v = out;
}

/// The index of the first occurrence of `p` in `v`, if there is one.
pub fn position(v: &Vec<V3d>, p: &V3d) -> (r: Option<usize>)
    ensures
        match r {
            Some(i) => i < v@.len() && i == first_index(pts3(v@), pt3(*p), 0),
            None => first_index(pts3(v@), pt3(*p), 0) == v@.len(),
        },
        r is Some <==> pts3(v@).contains(pt3(*p)),
{
    let ghost s = pts3(v@);
    proof {
        lemma_first_index(s, pt3(*p), 0);
    }
    let mut k: usize = 0;
    while k < v.len()
        invariant
            k <= v.len(),
            s == pts3(v@),
            first_index(s, pt3(*p), k as int) == first_index(s, pt3(*p), 0),
        decreases v.len() - k,
    {
        if same_point(&v[k], p) {
            assert(s[k as int] == pt3(*p));
            return Some(k);
        }
        assert(s[k as int] != pt3(*p));
        k += 1;
    }
    None
}

/// Turning the points of a cycle turns their models.
pub proof fn lemma_align_at_model(s: Seq<V3d>, idx_lhs: int, idx_rhs: int)
    requires
        0 <= idx_lhs < s.len(),
        0 <= idx_rhs < s.len(),
    ensures
        pts3(align_at(s, idx_lhs, idx_rhs)) == align_at(pts3(s), idx_lhs, idx_rhs),
{
    let m = pts3(s);
    if idx_lhs < idx_rhs {
        assert(pts3(align_at(s, idx_lhs, idx_rhs)) =~= (m.skip(idx_rhs) + m.take(idx_rhs)).reverse());
    } else {
        assert(pts3(align_at(s, idx_lhs, idx_rhs)) =~= m.skip(idx_lhs) + m.take(idx_lhs));
    }
}

/// The first and the last point that the cycle `v` has once it is turned to
/// the edge whose ends stand at the indices `idx_lhs` and `idx_rhs`.
pub fn ends_when_turned(v: &Vec<V3d>, idx_lhs: usize, idx_rhs: usize) -> (ends: (V3d, V3d))
    requires
        idx_lhs < v@.len(),
        idx_rhs < v@.len(),
    ensures
        ends.0 == align_at(v@, idx_lhs as int, idx_rhs as int).first(),
        ends.1 == align_at(v@, idx_lhs as int, idx_rhs as int).last(),
{
    let len: usize = v.len();
    proof {
        let turned = if idx_lhs < idx_rhs {
            v@.skip(idx_rhs as int) + v@.take(idx_rhs as int)
        } else {
            v@.skip(idx_lhs as int) + v@.take(idx_lhs as int)
        };
        assert(turned.len() == len);
        if idx_lhs < idx_rhs {
            assert(turned.reverse()[0] == turned[len - 1]);
            assert(turned.reverse()[len - 1] == turned[0]);
        }
    }
    if idx_lhs < idx_rhs {
        (v[idx_rhs - 1], v[idx_rhs])
    } else if idx_lhs == 0 {
        (v[0], v[len - 1])
    } else {
        (v[idx_lhs], v[idx_lhs - 1])
    }
}

/// Turns the cycle `v` to `edge`, whose two ends are points of the cycle: the
/// ends are looked up, and the cycle is rotated, and reversed where the first
/// end stands before the second, as `align_at` says.
pub fn align_to(v: &mut Vec<V3d>, edge: Edge)
    requires
        pts3(old(v)@).contains(pt3(edge.0)),
        pts3(old(v)@).contains(pt3(edge.1)),
    ensures
        pts3(final(v)@) == align_spec(pts3(old(v)@), pt3(edge.0), pt3(edge.1)),
{
    let idx_lhs: usize = position(v, &edge.0).unwrap();
    let idx_rhs: usize = position(v, &edge.1).unwrap();
    rotate_to(v, idx_lhs, idx_rhs);
    proof {
        let s = pts3(old(v)@);
        if idx_lhs < idx_rhs {
            assert(pts3(v@) =~= (s.skip(idx_rhs as int) + s.take(idx_rhs as int)).reverse());
        } else {
            assert(pts3(v@) =~= s.skip(idx_lhs as int) + s.take(idx_lhs as int));
        }
    }
}

/// The points of a thread, as a vector.
pub fn to_warp(thread: &LoomThread) -> (warp: Warp)
    ensures
        warp@ == thread@,
{
    let mut warp: Warp = Vec::with_capacity(thread.len());
    let mut k: usize = 0;
    while k < thread.len()
        invariant
            k <= thread.len(),
            warp@ == thread@.take(k as int),
        decreases thread.len() - k,
    {
        warp.push(thread[k]);
        proof {
            assert(warp@ =~= thread@.take(k as int + 1));
        }
        k += 1;
    }
    proof {
        assert(thread@.take(thread.len() as int) =~= thread@);
    }
    warp
}

/// One merge: the lead cycle after the cycle `warp` was merged into it, or the
/// reason why it cannot be merged.
///
/// The bridge edge of the lead cycle has to be the parallel edge next to one
/// of the candidates of `warp`, and the parallel edge next to the bridge edge
/// has to be a candidate of `warp` itself. Both cycles are turned to their
/// edge, the second to the edge taken backwards. They are joined if the turned
/// cycles fit: the lead cycle has to end next to where `warp` starts, and
/// `warp` has to end next to where the lead cycle starts.
#[verifier::opaque]
pub open spec fn merge_step(weft: WeftView, warp: Seq<(int, int, int)>) -> Result<
    WeftView,
    InvariantViolation,
> {
    let candidates = warp_edges(warp, weft.joined, weft.max_sum_z, warp.len() as int);
    match weft_edge_of(weft) {
        None => Err(InvariantViolation::MissingBridge),
        Some(bridge) => if !parallel_to_axes(candidates) {
            Err(InvariantViolation::InvalidEdge)
        } else if !eadjs_spec(candidates, candidates.len() as int).contains(bridge) {
            Err(InvariantViolation::MissingBridge)
        } else if !candidates.contains(weft_eadj(bridge)) {
            Err(InvariantViolation::MissingBridge)
        } else {
            let other = weft_eadj(bridge);
            let lead = align_spec(weft.data, bridge.0, bridge.1);
            let next = align_spec(warp, other.1, other.0);
            if adjacent(lead.last(), next.first()) && adjacent(next.last(), lead.first()) {
                Ok(joined_weft(WeftView { data: lead, ..weft }, next))
            } else {
                Err(InvariantViolation::InvalidEdge)
            }
        },
    }
}

/// The lead cycle after the cycles from index `j` on were merged into it, one
/// after the other.
pub open spec fn merge_from(weft: WeftView, warps: Seq<Seq<(int, int, int)>>, j: int) -> Result<
    WeftView,
    InvariantViolation,
>
    decreases warps.len() - j,
{
    if j < 0 || j >= warps.len() {
        Ok(weft)
    } else {
        match merge_step(weft, warps[j]) {
            Err(e) => Err(e),
            Ok(next) => merge_from(next, warps, j + 1),
        }
    }
}

/// The points with coordinates of magnitude at most `2n + 1`.
pub open spec fn cubed(n: int) -> spec_fn((int, int, int)) -> bool {
    |p: (int, int, int)|
        -(2 * n + 1) <= p.0 <= 2 * n + 1 && -(2 * n + 1) <= p.1 <= 2 * n + 1 && -(2 * n + 1)
            <= p.2 <= 2 * n + 1
}

/// Turning a cycle to an edge rearranges its points.
pub proof fn lemma_align_at_each<T>(s: Seq<T>, i: int, j: int, f: spec_fn(T) -> bool)
    requires
        0 <= i <= s.len(),
        0 <= j <= s.len(),
        forall|k: int| 0 <= k < s.len() ==> f(#[trigger] s[k]),
    ensures
        align_at(s, i, j).len() == s.len(),
        forall|k: int| 0 <= k < s.len() ==> f(#[trigger] align_at(s, i, j)[k]),
{
    if i < j {
        let turned = s.skip(j) + s.take(j);
        assert forall|k: int| 0 <= k < s.len() implies f(#[trigger] turned.reverse()[k]) by {
            let l = s.len() - 1 - k;
            assert(turned.reverse()[k] == turned[l]);
            if l < s.len() - j {
                assert(turned[l] == s[j + l]);
            } else {
                assert(turned[l] == s[l - (s.len() - j)]);
            }
        }
    } else {
        let turned = s.skip(i) + s.take(i);
        assert forall|k: int| 0 <= k < s.len() implies f(#[trigger] turned[k]) by {
            if k < s.len() - i {
                assert(turned[k] == s[i + k]);
            } else {
                assert(turned[k] == s[k - (s.len() - i)]);
            }
        }
    }
}

/// The thresholds of the lead cycle are consistent: the band is twice the
/// bounding elevation before the first merge and two less after it, and the
/// bounding elevation is at most that of the largest graph.
pub open spec fn thresholds_fit(weft: WeftView) -> bool {
    &&& weft.max_abs_z <= 2 * MAX_N - 5
    &&& weft.max_sum_z == if weft.joined {
        2 * weft.max_abs_z - 2
    } else {
        2 * weft.max_abs_z
    }
}

/// Merges the cycle `warp` into the lead cycle: finds the bridge edge of
/// either, turns both cycles to their edge and joins them. Fails, and says
/// why, where an edge to shift is no edge, a bridge edge is missing, or the
/// turned cycles do not fit end to end.
pub fn merge_warp(weft: &mut Weft, warp: &mut Warp) -> (r: Result<(), InvariantViolation>)
    requires
        thresholds_fit(old(weft)@),
        each(old(weft)@.data, cubed(MAX_N as int)),
        each(pts3(old(warp)@), cubed(MAX_N as int)),
    ensures
        match r {
            Ok(()) => merge_step(old(weft)@, pts3(old(warp)@)) == Ok::<
                WeftView,
                InvariantViolation,
            >(final(weft)@) && thresholds_fit(final(weft)@) && each(
                final(weft)@.data,
                cubed(MAX_N as int),
            ),
            Err(e) => merge_step(old(weft)@, pts3(old(warp)@)) == Err::<
                WeftView,
                InvariantViolation,
            >(e) && final(weft)@ == old(weft)@ && final(warp)@ == old(warp)@,
        },
{
    proof {
        reveal(merge_step);
    }
    let ghost data = weft@.data;
    let ghost cycle = pts3(warp@);
    let ghost joined = weft.joined;
    let ghost sum = weft.max_sum_z as int;
    let candidates: Vec<Edge> = edges(warp, weft.max_sum_z, weft.joined);
    let ghost cands = edges_view(candidates@);
    let bridge: Edge = match weft.edges() {
        None => {
            return Err(InvariantViolation::MissingBridge);
        },
        Some(e) => e,
    };
    let ghost b = edge_view(bridge);
    if !all_parallel(&candidates) {
        return Err(InvariantViolation::InvalidEdge);
    }
    proof {
        lemma_warp_edges_members(cycle, joined, sum, cycle.len() as int);
        lemma_weft_edge_members(data, joined, sum, 0);
        assert forall|i: int| 0 <= i < cands.len() implies cubed(MAX_N as int)(
            (#[trigger] cands[i]).0,
        ) && cubed(MAX_N as int)(cands[i].1) by {
            let p = cands[i].0;
            let q = cands[i].1;
            let a = choose|a: int| 0 <= a < cycle.len() && cycle[a] == p;
            let c = choose|c: int| 0 <= c < cycle.len() && cycle[c] == q;
        }
        assert(shiftable(cands));
    }
    let bridge: Edge = match crate::edge::bridge(&bridge, &candidates) {
        None => {
            return Err(InvariantViolation::MissingBridge);
        },
        Some(e) => e,
    };
    proof {
        lemma_eadjs_members(cands, cands.len() as int, b);
        let i = first_candidate(data, joined, sum, 0);
        assert(data.contains(data[i]));
        assert(data.contains(data[i + 1]));
        let a = choose|a: int| 0 <= a < data.len() && data[a] == b.0;
        let c = choose|c: int| 0 <= c < data.len() && data[c] == b.1;
        assert(cubed(MAX_N as int)(b.0) && cubed(MAX_N as int)(b.1));
    }
    let back: Edge = match warp_bridge(&candidates, &bridge) {
        None => {
            return Err(InvariantViolation::MissingBridge);
        },
        Some(e) => e,
    };
    proof {
        let o = weft_eadj(b);
        assert(edge_view(back) == (o.1, o.0));
        let i = choose|i: int| 0 <= i < cands.len() && cands[i] == o;
        assert(cycle.contains(cands[i].0) && cycle.contains(cands[i].1));
        lemma_first_index(data, b.0, 0);
        lemma_first_index(data, b.1, 0);
        lemma_first_index(cycle, o.1, 0);
        lemma_first_index(cycle, o.0, 0);
        lemma_align_at_each(
            data,
            first_index(data, b.0, 0),
            first_index(data, b.1, 0),
            cubed(MAX_N as int),
        );
        lemma_align_at_each(
            cycle,
            first_index(cycle, o.1, 0),
            first_index(cycle, o.0, 0),
            cubed(MAX_N as int),
        );
    }
    let idx_lhs: usize = position(&weft.data, &bridge.0).unwrap();
    let idx_rhs: usize = position(&weft.data, &bridge.1).unwrap();
    let back_lhs: usize = position(warp, &back.0).unwrap();
    let back_rhs: usize = position(warp, &back.1).unwrap();
    let (lead_first, lead_last): (V3d, V3d) = ends_when_turned(&weft.data, idx_lhs, idx_rhs);
    let (next_first, next_last): (V3d, V3d) = ends_when_turned(warp, back_lhs, back_rhs);
    proof {
        lemma_align_at_model(weft.data@, idx_lhs as int, idx_rhs as int);
        lemma_align_at_model(warp@, back_lhs as int, back_rhs as int);
    }
    if !(is_adj_to(&lead_last, &next_first) && is_adj_to(&next_last, &lead_first)) {
        return Err(InvariantViolation::InvalidEdge);
    }
    rotate_to(&mut weft.data, idx_lhs, idx_rhs);
    rotate_to(warp, back_lhs, back_rhs);
    weft.join(warp);
    Ok(())
}

/// Takes the loom apart for the merge: the first cycle becomes the lead cycle
/// of the graph of order-index `n`, the others the cycles to merge into it.
pub fn detach_weft(loom: Loom, n: usize) -> (r: (Weft, Warps))
    requires
        loom@.len() >= 1,
        1 <= n <= MAX_N,
        4 * (n + 2) * (n + 1) * n <= usize::MAX,
    ensures
        r.0@ == new_weft(loom_view(loom@)[0], radius_of(n as int)),
        warps_view(r.1@) == loom_view(loom@).skip(1),
{
    let mut loom = loom;
    let ghost all = loom_view(loom@);
    let order: usize = get_order_from_n(n);
    let ghost m = (n + 2) * (n + 1) * n;
    proof {
        lemma_n_from_order(n as int);
        assert(4 * (n + 2) * (n + 1) * n == 4 * m) by (nonlinear_arith)
            requires
                m == (n + 2) * (n + 1) * n,
        ;
        assert(m < 8192 * 8192 * 8192) by (nonlinear_arith)
            requires
                m == (n + 2) * (n + 1) * n,
                1 <= n <= 8191,
        ;
    }
    let first: LoomThread = loom.remove(0);
    let weft: Weft = Weft::new(first, order);
    proof {
        let k = choose|k: int| #[trigger]
            is_cube_root(3 * order / 4, k) && weft@ == new_weft(pts3(first@), 2 * k - 1);
        lemma_cube_root_unique(3 * order / 4, k, n as int);
    }
    let mut warps: Warps = Vec::with_capacity(loom.len());
    let mut j: usize = 0;
    while j < loom.len()
        invariant
            j <= loom.len(),
            loom_view(loom@) == all.skip(1),
            warps_view(warps@) == all.skip(1).take(j as int),
        decreases loom.len() - j,
    {
        let ghost before = warps_view(warps@);
        let warp: Warp = to_warp(&loom[j]);
        warps.push(warp);
        proof {
            assert(warps_view(warps@) =~= before.push(all.skip(1)[j as int]));
            assert(warps_view(warps@) =~= all.skip(1).take(j as int + 1));
        }
        j += 1;
    }
    proof {
        assert(all.skip(1).take(loom.len() as int) =~= all.skip(1));
    }
    (weft, warps)
}

} // verus!
