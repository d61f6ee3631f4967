//! Certification of a finished tour.
use vstd::prelude::*;
use itertools::Itertools;
use crate::point::{V3d, adjacent, is_adj_to, l1norm, l1norm3, lemma_pts3_no_duplicates, pt3, pts3};
use crate::info::{is_vertex, max_norm_of, order_of};

verus! {

/// The verdict on a sequence of lattice points.
#[derive(Debug, Clone, Copy, PartialEq, Eq)]
pub enum SequenceID {
    /// Some requirement on the vertex set or on the steps fails.
    Broken,
    /// A Hamiltonian path whose two ends are not neighbours.
    HamChain,
    /// A Hamiltonian cycle.
    HamCycle,
}

impl SequenceID {
    /// The name of the verdict.
    pub open spec fn name(self) -> Seq<char> {
        match self {
            SequenceID::Broken => "Broken"@,
            SequenceID::HamChain => "HamChain"@,
            SequenceID::HamCycle => "HamCycle"@,
        }
    }

    /// The verdict as text: its name.
    pub fn to_string(&self) -> (text: String)
        ensures
            text@ == self.name(),
    {
        match self {
            SequenceID::Broken => "Broken".to_owned(),
            SequenceID::HamChain => "HamChain".to_owned(),
            SequenceID::HamCycle => "HamCycle".to_owned(),
        }
    }
}

/// Componentwise sum of the points of `s`.
pub open spec fn coordinate_sum(s: Seq<(int, int, int)>) -> (int, int, int)
    decreases s.len(),
{
    if s.len() == 0 {
        (0, 0, 0)
    } else {
        let rest = coordinate_sum(s.drop_last());
        (rest.0 + s.last().0, rest.1 + s.last().1, rest.2 + s.last().2)
    }
}

/// Every point of `s` lies within L1-distance `bound` of the origin.
pub open spec fn within_norm(s: Seq<(int, int, int)>, bound: int) -> bool {
    forall|i: int| 0 <= i < s.len() ==> l1norm3(#[trigger] s[i]) <= bound
}

/// The step from point `i` of `s` to the next point joins two neighbours.
pub open spec fn joins(s: Seq<(int, int, int)>, i: int) -> bool {
    adjacent(s[i], s[i + 1])
}

/// Every point of `s` but the last is a neighbour of its successor.
pub open spec fn is_chain(s: Seq<(int, int, int)>) -> bool {
    forall|i: int| 0 <= i < s.len() - 1 ==> #[trigger] joins(s, i)
}

/// `s` visits `order` distinct points within the norm bound, balanced around the origin.
pub open spec fn covers(s: Seq<(int, int, int)>, order: int, bound: int) -> bool {
    &&& s.no_duplicates()
    &&& s.len() == order
    &&& within_norm(s, bound)
    &&& coordinate_sum(s) == (0int, 0int, 0int)
}

/// `s` is a Hamiltonian cycle of the graph with `order` vertices and norm bound `bound`.
pub open spec fn is_ham_cycle(s: Seq<(int, int, int)>, order: int, bound: int) -> bool {
    &&& covers(s, order, bound)
    &&& is_chain(s)
    &&& adjacent(s.last(), s[0])
}

/// `s` is a Hamiltonian cycle of the graph of order-index `n`: it visits every
/// vertex of the graph once and nothing else, every step joins two
/// neighbours, and so does the step from its last point back to its first.
pub open spec fn is_tour_of(s: Seq<(int, int, int)>, n: int) -> bool {
    &&& is_ham_cycle(s, order_of(n), max_norm_of(n))
    &&& forall|p: (int, int, int)| s.contains(p) <==> is_vertex(n, p)
}

/// The verdict that a sequence deserves.
pub open spec fn classify(s: Seq<(int, int, int)>, order: int, bound: int) -> SequenceID {
    if !covers(s, order, bound) || !is_chain(s) {
        SequenceID::Broken
    } else if adjacent(s.last(), s[0]) {
        SequenceID::HamCycle
    } else {
        SequenceID::HamChain
    }
}

/// The values that occur at more than one index of `s`.
pub open spec fn repeated(s: Seq<V3d>) -> Set<V3d> {
    Set::new(
        |v: V3d|
            exists|i: int, j: int|
                0 <= i < j < s.len() && #[trigger] s[i] == v && #[trigger] s[j] == v,
    )
}

/// Counts the distinct values that `Itertools::duplicates` yields for the
/// points of `tour`: the adaptor yields each value that occurs more than once,
/// once.
#[verifier::external_body]
fn count_duplicates(tour: &Vec<V3d>) -> (n: usize)
    ensures
        n == repeated(tour@).len(),
{
    tour.iter().duplicates().count()
}

proof fn lemma_repeated_empty(s: Seq<V3d>)
    ensures
        repeated(s).finite(),
        repeated(s).len() == 0 <==> s.no_duplicates(),
{
    broadcast use vstd::seq_lib::seq_to_set_is_finite;

    assert(repeated(s).subset_of(s.to_set())) by {
        assert forall|v: V3d| repeated(s).contains(v) implies s.to_set().contains(v) by {
            let (i, j) = choose|i: int, j: int|
                0 <= i < j < s.len() && #[trigger] s[i] == v && #[trigger] s[j] == v;
            assert(s.contains(s[i]));
        }
    }
    vstd::set_lib::lemma_len_subset(repeated(s), s.to_set());
    vstd::set_lib::lemma_set_empty_equivalency_len(repeated(s));
    if s.no_duplicates() {
        assert(repeated(s) =~= Set::<V3d>::empty());
    }
    if repeated(s).len() == 0 {
        assert forall|i: int, j: int| 0 <= i < s.len() && 0 <= j < s.len() && i != j implies s[i]
            != s[j] by {
            if s[i] == s[j] {
                if i < j {
                    assert(repeated(s).contains(s[i]));
                } else {
                    assert(repeated(s).contains(s[j]));
                }
            }
        }
    }
}

/// Whether some point occurs twice in `tour`.
pub fn has_duplicates(tour: &Vec<V3d>) -> (r: bool)
    ensures
        r == !pts3(tour@).no_duplicates(),
{
    proof {
        lemma_repeated_empty(tour@);
        lemma_pts3_no_duplicates(tour@);
    }
    count_duplicates(tour) > 0
}

/// Whether every point of `tour` has L1-norm at most `bound`.
pub fn all_within(tour: &Vec<V3d>, bound: i16) -> (r: bool)
    ensures
        r == within_norm(pts3(tour@), bound as int),
{
    let mut i: usize = 0;
    while i < tour.len()
        invariant
            i <= tour.len(),
            forall|k: int| 0 <= k < i ==> l1norm3(#[trigger] pts3(tour@)[k]) <= bound,
        decreases tour.len() - i,
    {
        if l1norm(&tour[i]) > bound as i32 {
            assert(l1norm3(pts3(tour@)[i as int]) > bound);
            return false;
        }
        i += 1;
    }
    true
}

/// Whether the coordinates of the points of `tour` sum to zero along every axis.
pub fn sums_to_zero(tour: &Vec<V3d>) -> (r: bool)
    ensures
        r == (coordinate_sum(pts3(tour@)) == (0int, 0int, 0int)),
{
    let mut sx: i128 = 0;
    let mut sy: i128 = 0;
    let mut sz: i128 = 0;
    let mut i: usize = 0;
    while i < tour.len()
        invariant
            i <= tour.len(),
            (sx as int, sy as int, sz as int) == coordinate_sum(pts3(tour@).take(i as int)),
            -32768 * i <= sx <= 32768 * i,
            -32768 * i <= sy <= 32768 * i,
            -32768 * i <= sz <= 32768 * i,
        decreases tour.len() - i,
    {
        let p: V3d = tour[i];
        proof {
            let s = pts3(tour@).take(i as int + 1);
            assert(s.drop_last() =~= pts3(tour@).take(i as int));
            assert(s.last() == pt3(p));
        }
        sx = sx + p[0] as i128;
        sy = sy + p[1] as i128;
        sz = sz + p[2] as i128;
        i += 1;
    }
    proof {
        assert(pts3(tour@).take(i as int) =~= pts3(tour@));
    }
    sx == 0 && sy == 0 && sz == 0
}

/// Whether every point of `tour` but the last is a neighbour of its successor.
pub fn steps_adjacent(tour: &Vec<V3d>) -> (r: bool)
    ensures
        r == is_chain(pts3(tour@)),
{
    if tour.len() < 2 {
        return true;
    }
    let mut i: usize = 0;
    while i + 1 < tour.len()
        invariant
            i + 1 <= tour.len(),
            forall|k: int| 0 <= k < i ==> #[trigger] joins(pts3(tour@), k),
        decreases tour.len() - i,
    {
        if !is_adj_to(&tour[i], &tour[i + 1]) {
            assert(!joins(pts3(tour@), i as int));
            return false;
        }
        i += 1;
    }
    true
}

/// Certifies a finished tour against the graph with `order` vertices, all
/// within L1-distance `max_absumv3d` of the origin.
///
/// The verdict is `HamCycle` exactly for a Hamiltonian cycle, `HamChain` for a
/// sequence that meets every requirement but the closing step, and `Broken`
/// otherwise.
pub fn certify(tour: &Vec<V3d>, order: usize, max_absumv3d: i16) -> (verdict: SequenceID)
    requires
        order > 0,
    ensures
        verdict == classify(pts3(tour@), order as int, max_absumv3d as int),
        verdict == SequenceID::HamCycle <==> is_ham_cycle(
            pts3(tour@),
            order as int,
            max_absumv3d as int,
        ),
{
    if has_duplicates(tour) || tour.len() != order || !all_within(tour, max_absumv3d)
        || !sums_to_zero(tour) {
        return SequenceID::Broken;
    }
    if !steps_adjacent(tour) {
        return SequenceID::Broken;
    }
    let last: usize = tour.len() - 1;
    assert(pts3(tour@).last() == pt3(tour@[last as int]));
    if is_adj_to(&tour[last], &tour[0]) {
        SequenceID::HamCycle
    } else {
        SequenceID::HamChain
    }
}

/// Certification is a function of its inputs: two runs on the same tour, order
/// and bound give the same verdict.
pub proof fn lemma_certify_repeatable(
    tour: &Vec<V3d>,
    order: usize,
    max_absumv3d: i16,
    first: SequenceID,
    second: SequenceID,
)
    requires
        order > 0,
        call_ensures(certify, (tour, order, max_absumv3d), first),
        call_ensures(certify, (tour, order, max_absumv3d), second),
    ensures
        first == second,
{
}

} // verus!
