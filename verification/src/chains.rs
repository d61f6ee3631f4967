//! Facts on sequences of lattice points: sums, chains, and what rearranging a
//! sequence keeps.
use vstd::prelude::*;
use crate::point::adjacent;
use crate::loom::reflect;
use crate::merge::align_at;
use crate::certify::{coordinate_sum, is_chain, joins};

verus! {

/// The step from the last point of the sequence back to its first point joins
/// two neighbours.
pub open spec fn is_closed(s: Seq<(int, int, int)>) -> bool {
    s.len() > 0 && adjacent(s.last(), s.first())
}

/// The sum of a concatenation is the sum of the sums.
pub proof fn lemma_sum_concat(a: Seq<(int, int, int)>, b: Seq<(int, int, int)>)
    ensures
        coordinate_sum(a + b) == (
            coordinate_sum(a).0 + coordinate_sum(b).0,
            coordinate_sum(a).1 + coordinate_sum(b).1,
            coordinate_sum(a).2 + coordinate_sum(b).2,
        ),
    decreases b.len(),
{
    if b.len() == 0 {
        assert(a + b =~= a);
    } else {
        assert((a + b).drop_last() =~= a + b.drop_last());
        lemma_sum_concat(a, b.drop_last());
    }
}

/// Mirroring every point of a sequence changes the sign of the sum of the elevations.
pub proof fn lemma_sum_reflect(s: Seq<(int, int, int)>)
    ensures
        coordinate_sum(s.map_values(|p: (int, int, int)| reflect(p))) == (
            coordinate_sum(s).0,
            coordinate_sum(s).1,
            -coordinate_sum(s).2,
        ),
    decreases s.len(),
{
    let image = s.map_values(|p: (int, int, int)| reflect(p));
    if s.len() > 0 {
        assert(image.drop_last() =~= s.drop_last().map_values(|p: (int, int, int)| reflect(p)));
        lemma_sum_reflect(s.drop_last());
    }
}

/// Taking one point out of a sequence takes it out of the sum.
pub proof fn lemma_sum_remove(s: Seq<(int, int, int)>, j: int)
    requires
        0 <= j < s.len(),
    ensures
        coordinate_sum(s) == (
            coordinate_sum(s.remove(j)).0 + s[j].0,
            coordinate_sum(s.remove(j)).1 + s[j].1,
            coordinate_sum(s.remove(j)).2 + s[j].2,
        ),
{
    let head = s.take(j);
    let tail = s.skip(j + 1);
    let one = seq![s[j]];
    assert(s =~= (head + one) + tail);
    assert(s.remove(j) =~= head + tail);
    lemma_sum_concat(head + one, tail);
    lemma_sum_concat(head, one);
    lemma_sum_concat(head, tail);
    assert(one.drop_last().len() == 0);
    assert(coordinate_sum(one.drop_last()) == (0int, 0int, 0int));
    assert(one.last() == s[j]);
    assert(coordinate_sum(one) == s[j]);
}

/// Two sequences without duplicates that hold the same points have the same
/// length and the same sum.
pub proof fn lemma_sum_same_points(a: Seq<(int, int, int)>, b: Seq<(int, int, int)>)
    requires
        a.no_duplicates(),
        b.no_duplicates(),
        forall|x: (int, int, int)| a.contains(x) <==> b.contains(x),
    ensures
        a.len() == b.len(),
        coordinate_sum(a) == coordinate_sum(b),
    decreases a.len(),
{
    if a.len() == 0 {
        if b.len() > 0 {
            assert(b.contains(b[0]));
        }
    } else {
        let x = a.last();
        assert(a.contains(x));
        let j = choose|j: int| 0 <= j < b.len() && b[j] == x;
        let a2 = a.drop_last();
        let b2 = b.remove(j);
        assert forall|y: (int, int, int)| a2.contains(y) <==> b2.contains(y) by {
            if a2.contains(y) {
                let i = choose|i: int| 0 <= i < a2.len() && a2[i] == y;
                assert(a[i] == y);
                assert(a.contains(y));
                assert(y != x);
                let l = choose|l: int| 0 <= l < b.len() && b[l] == y;
                if l < j {
                    assert(b2[l] == y);
                } else {
                    assert(b2[l - 1] == y);
                }
            }
            if b2.contains(y) {
                let l = choose|l: int| 0 <= l < b2.len() && b2[l] == y;
                let l0 = if l < j {
                    l
                } else {
                    l + 1
                };
                assert(b[l0] == y);
                assert(b.contains(y));
                assert(y != x);
                let i = choose|i: int| 0 <= i < a.len() && a[i] == y;
                assert(a2[i] == y);
            }
        }
        assert(b2.no_duplicates()) by {
            assert forall|p: int, q: int|
                0 <= p < b2.len() && 0 <= q < b2.len() && p != q implies b2[p] != b2[q] by {
                let pa = if p < j {
                    p
                } else {
                    p + 1
                };
                let qa = if q < j {
                    q
                } else {
                    q + 1
                };
                assert(b2[p] == b[pa] && b2[q] == b[qa]);
            }
        }
        lemma_sum_same_points(a2, b2);
        lemma_sum_remove(b, j);
    }
}

/// A sequence that holds every point of a duplicate-free sequence of the same
/// length has no duplicates either, and holds no other point.
pub proof fn lemma_same_length_covers(t: Seq<(int, int, int)>, c: Seq<(int, int, int)>)
    requires
        c.no_duplicates(),
        t.len() == c.len(),
        forall|x: (int, int, int)| c.contains(x) ==> t.contains(x),
    ensures
        t.no_duplicates(),
        forall|x: (int, int, int)| t.contains(x) ==> c.contains(x),
{
    broadcast use vstd::seq_lib::seq_to_set_is_finite;

    c.unique_seq_to_set();
    t.lemma_cardinality_of_set();
    assert(c.to_set().subset_of(t.to_set())) by {
        assert forall|x: (int, int, int)| c.to_set().contains(x) implies t.to_set().contains(x) by {
            assert(c.contains(x));
        }
    }
    vstd::set_lib::lemma_len_subset(c.to_set(), t.to_set());
    t.lemma_no_dup_set_cardinality();
    vstd::set_lib::lemma_subset_equality(c.to_set(), t.to_set());
    assert forall|x: (int, int, int)| t.contains(x) implies c.contains(x) by {
        assert(t.to_set().contains(x));
        assert(c.to_set().contains(x));
    }
}

/// Two chains, the first ending next to where the second starts, form a chain.
pub proof fn lemma_chain_concat(a: Seq<(int, int, int)>, b: Seq<(int, int, int)>)
    requires
        is_chain(a),
        is_chain(b),
        a.len() > 0 && b.len() > 0 ==> adjacent(a.last(), b.first()),
    ensures
        is_chain(a + b),
{
    let s = a + b;
    assert forall|i: int| 0 <= i < s.len() - 1 implies #[trigger] joins(s, i) by {
        if i + 1 < a.len() {
            assert(joins(a, i));
        } else if i >= a.len() {
            assert(joins(b, i - a.len()));
        }
    }
}

/// A chain read backwards is a chain.
pub proof fn lemma_chain_reverse(s: Seq<(int, int, int)>)
    requires
        is_chain(s),
    ensures
        is_chain(s.reverse()),
        s.len() > 0 ==> s.reverse().first() == s.last() && s.reverse().last() == s.first(),
{
    let r = s.reverse();
    assert forall|i: int| 0 <= i < r.len() - 1 implies #[trigger] joins(r, i) by {
        assert(joins(s, s.len() - 2 - i));
    }
}

/// Every stretch of a chain is a chain.
pub proof fn lemma_chain_subrange(s: Seq<(int, int, int)>, i: int, j: int)
    requires
        is_chain(s),
        0 <= i <= j <= s.len(),
    ensures
        is_chain(s.subrange(i, j)),
{
    let r = s.subrange(i, j);
    assert forall|k: int| 0 <= k < r.len() - 1 implies #[trigger] joins(r, k) by {
        assert(joins(s, i + k));
    }
}

/// A closed chain turned to any of its points, forwards or backwards, is a
/// closed chain of the same points.
pub proof fn lemma_align_cycle(s: Seq<(int, int, int)>, i: int, j: int)
    requires
        is_chain(s),
        is_closed(s),
        0 <= i < s.len(),
        0 <= j < s.len(),
    ensures
        is_chain(align_at(s, i, j)),
        is_closed(align_at(s, i, j)),
        align_at(s, i, j).len() == s.len(),
        forall|x: (int, int, int)| s.contains(x) <==> align_at(s, i, j).contains(x),
{
    let k = if i < j {
        j
    } else {
        i
    };
    let turned = s.skip(k) + s.take(k);
    lemma_chain_subrange(s, k, s.len() as int);
    lemma_chain_subrange(s, 0, k);
    assert(s.skip(k) =~= s.subrange(k, s.len() as int));
    assert(s.take(k) =~= s.subrange(0, k));
    lemma_chain_concat(s.skip(k), s.take(k));
    assert(is_closed(turned)) by {
        if k > 0 {
            assert(turned.last() == s[k - 1]);
            assert(turned.first() == s[k]);
            assert(joins(s, k - 1));
        } else {
            assert(turned =~= s);
        }
    }
    lemma_chain_reverse(turned);
    assert forall|x: (int, int, int)| s.contains(x) <==> turned.contains(x) by {
        if s.contains(x) {
            let l = choose|l: int| 0 <= l < s.len() && s[l] == x;
            if l >= k {
                assert(turned[l - k] == x);
            } else {
                assert(turned[l + (s.len() - k)] == x);
            }
        }
        if turned.contains(x) {
            let l = choose|l: int| 0 <= l < turned.len() && turned[l] == x;
            if l < s.len() - k {
                assert(s[l + k] == x);
            } else {
                assert(s[l - (s.len() - k)] == x);
            }
        }
    }
    assert forall|x: (int, int, int)| turned.contains(x) <==> turned.reverse().contains(x) by {
        if turned.contains(x) {
            let l = choose|l: int| 0 <= l < turned.len() && turned[l] == x;
            assert(turned.reverse()[turned.len() - 1 - l] == x);
        }
        if turned.reverse().contains(x) {
            let l = choose|l: int| 0 <= l < turned.len() && turned.reverse()[l] == x;
            assert(turned[turned.len() - 1 - l] == x);
        }
    }
}

} // verus!
