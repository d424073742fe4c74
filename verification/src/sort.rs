//! The canonical sweep order: points sorted ascending by `x`, ties broken
//! ascending by `y`.
//!
//! Because coordinates are exact grid integers the comparison is exact;
//! no tolerance is needed to stabilise ties.  The sorted arrangement of a
//! point set is unique, so it is a function of the input multiset alone.

use vstd::prelude::*;

use crate::point::{lemma_lex_leq_total_ordering, lex_leq, lex_leq_fn, Point};

verus! {

/// The unique rearrangement of `s` into the sweep order.
pub open spec fn lex_sorted_of(s: Seq<Point>) -> Seq<Point> {
    s.sort_by(lex_leq_fn())
}

/// Sequences holding the same points with the same multiplicities sort to
/// the same sweep order.
pub proof fn lemma_lex_sorted_of_multiset(s1: Seq<Point>, s2: Seq<Point>)
    requires
        s1.to_multiset() == s2.to_multiset(),
    ensures
        lex_sorted_of(s1) == lex_sorted_of(s2),
{
    lemma_lex_leq_total_ordering();
    s1.lemma_sort_by_ensures(lex_leq_fn());
    s2.lemma_sort_by_ensures(lex_leq_fn());
    vstd::seq_lib::lemma_sorted_unique(lex_sorted_of(s1), lex_sorted_of(s2), lex_leq_fn());
}

fn lex_leq_exec(a: Point, b: Point) -> (r: bool)
    ensures
        r == lex_leq(a, b),
{
    a.x < b.x || (a.x == b.x && a.y <= b.y)
}

/// Rearranges the polygon into the sweep order, keeping every point:
/// the result is exactly the sorted arrangement of the input multiset.
pub fn sort_polygon_ccw(polygon: &mut Vec<Point>)
    ensures
        final(polygon)@ == lex_sorted_of(old(polygon)@),
        vstd::relations::sorted_by(final(polygon)@, lex_leq_fn()),
        final(polygon)@.to_multiset() == old(polygon)@.to_multiset(),
{
    broadcast use vstd::seq_lib::group_to_multiset_ensures;
    broadcast use vstd::multiset::group_multiset_axioms;

    let ghost original: Seq<Point> = polygon@;
    let mut out: Vec<Point> = Vec::new();
    while polygon.len() > 0
        invariant
            out@.to_multiset().add(polygon@.to_multiset()) == original.to_multiset(),
            vstd::relations::sorted_by(out@, lex_leq_fn()),
            forall|i: int, j: int|
                0 <= i < out@.len() && 0 <= j < polygon@.len() ==> lex_leq(
                    #[trigger] out@[i],
                    #[trigger] polygon@[j],
                ),
        decreases polygon@.len(),
    {
        let ghost before_out = out@;
        let ghost before_poly = polygon@;
        let mut m: usize = 0;
        let mut k: usize = 1;
        while k < polygon.len()
            invariant
                polygon@.len() > 0,
                m < polygon@.len(),
                k <= polygon@.len(),
                forall|j: int| 0 <= j < k ==> lex_leq(polygon@[m as int], #[trigger] polygon@[j]),
            decreases polygon@.len() - k,
        {
            if lex_leq_exec(polygon[k], polygon[m]) {
                m = k;
            }
            k = k + 1;
        }
        let x = polygon.remove(m);
        out.push(x);
        proof {
            broadcast use vstd::seq_lib::group_to_multiset_ensures;
            broadcast use vstd::multiset::group_multiset_axioms;

            before_poly.remove_ensures(m as int);
            assert(polygon@ == before_poly.remove(m as int));
            assert(before_poly.remove(m as int).to_multiset() == before_poly.to_multiset().remove(
                before_poly[m as int],
            ));
            assert(out@ == before_out.push(x));
            assert(before_out.push(x).to_multiset() == before_out.to_multiset().insert(x));
            assert(before_poly.to_multiset().count(x) > 0) by {
                assert(before_poly[m as int] == x);
                assert(before_poly.contains(x));
            }
            assert(out@.to_multiset().add(polygon@.to_multiset()) =~= original.to_multiset());
            assert forall|i: int, j: int|
                0 <= i < out@.len() && 0 <= j < polygon@.len() implies lex_leq(
                #[trigger] out@[i],
                #[trigger] polygon@[j],
            ) by {
                if j < m {
                    assert(polygon@[j] == before_poly[j]);
                } else {
                    assert(polygon@[j] == before_poly[j + 1]);
                }
                if i < before_out.len() {
                    assert(out@[i] == before_out[i]);
                } else {
                    assert(out@[i] == x);
                }
            }
        }
    }
    *polygon = out;
    proof {
        lemma_lex_leq_total_ordering();
        original.lemma_sort_by_ensures(lex_leq_fn());
        assert(polygon@.to_multiset() =~= original.to_multiset());
        vstd::seq_lib::lemma_sorted_unique(polygon@, lex_sorted_of(original), lex_leq_fn());
    }
}

} // verus!
