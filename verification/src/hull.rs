//! The hull orchestrator: input validation, sweep, degeneracy detection.
//!
//! A candidate boundary with fewer than three vertices means the distinct
//! input points were collinear (in any orientation) and the true hull has
//! zero area; the result is then the empty sequence.  The axis-aligned
//! detectors additionally suppress a boundary lying on one horizontal or
//! one vertical line, as a final guard.

use vstd::prelude::*;
use vstd::string::StringExecFns;

use crate::chain::{
    lemma_chain_ccw_at, lemma_lower_chain_first, lemma_lower_from_props, lemma_upper_from_props,
    lower_bound, lower_chain, lower_from, shave, upper_chain, upper_from, upper_bound,
};
use crate::point::{cross3, invalid_turn, lex_leq, lex_leq_fn, Point};
use crate::sort::{lemma_lex_sorted_of_multiset, lex_sorted_of, sort_polygon_ccw};

verus! {

/// Every point of the sequence lies on one horizontal line.
pub open spec fn all_same_y(p: Seq<Point>) -> bool {
    forall|i: int| 0 <= i < p.len() ==> #[trigger] p[i].y == p[0].y
}

/// Every point of the sequence lies on one vertical line.
pub open spec fn all_same_x(p: Seq<Point>) -> bool {
    forall|i: int| 0 <= i < p.len() ==> #[trigger] p[i].x == p[0].x
}

fn is_horizontal_colinear(polygon: &Vec<Point>) -> (r: bool)
    requires
        polygon@.len() >= 1,
    ensures
        r == all_same_y(polygon@),
{
    let origin_y = polygon[0].y;
    let mut colinear = true;
    let mut i: usize = 1;
    while i < polygon.len()
        invariant
            polygon@.len() >= 1,
            1 <= i <= polygon@.len(),
            origin_y == polygon@[0].y,
            colinear == (forall|j: int| 0 <= j < i ==> #[trigger] polygon@[j].y == polygon@[0].y),
        decreases polygon@.len() - i,
    {
        if polygon[i].y != origin_y {
            colinear = false;
        }
        i = i + 1;
    }
    colinear
}

fn is_vertical_colinear(polygon: &Vec<Point>) -> (r: bool)
    requires
        polygon@.len() >= 1,
    ensures
        r == all_same_x(polygon@),
{
    let origin_x = polygon[0].x;
    let mut colinear = true;
    let mut i: usize = 1;
    while i < polygon.len()
        invariant
            polygon@.len() >= 1,
            1 <= i <= polygon@.len(),
            origin_x == polygon@[0].x,
            colinear == (forall|j: int| 0 <= j < i ==> #[trigger] polygon@[j].x == polygon@[0].x),
        decreases polygon@.len() - i,
    {
        if polygon[i].x != origin_x {
            colinear = false;
        }
        i = i + 1;
    }
    colinear
}

/// The decimal digit `d` as a character.
pub open spec fn digit_char(d: nat) -> char {
    if d == 0 {
        '0'
    } else if d == 1 {
        '1'
    } else if d == 2 {
        '2'
    } else if d == 3 {
        '3'
    } else if d == 4 {
        '4'
    } else if d == 5 {
        '5'
    } else if d == 6 {
        '6'
    } else if d == 7 {
        '7'
    } else if d == 8 {
        '8'
    } else {
        '9'
    }
}

/// The decimal digits of `n`, most significant first.
pub open spec fn dec_digits(n: nat) -> Seq<char>
    decreases n,
{
    if n < 10 {
        seq![digit_char(n)]
    } else {
        dec_digits(n / 10).push(digit_char(n % 10))
    }
}

/// The text reported when the input holds fewer than three points:
/// `only {n} Point(s), should be at least 3`.
pub open spec fn insufficient_message(n: nat) -> Seq<char> {
    "only "@ + dec_digits(n) + " Point(s), should be at least 3"@
}

fn digit_literal(d: usize) -> (r: &'static str)
    requires
        d < 10,
    ensures
        r@ == seq![digit_char(d as nat)],
{
    proof {
        reveal_strlit("0");
        reveal_strlit("1");
        reveal_strlit("2");
        reveal_strlit("3");
        reveal_strlit("4");
        reveal_strlit("5");
        reveal_strlit("6");
        reveal_strlit("7");
        reveal_strlit("8");
        reveal_strlit("9");
    }
    let r: &'static str = match d {
        0 => "0",
        1 => "1",
        2 => "2",
        3 => "3",
        4 => "4",
        5 => "5",
        6 => "6",
        7 => "7",
        8 => "8",
        _ => "9",
    };
    proof {
        assert(r@ =~= seq![digit_char(d as nat)]);
    }
    r
}

fn usize_to_string(n: usize) -> (s: String)
    ensures
        s@ == dec_digits(n as nat),
    decreases n,
{
    if n < 10 {
        let mut s = String::new();
        s.append(digit_literal(n));
        proof {
            assert(s@ =~= dec_digits(n as nat));
        }
        s
    } else {
        let mut s = usize_to_string(n / 10);
        s.append(digit_literal(n % 10));
        proof {
            assert(s@ =~= dec_digits(n as nat));
        }
        s
    }
}

fn insufficient_points_message(n: usize) -> (s: String)
    ensures
        s@ == insufficient_message(n as nat),
{
    let mut s = String::new();
    s.append("only ");
    let digits = usize_to_string(n);
    s.append(digits.as_str());
    s.append(" Point(s), should be at least 3");
    proof {
        assert(s@ =~= insufficient_message(n as nat));
    }
    s
}

/// The candidate boundary the two sweeps produce over a sorted sequence.
pub open spec fn hull_candidate(s: Seq<Point>) -> Seq<Point> {
    upper_chain(lower_chain(s), s)
}

/// The hull of the points of `s`: the candidate boundary of the sorted
/// arrangement, or the empty sequence when the candidate is degenerate
/// (fewer than three vertices, or all on one horizontal or vertical line).
pub open spec fn hull_of(s: Seq<Point>) -> Seq<Point> {
    let c = hull_candidate(lex_sorted_of(s));
    if c.len() < 3 || all_same_y(c) || all_same_x(c) {
        Seq::<Point>::empty()
    } else {
        c
    }
}

/// Any three of the points are collinear: the whole set lies on one line,
/// of any orientation.
pub open spec fn all_collinear(s: Seq<Point>) -> bool {
    forall|i: int, j: int, k: int|
        0 <= i < s.len() && 0 <= j < s.len() && 0 <= k < s.len() ==> cross3(
            #[trigger] s[i],
            #[trigger] s[j],
            #[trigger] s[k],
        ) == 0
}

/// Three points whose cyclic consecutive triples all turn strictly left:
/// a counter-clockwise triangle.
pub open spec fn is_ccw_triangle(t: Seq<Point>) -> bool {
    t.len() == 3 && cross3(t[0], t[1], t[2]) > 0 && cross3(t[1], t[2], t[0]) > 0 && cross3(
        t[2],
        t[0],
        t[1],
    ) > 0
}

proof fn lemma_all_collinear_contains(s: Seq<Point>, a: Point, b: Point, c: Point)
    requires
        all_collinear(s),
        s.contains(a),
        s.contains(b),
        s.contains(c),
    ensures
        cross3(a, b, c) == 0,
{
    let i = choose|i: int| 0 <= i < s.len() && s[i] == a;
    let j = choose|j: int| 0 <= j < s.len() && s[j] == b;
    let k = choose|k: int| 0 <= k < s.len() && s[k] == c;
    assert(cross3(s[i], s[j], s[k]) == 0);
}

/// A collinear point set, in any orientation, has the empty hull: the
/// sweeps collapse its boundary to at most two points.
pub proof fn lemma_hull_of_collinear(s: Seq<Point>)
    requires
        s.len() >= 1,
        all_collinear(s),
    ensures
        hull_of(s) == Seq::<Point>::empty(),
{
    broadcast use vstd::seq_lib::group_to_multiset_ensures;

    crate::point::lemma_lex_leq_total_ordering();
    s.lemma_sort_by_ensures(crate::point::lex_leq_fn());
    let t = lex_sorted_of(s);
    s.to_multiset_ensures();
    t.to_multiset_ensures();
    assert(t.len() == s.len());
    assert forall|x: Point| t.contains(x) implies s.contains(x) by {
        assert(t.to_multiset().count(x) > 0);
        assert(s.to_multiset().count(x) > 0);
    }
    let empty = Seq::<Point>::empty();
    let f = lower_chain(t);
    lemma_lower_from_props(empty, t, 0);
    assert(f.len() >= 1);
    assert forall|k: int| 0 <= k < f.len() implies s.contains(#[trigger] f[k]) by {
        assert(empty.contains(f[k]) || t.contains(f[k]));
    }
    if f.len() >= 3 {
        lemma_chain_ccw_at(f, 2, 2);
        lemma_all_collinear_contains(s, f[0], f[1], f[2]);
        assert(false);
    }
    let keep: int = f.len() + 1 as int;
    let u = upper_from(f, t, keep, t.len() - 2);
    lemma_upper_from_props(f, t, keep, t.len() - 2);
    assert forall|k: int| 0 <= k < u.len() implies s.contains(#[trigger] u[k]) by {
        assert(f.contains(u[k]) || t.contains(u[k]));
        if f.contains(u[k]) {
            let m = choose|m: int| 0 <= m < f.len() && f[m] == u[k];
            assert(s.contains(f[m]));
        }
    }
    if u.len() >= keep + 1 {
        lemma_chain_ccw_at(u, keep, keep);
        lemma_all_collinear_contains(s, u[keep - 2], u[keep - 1], u[keep]);
        assert(false);
    }
    let c = upper_chain(f, t);
    assert(c == u.drop_last());
    assert(c.len() <= 2);
    assert(hull_of(s) == Seq::<Point>::empty());
}

/// Three points not on one line form their own hull: the result holds
/// exactly those three points, as a counter-clockwise triangle.
pub proof fn lemma_hull_of_triangle(s: Seq<Point>)
    requires
        s.len() == 3,
        cross3(s[0], s[1], s[2]) != 0,
    ensures
        hull_of(s).to_multiset() == s.to_multiset(),
        is_ccw_triangle(hull_of(s)),
{
    broadcast use vstd::seq_lib::group_to_multiset_ensures;
    broadcast use vstd::multiset::group_multiset_axioms;

    crate::point::lemma_lex_leq_total_ordering();
    s.lemma_sort_by_ensures(crate::point::lex_leq_fn());
    let t = lex_sorted_of(s);
    s.to_multiset_ensures();
    t.to_multiset_ensures();
    assert(t.len() == 3);

    let a = s[0];
    let b = s[1];
    let c = s[2];
    // a repeated point would make the triple collinear, so a, b, c are
    // pairwise distinct
    crate::point::lemma_cross3_degenerate(a, c);
    crate::point::lemma_cross3_degenerate(a, b);
    assert(a != b && b != c && a != c);
    assert(s.no_duplicates());
    s.lemma_multiset_has_no_duplicates();
    t.lemma_multiset_has_no_duplicates_conv();
    assert(t.no_duplicates());

    // the sorted points are the same three points, in some order
    assert forall|k: int| 0 <= k < 3 implies (t[k] == a || t[k] == b || t[k] == c) by {
        assert(t.contains(t[k]));
        assert(t.to_multiset().count(t[k]) > 0);
        assert(s.to_multiset().count(t[k]) > 0);
        assert(s.contains(t[k]));
        let m = choose|m: int| 0 <= m < s.len() && s[m] == t[k];
        assert(m == 0 || m == 1 || m == 2);
    }
    let q0 = t[0];
    let q1 = t[1];
    let q2 = t[2];
    // the signed area of the sorted triple is that of the input triple up
    // to sign, hence nonzero
    crate::point::lemma_cross3_rotate(a, b, c);
    crate::point::lemma_cross3_rotate(b, c, a);
    crate::point::lemma_cross3_swap(a, b, c);
    crate::point::lemma_cross3_reverse(a, b, c);
    crate::point::lemma_cross3_reverse(c, a, b);
    let y = cross3(q0, q1, q2);
    assert(y != 0);

    // the lower sweep over [q0, q1, q2]
    let e = Seq::<Point>::empty();
    assert(shave(e, 2, q0) == e);
    let l1 = e.push(q0);
    assert(lower_from(e, t, 0) == lower_from(l1, t, 1));
    assert(shave(l1, 2, q1) == l1);
    let l2 = l1.push(q1);
    assert(lower_from(l1, t, 1) == lower_from(l2, t, 2));
    assert(l2[0] == q0 && l2[1] == q1 && l2.len() == 2);
    crate::point::lemma_cross3_reverse(q0, q1, q2);
    crate::point::lemma_cross3_swap(q0, q1, q2);
    if y > 0 {
        // q1 joins the lower chain; the upper sweep closes the loop
        assert(!invalid_turn(q0, q1, q2));
        assert(shave(l2, 2, q2) == l2);
        let l3 = l2.push(q2);
        assert(lower_from(l2, t, 2) == lower_from(l3, t, 3));
        assert(lower_from(l3, t, 3) == l3);
        assert(lower_chain(t) == l3);
        assert(l3.len() == 3 && l3[0] == q0 && l3[1] == q1 && l3[2] == q2);

        assert(upper_chain(l3, t) == upper_from(l3, t, 4, 1).drop_last());
        assert(shave(l3, 4, q1) == l3);
        let u4 = l3.push(q1);
        assert(upper_from(l3, t, 4, 1) == upper_from(u4, t, 4, 0));
        assert(u4.len() == 4 && u4[2] == q2 && u4[3] == q1);
        assert(invalid_turn(q2, q1, q0));
        assert(u4.drop_last() =~= l3);
        assert(shave(u4, 4, q0) == shave(l3, 4, q0));
        assert(shave(l3, 4, q0) == l3);
        let u5 = l3.push(q0);
        assert(upper_from(u4, t, 4, 0) == upper_from(u5, t, 4, -1));
        assert(upper_from(u5, t, 4, -1) == u5);
        assert(u5.drop_last() =~= l3);
        assert(hull_candidate(t) == l3);

        assert(!all_same_y(l3)) by {
            if all_same_y(l3) {
                assert(l3[1].y == l3[0].y);
                assert(l3[2].y == l3[0].y);
                assert(cross3(q0, q1, q2) == 0);
            }
        }
        assert(!all_same_x(l3)) by {
            if all_same_x(l3) {
                assert(l3[1].x == l3[0].x);
                assert(l3[2].x == l3[0].x);
                assert(cross3(q0, q1, q2) == 0);
            }
        }
        assert(hull_of(s) == l3);
        assert(l3 =~= t);
        crate::point::lemma_cross3_rotate(q0, q1, q2);
        crate::point::lemma_cross3_rotate(q1, q2, q0);
        assert(is_ccw_triangle(l3));
    } else {
        // q1 is pruned from the lower chain and joins the upper chain
        assert(invalid_turn(q0, q1, q2));
        assert(l2.drop_last() =~= l1);
        assert(shave(l2, 2, q2) == shave(l1, 2, q2));
        assert(shave(l1, 2, q2) == l1);
        let l3 = l1.push(q2);
        assert(lower_from(l2, t, 2) == lower_from(l3, t, 3));
        assert(lower_from(l3, t, 3) == l3);
        assert(lower_chain(t) == l3);
        assert(l3.len() == 2 && l3[0] == q0 && l3[1] == q2);

        assert(upper_chain(l3, t) == upper_from(l3, t, 3, 1).drop_last());
        assert(shave(l3, 3, q1) == l3);
        let u3 = l3.push(q1);
        assert(upper_from(l3, t, 3, 1) == upper_from(u3, t, 3, 0));
        assert(u3.len() == 3 && u3[1] == q2 && u3[2] == q1);
        assert(cross3(q2, q1, q0) == -y);
        assert(!invalid_turn(q2, q1, q0));
        assert(shave(u3, 3, q0) == u3);
        let u4 = u3.push(q0);
        assert(upper_from(u3, t, 3, 0) == upper_from(u4, t, 3, -1));
        assert(upper_from(u4, t, 3, -1) == u4);
        assert(u4.drop_last() =~= u3);
        assert(hull_candidate(t) == u3);

        assert(cross3(q0, q2, q1) == -y);
        assert(!all_same_y(u3)) by {
            if all_same_y(u3) {
                assert(u3[1].y == u3[0].y);
                assert(u3[2].y == u3[0].y);
                assert(cross3(q0, q2, q1) == 0);
            }
        }
        assert(!all_same_x(u3)) by {
            if all_same_x(u3) {
                assert(u3[1].x == u3[0].x);
                assert(u3[2].x == u3[0].x);
                assert(cross3(q0, q2, q1) == 0);
            }
        }
        assert(hull_of(s) == u3);
        assert(t =~= e.push(q0).push(q1).push(q2));
        assert(u3 == e.push(q0).push(q2).push(q1));
        assert(u3.to_multiset() =~= t.to_multiset());
        crate::point::lemma_cross3_rotate(q0, q2, q1);
        crate::point::lemma_cross3_rotate(q2, q1, q0);
        assert(is_ccw_triangle(u3));
    }
}

/// A counter-clockwise triangle is its own hull: the triangle case of
/// idempotence.  (A degenerate result is empty, and rerunning on an empty
/// input is rejected outright, so no loop arises there.)
pub proof fn lemma_hull_of_triangle_idempotent(h: Seq<Point>)
    requires
        is_ccw_triangle(h),
    ensures
        hull_of(h).to_multiset() == h.to_multiset(),
        is_ccw_triangle(hull_of(h)),
{
    lemma_hull_of_triangle(h);
}

/// The hull depends only on which points appear and how often: inputs
/// holding the same multiset of points have identical hulls, whatever the
/// order the points arrive in.
pub proof fn lemma_hull_permutation_invariant(s1: Seq<Point>, s2: Seq<Point>)
    requires
        s1.to_multiset() == s2.to_multiset(),
    ensures
        hull_of(s1) == hull_of(s2),
{
    lemma_lex_sorted_of_multiset(s1, s2);
}

/// Computes the convex hull of the given points.
///
/// Fewer than three points cannot bound a polygon: the call fails with the
/// exact count.  Otherwise the result is the hull boundary in
/// counter-clockwise order starting at the lexicographically smallest
/// vertex, each vertex drawn verbatim from the input; it is empty exactly
/// when the distinct input points are collinear.
pub fn convex_hull(polygon: Vec<Point>) -> (r: Result<Vec<Point>, String>)
    ensures
        r is Err <==> polygon@.len() <= 2,
        r matches Err(m) ==> m@ == insufficient_message(polygon@.len() as nat),
        r matches Ok(h) ==> h@ == hull_of(polygon@),
        r matches Ok(h) ==> h@.len() == 0 || h@.len() >= 3,
        r matches Ok(h) ==> forall|k: int|
            0 <= k < h@.len() ==> polygon@.contains(#[trigger] h@[k]),
        polygon@.len() >= 3 && all_collinear(polygon@) ==> (r is Ok && r->Ok_0@.len() == 0),
        polygon@.len() == 3 && cross3(polygon@[0], polygon@[1], polygon@[2]) != 0 ==> (r is Ok
            && r->Ok_0@.to_multiset() == polygon@.to_multiset() && is_ccw_triangle(r->Ok_0@)),
        r matches Ok(h) ==> forall|k: int|
            0 <= k < polygon@.len() && h@.len() > 0 ==> lex_leq(h@[0], #[trigger] polygon@[k]),
{
    broadcast use vstd::seq_lib::group_to_multiset_ensures;

    let ghost input = polygon@;
    let mut polygon = polygon;
    if polygon.len() <= 2 {
        return Err(insufficient_points_message(polygon.len()));
    }
    sort_polygon_ccw(&mut polygon);
    let ghost t = polygon@;
    proof {
        t.to_multiset_ensures();
        input.to_multiset_ensures();
        assert(t.len() == input.len());
    }
    let result: Vec<Point> = lower_bound(&polygon);
    proof {
        lemma_lower_from_props(Seq::<Point>::empty(), t, 0);
    }
    let result: Vec<Point> = upper_bound(result, polygon);
    proof {
        lemma_upper_from_props(lower_chain(t), t, lower_chain(t).len() + 1 as int, t.len() - 2 as int);
        assert(result@ == hull_candidate(t));
        assert forall|x: Point| t.contains(x) implies input.contains(x) by {
            assert(t.to_multiset().count(x) > 0);
            assert(input.to_multiset().count(x) > 0);
        }
        assert forall|k: int| 0 <= k < result@.len() implies input.contains(
            #[trigger] result@[k],
        ) by {
            let u = upper_from(lower_chain(t), t, lower_chain(t).len() + 1 as int, t.len() - 2 as int);
            assert(result@[k] == u[k]);
            assert(lower_chain(t).contains(u[k]) || t.contains(u[k]));
            if lower_chain(t).contains(u[k]) {
                let m = choose|m: int| 0 <= m < lower_chain(t).len() && lower_chain(t)[m] == u[k];
                assert(Seq::<Point>::empty().contains(u[k]) || t.contains(u[k]));
            }
        }
    }
    if result.len() < 3 || is_horizontal_colinear(&result) || is_vertical_colinear(&result) {
        proof {
            assert(hull_of(input) == Seq::<Point>::empty());
            if input.len() >= 3 && all_collinear(input) {
                lemma_hull_of_collinear(input);
            }
            if input.len() == 3 && cross3(input[0], input[1], input[2]) != 0 {
                lemma_hull_of_triangle(input);
                assert(false);
            }
        }
        return Ok(Vec::new());
    }
    proof {
        assert(hull_of(input) == result@);
        if input.len() >= 3 && all_collinear(input) {
            lemma_hull_of_collinear(input);
            assert(false);
        }
        if input.len() == 3 && cross3(input[0], input[1], input[2]) != 0 {
            lemma_hull_of_triangle(input);
        }
        lemma_lower_chain_first(t);
        let f = lower_chain(t).len() as int;
        let u = upper_from(lower_chain(t), t, f + 1, t.len() - 2 as int);
        assert(u.take(f)[0] == lower_chain(t).take(f)[0]);
        assert(result@[0] == u[0]);
        assert(result@[0] == t[0]);
        assert forall|k: int| 0 <= k < input.len() implies lex_leq(result@[0], #[trigger] input[k]) by {
            let x = input[k];
            assert(input.contains(x));
            assert(input.to_multiset().count(x) > 0);
            assert(t.to_multiset().count(x) > 0);
            assert(t.contains(x));
            let j = choose|j: int| 0 <= j < t.len() && t[j] == x;
            if j > 0 {
                assert(lex_leq_fn()(t[0], t[j]));
            }
        }
    }
    Ok(result)
}

} // verus!
