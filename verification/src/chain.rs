//! The monotone-chain sweep: a lower chain built left to right over the
//! sorted points and an upper chain built right to left on top of it.
//!
//! Both sweeps keep a stack of accepted points.  Before a candidate is
//! pushed, stacked points are discarded while the top two together with the
//! candidate fail to make a strict left turn; the upper sweep additionally
//! never discards below a floor that protects the completed lower chain.
//! The executable functions are proved to compute exactly the recursive
//! specification `lower_chain` / `upper_chain` of that process.

use vstd::prelude::*;

use crate::point::{cross3, invalid_orientation, invalid_turn, Point};

verus! {

/// The stack after discarding: while it may still shrink (length at least
/// `keep`) and its top two points together with the candidate `p` make an
/// invalid turn, the top point is discarded.
pub open spec fn shave(acc: Seq<Point>, keep: int, p: Point) -> Seq<Point>
    decreases acc.len(),
{
    if acc.len() >= keep && acc.len() >= 2 && invalid_turn(
        acc[acc.len() - 2],
        acc[acc.len() - 1],
        p,
    ) {
        shave(acc.drop_last(), keep, p)
    } else {
        acc
    }
}

/// The stack after the left-to-right sweep has consumed `s[i..]`, starting
/// from stack `acc`.  A point equal to its immediate predecessor in `s` is
/// skipped; any other point is pushed after discarding invalid turns.
pub open spec fn lower_from(acc: Seq<Point>, s: Seq<Point>, i: int) -> Seq<Point>
    decreases s.len() - i,
{
    if i >= s.len() {
        acc
    } else if i > 0 && s[i] == s[i - 1] {
        lower_from(acc, s, i + 1)
    } else {
        lower_from(shave(acc, 2, s[i]).push(s[i]), s, i + 1)
    }
}

/// The completed lower chain of the sorted sequence `s`.
pub open spec fn lower_chain(s: Seq<Point>) -> Seq<Point> {
    lower_from(Seq::<Point>::empty(), s, 0)
}

/// The stack after the right-to-left sweep has consumed `s[..=i]`, starting
/// from stack `acc` and never discarding below length `keep - 1`.  A point
/// equal to its immediate right-hand neighbour in `s` is skipped.
pub open spec fn upper_from(acc: Seq<Point>, s: Seq<Point>, keep: int, i: int) -> Seq<Point>
    decreases i + 1,
{
    if i < 0 {
        acc
    } else if s[i] == s[i + 1] {
        upper_from(acc, s, keep, i - 1)
    } else {
        upper_from(shave(acc, keep, s[i]).push(s[i]), s, keep, i - 1)
    }
}

/// The full candidate boundary: the upper sweep runs over `s[..=len-2]` on
/// top of the lower chain, with the lower chain as its floor, and the last
/// pushed point (the sweep's return to the start) is removed.
pub open spec fn upper_chain(lower: Seq<Point>, s: Seq<Point>) -> Seq<Point> {
    upper_from(lower, s, lower.len() + 1 as int, s.len() - 2 as int).drop_last()
}

/// Every three consecutive stack entries from position `lo` on make a
/// strict left turn.
pub open spec fn chain_ccw(r: Seq<Point>, lo: int) -> bool {
    forall|j: int|
        lo <= j < r.len() && 2 <= j ==> cross3(#[trigger] r[j - 2], r[j - 1], r[j]) > 0
}

/// `chain_ccw` instantiated at one position.
pub proof fn lemma_chain_ccw_at(r: Seq<Point>, lo: int, j: int)
    requires
        chain_ccw(r, lo),
        lo <= j < r.len(),
        2 <= j,
    ensures
        cross3(r[j - 2], r[j - 1], r[j]) > 0,
{
}

/// What discarding does to the stack: it leaves a prefix, it never shrinks
/// below `keep - 1`, and if it stops while still free to shrink then the
/// surviving top two make a strict left turn with the candidate.
pub proof fn lemma_shave_props(acc: Seq<Point>, keep: int, p: Point)
    requires
        keep >= 2,
    ensures
        shave(acc, keep, p).len() <= acc.len(),
        shave(acc, keep, p) == acc.take(shave(acc, keep, p).len() as int),
        acc.len() >= keep - 1 ==> shave(acc, keep, p).len() >= keep - 1,
        shave(acc, keep, p).len() >= keep ==> cross3(
            shave(acc, keep, p)[shave(acc, keep, p).len() - 2],
            shave(acc, keep, p)[shave(acc, keep, p).len() - 1],
            p,
        ) > 0,
    decreases acc.len(),
{
    if acc.len() >= keep && acc.len() >= 2 && invalid_turn(
        acc[acc.len() - 2],
        acc[acc.len() - 1],
        p,
    ) {
        lemma_shave_props(acc.drop_last(), keep, p);
        let l = shave(acc, keep, p).len() as int;
        assert(acc.drop_last().take(l) =~= acc.take(l));
    } else {
        assert(acc.take(acc.len() as int) =~= acc);
    }
}

/// The left-to-right sweep preserves the strict-left-turn shape of the
/// stack, draws every stack entry from the initial stack or from `s`, and
/// never empties a stack that held a point.
pub proof fn lemma_lower_from_props(acc: Seq<Point>, s: Seq<Point>, i: int)
    requires
        i >= 0,
        chain_ccw(acc, 2),
    ensures
        chain_ccw(lower_from(acc, s, i), 2),
        forall|k: int|
            0 <= k < lower_from(acc, s, i).len() ==> acc.contains(
                #[trigger] lower_from(acc, s, i)[k],
            ) || s.contains(lower_from(acc, s, i)[k]),
        acc.len() >= 1 ==> lower_from(acc, s, i).len() >= 1,
        i == 0 && s.len() >= 1 ==> lower_from(acc, s, i).len() >= 1,
    decreases s.len() - i,
{
    if i >= s.len() {
    } else if i > 0 && s[i] == s[i - 1] {
        lemma_lower_from_props(acc, s, i + 1);
    } else {
        lemma_shave_props(acc, 2, s[i]);
        let sh = shave(acc, 2, s[i]);
        let acc2 = sh.push(s[i]);
        assert forall|j: int| 2 <= j < acc2.len() implies cross3(
            #[trigger] acc2[j - 2],
            acc2[j - 1],
            acc2[j],
        ) > 0 by {
            if j < acc2.len() - 1 {
                assert(acc2[j - 2] == acc[j - 2] && acc2[j - 1] == acc[j - 1] && acc2[j] == acc[j]);
            }
        }
        lemma_lower_from_props(acc2, s, i + 1);
        assert forall|k: int| 0 <= k < lower_from(acc, s, i).len() implies acc.contains(
            #[trigger] lower_from(acc, s, i)[k],
        ) || s.contains(lower_from(acc, s, i)[k]) by {
            let x = lower_from(acc, s, i)[k];
            assert(lower_from(acc, s, i) == lower_from(acc2, s, i + 1));
            if acc2.contains(x) {
                let m = choose|m: int| 0 <= m < acc2.len() && acc2[m] == x;
                if m < sh.len() {
                    assert(acc[m] == x);
                    assert(acc.contains(x));
                } else {
                    assert(x == s[i]);
                    assert(s.contains(x));
                }
            }
        }
    }
}

/// The left-to-right sweep never disturbs the bottom of a nonempty stack.
pub proof fn lemma_lower_from_first(acc: Seq<Point>, s: Seq<Point>, i: int)
    requires
        acc.len() >= 1,
    ensures
        lower_from(acc, s, i).len() >= 1,
        lower_from(acc, s, i)[0] == acc[0],
    decreases s.len() - i,
{
    if i >= s.len() {
    } else if i > 0 && s[i] == s[i - 1] {
        lemma_lower_from_first(acc, s, i + 1);
    } else {
        lemma_shave_props(acc, 2, s[i]);
        let sh = shave(acc, 2, s[i]);
        let acc2 = sh.push(s[i]);
        assert(sh.len() >= 1);
        assert(acc2[0] == acc[0]);
        lemma_lower_from_first(acc2, s, i + 1);
    }
}

/// The lower chain of a nonempty sorted sequence starts at its first
/// point.
pub proof fn lemma_lower_chain_first(s: Seq<Point>)
    requires
        s.len() >= 1,
    ensures
        lower_chain(s).len() >= 1,
        lower_chain(s)[0] == s[0],
{
    let e = Seq::<Point>::empty();
    assert(shave(e, 2, s[0]) == e);
    assert(lower_chain(s) == lower_from(e.push(s[0]), s, 1));
    lemma_lower_from_first(e.push(s[0]), s, 1);
}

/// The right-to-left sweep on top of a completed floor: the floor's prefix
/// survives untouched, every stack entry comes from the initial stack or
/// from `s`, and every triple above the floor makes a strict left turn.
pub proof fn lemma_upper_from_props(acc: Seq<Point>, s: Seq<Point>, keep: int, i: int)
    requires
        keep >= 2,
        acc.len() >= keep - 1,
        chain_ccw(acc, keep),
        i < s.len(),
    ensures
        upper_from(acc, s, keep, i).len() >= keep - 1,
        upper_from(acc, s, keep, i).take(keep - 1) == acc.take(keep - 1),
        chain_ccw(upper_from(acc, s, keep, i), keep),
        forall|k: int|
            0 <= k < upper_from(acc, s, keep, i).len() ==> acc.contains(
                #[trigger] upper_from(acc, s, keep, i)[k],
            ) || s.contains(upper_from(acc, s, keep, i)[k]),
    decreases i + 1,
{
    if i < 0 {
    } else if s[i] == s[i + 1] {
        lemma_upper_from_props(acc, s, keep, i - 1);
    } else {
        lemma_shave_props(acc, keep, s[i]);
        let sh = shave(acc, keep, s[i]);
        let acc2 = sh.push(s[i]);
        assert(acc2.len() >= keep - 1);
        assert(acc2.take(keep - 1) =~= acc.take(keep - 1));
        assert forall|j: int| keep <= j < acc2.len() && 2 <= j implies cross3(
            #[trigger] acc2[j - 2],
            acc2[j - 1],
            acc2[j],
        ) > 0 by {
            if j < acc2.len() - 1 {
                assert(acc2[j - 2] == acc[j - 2] && acc2[j - 1] == acc[j - 1] && acc2[j] == acc[j]);
            } else {
                assert(sh.len() >= keep);
            }
        }
        lemma_upper_from_props(acc2, s, keep, i - 1);
        assert(upper_from(acc, s, keep, i).take(keep - 1) =~= acc.take(keep - 1));
        assert forall|k: int| 0 <= k < upper_from(acc, s, keep, i).len() implies acc.contains(
            #[trigger] upper_from(acc, s, keep, i)[k],
        ) || s.contains(upper_from(acc, s, keep, i)[k]) by {
            let x = upper_from(acc, s, keep, i)[k];
            assert(upper_from(acc, s, keep, i) == upper_from(acc2, s, keep, i - 1));
            if acc2.contains(x) {
                let m = choose|m: int| 0 <= m < acc2.len() && acc2[m] == x;
                if m < sh.len() {
                    assert(acc[m] == x);
                    assert(acc.contains(x));
                } else {
                    assert(x == s[i]);
                    assert(s.contains(x));
                }
            }
        }
    }
}

/// Builds the lower chain of the sorted polygon, left to right.
pub fn lower_bound(polygon: &Vec<Point>) -> (result: Vec<Point>)
    ensures
        result@ == lower_chain(polygon@),
{
    let mut result: Vec<Point> = Vec::new();
    let size = polygon.len();
    let mut i: usize = 0;
    while i < size
        invariant
            size == polygon@.len(),
            i <= size,
            lower_from(result@, polygon@, i as int) == lower_chain(polygon@),
        decreases size - i,
    {
        if !(i > 0 && polygon[i] == polygon[i - 1]) {
            let p = polygon[i];
            let ghost entry = result@;
            while result.len() >= 2 && invalid_orientation(
                result[result.len() - 2],
                result[result.len() - 1],
                p,
            )
                invariant
                    shave(result@, 2, p) == shave(entry, 2, p),
                decreases result@.len(),
            {
                let ghost before = result@;
                result.pop();
                proof {
                    assert(result@ =~= before.drop_last());
                }
            }
            result.push(p);
            proof {
                assert(result@ == shave(entry, 2, p).push(polygon@[i as int]));
                assert(lower_from(entry, polygon@, i as int) == lower_from(
                    result@,
                    polygon@,
                    i as int + 1,
                ));
            }
        }
        i = i + 1;
    }
    result
}

/// Builds the upper chain right to left on top of the completed lower
/// chain, protecting the lower chain behind a floor, then removes the last
/// pushed point, which closes the loop back to the start.
pub fn upper_bound(result: Vec<Point>, polygon: Vec<Point>) -> (r: Vec<Point>)
    requires
        polygon@.len() >= 2,
        result@.len() >= 1,
    ensures
        r@ == upper_chain(result@, polygon@),
{
    let mut result = result;
    let ghost lower0 = result@;
    let size = polygon.len();
    let floor = result.len();
    let mut i: usize = size - 1;
    while i > 0
        invariant
            size == polygon@.len(),
            size >= 2,
            floor as int == lower0.len(),
            floor >= 1,
            i <= size - 1,
            result@.len() >= floor,
            upper_from(result@, polygon@, floor as int + 1, i as int - 1) == upper_from(
                lower0,
                polygon@,
                floor as int + 1,
                size as int - 2,
            ),
        decreases i,
    {
        i = i - 1;
        if !(polygon[i] == polygon[i + 1]) {
            let p = polygon[i];
            let ghost entry = result@;
            let mut result_size = result.len();
            while result_size > floor && invalid_orientation(
                result[result_size - 2],
                result[result_size - 1],
                p,
            )
                invariant
                    floor >= 1,
                    result_size == result@.len(),
                    result@.len() >= floor,
                    shave(result@, floor as int + 1, p) == shave(entry, floor as int + 1, p),
                decreases result_size,
            {
                let ghost before = result@;
                result.pop();
                result_size = result.len();
                proof {
                    assert(result@ =~= before.drop_last());
                }
            }
            result.push(p);
            proof {
                assert(result@ == shave(entry, floor as int + 1, p).push(polygon@[i as int]));
                assert(upper_from(entry, polygon@, floor as int + 1, i as int) == upper_from(
                    result@,
                    polygon@,
                    floor as int + 1,
                    i as int - 1,
                ));
            }
        }
    }
    result.pop();
    result
}

} // verus!
