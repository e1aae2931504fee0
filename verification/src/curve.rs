//! The lookup curve: an ordered list of knots, sampled by binary search and
//! per-segment interpolation, mutated in place while the sort order is kept.

use vstd::prelude::*;
use vstd::seq_lib::group_to_multiset_ensures;
use crate::knot::{corrected_left, corrected_right, knot_in_bounds, Knot, KnotInterpolation};
use crate::segment::{newton_result, CubicSegment};
use crate::units::{div_trunc, lemma_div_trunc_exact, lemma_div_trunc_le, KNOT_BOUND};
use crate::vec2::Vec2;

verus! {

/// Non-decreasing in x: the curve's sort invariant.
pub open spec fn sorted_by_x(s: Seq<Knot>) -> bool {
    forall|i: int, j: int|
        0 <= i <= j < s.len() ==> (#[trigger] s[i]).position.x <= (#[trigger] s[j]).position.x
}

/// Every knot within the coordinate bound.
pub open spec fn knots_in_bounds(s: Seq<Knot>) -> bool {
    forall|i: int| 0 <= i < s.len() ==> knot_in_bounds(#[trigger] s[i])
}

/// Insertion of `k` into `s` after every knot whose x does not exceed `k`'s:
/// the stable insertion position.
pub open spec fn sorted_insert(s: Seq<Knot>, k: Knot) -> Seq<Knot>
    decreases s.len(),
{
    if s.len() == 0 {
        seq![k]
    } else if s.last().position.x <= k.position.x {
        s.push(k)
    } else {
        sorted_insert(s.drop_last(), k).push(s.last())
    }
}

/// Stable insertion sort by x: knots of equal x keep their relative order.
pub open spec fn sort_knots(s: Seq<Knot>) -> Seq<Knot>
    decreases s.len(),
{
    if s.len() == 0 {
        Seq::empty()
    } else {
        sorted_insert(sort_knots(s.drop_last()), s.last())
    }
}

/// The partition point of `s` for `x`: how many leading knots have an x
/// strictly below `x`; on a sorted sequence, the first index whose knot's x
/// reaches `x`.
pub open spec fn partition_point_spec(s: Seq<Knot>, x: int) -> int
    decreases s.len(),
{
    if s.len() == 0 {
        0
    } else if s[0].position.x < x {
        1 + partition_point_spec(s.subrange(1, s.len() as int), x)
    } else {
        0
    }
}

/// Inserting keeps a sorted sequence sorted.
proof fn lemma_sorted_insert_sorted(s: Seq<Knot>, k: Knot)
    requires
        sorted_by_x(s),
    ensures
        sorted_by_x(sorted_insert(s, k)),
    decreases s.len(),
{
    if s.len() == 0 {
    } else if s.last().position.x <= k.position.x {
        let r = s.push(k);
        assert forall|i: int, j: int| 0 <= i <= j < r.len() implies
            (#[trigger] r[i]).position.x <= (#[trigger] r[j]).position.x by {
            if j < s.len() {
            } else {
                assert(r[j] == k);
                if i < s.len() {
                    assert(s[i].position.x <= s.last().position.x);
                }
            }
        }
    } else {
        assert(sorted_by_x(s.drop_last())) by {
            assert forall|i: int, j: int| 0 <= i <= j < s.drop_last().len() implies
                (#[trigger] s.drop_last()[i]).position.x
                    <= (#[trigger] s.drop_last()[j]).position.x by {
                assert(s.drop_last()[i] == s[i]);
                assert(s.drop_last()[j] == s[j]);
            }
        }
        lemma_sorted_insert_sorted(s.drop_last(), k);
        lemma_sorted_insert_elems(s.drop_last(), k);
        let q = sorted_insert(s.drop_last(), k);
        let r = q.push(s.last());
        assert forall|i: int, j: int| 0 <= i <= j < r.len() implies
            (#[trigger] r[i]).position.x <= (#[trigger] r[j]).position.x by {
            if j < q.len() {
            } else {
                assert(r[j] == s.last());
                if i < q.len() {
                    assert(q[i] == k || s.drop_last().contains(q[i]));
                    if q[i] == k {
                        assert(k.position.x < s.last().position.x);
                    } else {
                        let m = choose|m: int|
                            0 <= m < s.drop_last().len() && s.drop_last()[m] == q[i];
                        assert(s[m].position.x <= s.last().position.x);
                    }
                }
            }
        }
    }
}

/// Every element of an insertion is the inserted knot or one of the originals.
proof fn lemma_sorted_insert_elems(s: Seq<Knot>, k: Knot)
    ensures
        sorted_insert(s, k).len() == s.len() + 1,
        forall|i: int| 0 <= i < sorted_insert(s, k).len()
            ==> (#[trigger] sorted_insert(s, k)[i]) == k || s.contains(sorted_insert(s, k)[i]),
    decreases s.len(),
{
    if s.len() == 0 {
    } else if s.last().position.x <= k.position.x {
        assert forall|i: int| 0 <= i < sorted_insert(s, k).len() implies
            (#[trigger] sorted_insert(s, k)[i]) == k
                || s.contains(sorted_insert(s, k)[i]) by {
            if i < s.len() {
                assert(sorted_insert(s, k)[i] == s[i]);
            }
        }
    } else {
        lemma_sorted_insert_elems(s.drop_last(), k);
        let q = sorted_insert(s.drop_last(), k);
        assert forall|i: int| 0 <= i < q.push(s.last()).len() implies
            (#[trigger] q.push(s.last())[i]) == k || s.contains(q.push(s.last())[i]) by {
            if i < q.len() {
                assert(q.push(s.last())[i] == q[i]);
                if q[i] != k {
                    let m = choose|m: int|
                        0 <= m < s.drop_last().len() && s.drop_last()[m] == q[i];
                    assert(s[m] == q[i]);
                }
            } else {
                assert(q.push(s.last())[i] == s.last());
                assert(s.contains(s.last()));
            }
        }
    }
}

/// Sorting yields a sequence that is non-decreasing in x.
pub proof fn lemma_sort_knots_sorted(s: Seq<Knot>)
    ensures
        sorted_by_x(sort_knots(s)),
    decreases s.len(),
{
    if s.len() == 0 {
    } else {
        lemma_sort_knots_sorted(s.drop_last());
        lemma_sorted_insert_sorted(sort_knots(s.drop_last()), s.last());
    }
}

/// Insertion adds exactly the inserted knot to the contents.
proof fn lemma_sorted_insert_multiset(s: Seq<Knot>, k: Knot)
    ensures
        sorted_insert(s, k).to_multiset() == s.to_multiset().insert(k),
    decreases s.len(),
{
    broadcast use group_to_multiset_ensures;

    if s.len() == 0 {
        assert(seq![k] == Seq::<Knot>::empty().push(k));
        assert(Seq::<Knot>::empty().push(k).to_multiset() =~= Seq::<Knot>::empty()
            .to_multiset()
            .insert(k));
    } else if s.last().position.x <= k.position.x {
        assert(s.push(k).to_multiset() =~= s.to_multiset().insert(k));
    } else {
        lemma_sorted_insert_multiset(s.drop_last(), k);
        let q = sorted_insert(s.drop_last(), k);
        assert(q.push(s.last()).to_multiset() =~= q.to_multiset().insert(s.last()));
        assert(s.drop_last().push(s.last()) =~= s);
        assert(s.drop_last().push(s.last()).to_multiset() =~= s.drop_last()
            .to_multiset()
            .insert(s.last()));
        assert(q.push(s.last()).to_multiset() =~= s.to_multiset().insert(k)) by {
            assert(q.to_multiset() == s.drop_last().to_multiset().insert(k));
            assert(s.to_multiset() == s.drop_last().to_multiset().insert(s.last()));
            assert(s.drop_last().to_multiset().insert(k).insert(s.last()) =~= s.drop_last()
                .to_multiset()
                .insert(s.last())
                .insert(k));
        }
    }
}

/// Sorting permutes the knots: same contents, as a multiset.
pub proof fn lemma_sort_knots_multiset(s: Seq<Knot>)
    ensures
        sort_knots(s).to_multiset() == s.to_multiset(),
    decreases s.len(),
{
    broadcast use group_to_multiset_ensures;

    if s.len() == 0 {
    } else {
        lemma_sort_knots_multiset(s.drop_last());
        lemma_sorted_insert_multiset(sort_knots(s.drop_last()), s.last());
        assert(s.drop_last().push(s.last()) =~= s);
        assert(s.drop_last().push(s.last()).to_multiset() =~= s.drop_last()
            .to_multiset()
            .insert(s.last()));
    }
}

/// The knots that sit at one given x.
pub open spec fn at_x(x0: i64) -> spec_fn(Knot) -> bool {
    |k: Knot| k.position.x == x0
}

/// Inserting a knot leaves the knots at any one x in their old order, with
/// the new knot, if it sits there too, at their end.
proof fn lemma_sorted_insert_stable(s: Seq<Knot>, k: Knot, x0: i64)
    ensures
        sorted_insert(s, k).filter(at_x(x0)) == if k.position.x == x0 {
            s.filter(at_x(x0)).push(k)
        } else {
            s.filter(at_x(x0))
        },
    decreases s.len(),
{
    reveal_with_fuel(Seq::filter, 2);
    let p = at_x(x0);
    if s.len() == 0 {
        assert(seq![k].drop_last() =~= Seq::<Knot>::empty());
        assert(s =~= Seq::<Knot>::empty());
    } else if s.last().position.x <= k.position.x {
        let r = s.push(k);
        assert(r.drop_last() =~= s);
        assert(r.last() == k);
    } else {
        let q = sorted_insert(s.drop_last(), k);
        lemma_sorted_insert_stable(s.drop_last(), k, x0);
        let r = q.push(s.last());
        assert(r.drop_last() =~= q);
        assert(r.last() == s.last());
        if k.position.x == x0 {
            assert(!p(s.last()));
            assert(r.filter(p) == q.filter(p));
            assert(s.filter(p) == s.drop_last().filter(p));
        }
    }
}

/// The stability law: sorting leaves the knots at any one x exactly in their
/// original relative order.
pub proof fn lemma_sort_knots_stable(s: Seq<Knot>, x0: i64)
    ensures
        sort_knots(s).filter(at_x(x0)) == s.filter(at_x(x0)),
    decreases s.len(),
{
    reveal_with_fuel(Seq::filter, 1);
    let p = at_x(x0);
    if s.len() == 0 {
    } else {
        lemma_sort_knots_stable(s.drop_last(), x0);
        lemma_sorted_insert_stable(sort_knots(s.drop_last()), s.last(), x0);
        if p(s.last()) {
            assert(s.filter(p) == s.drop_last().filter(p).push(s.last()));
        } else {
            assert(s.filter(p) == s.drop_last().filter(p));
        }
    }
}

/// A sequence with the same contents as an in-bounds one is in bounds.
proof fn lemma_bounds_from_multiset(s1: Seq<Knot>, s2: Seq<Knot>)
    requires
        s1.to_multiset() == s2.to_multiset(),
        knots_in_bounds(s1),
    ensures
        knots_in_bounds(s2),
{
    broadcast use group_to_multiset_ensures;

    assert forall|i: int| 0 <= i < s2.len() implies knot_in_bounds(#[trigger] s2[i]) by {
        assert(s2.contains(s2[i]));
        assert(s2.to_multiset().count(s2[i]) > 0);
        assert(s1.contains(s2[i]));
        let m = choose|m: int| 0 <= m < s1.len() && s1[m] == s2[i];
        assert(knot_in_bounds(s1[m]));
    }
}

/// On a sorted sequence the partition point is the unique boundary index.
proof fn lemma_partition_point_unique(s: Seq<Knot>, x: int, i: int)
    requires
        0 <= i <= s.len(),
        forall|m: int| 0 <= m < i ==> (#[trigger] s[m]).position.x < x,
        forall|m: int| i <= m < s.len() ==> (#[trigger] s[m]).position.x >= x,
    ensures
        partition_point_spec(s, x) == i,
    decreases s.len(),
{
    if s.len() == 0 {
    } else if s[0].position.x < x {
        assert(i >= 1);
        let tail = s.subrange(1, s.len() as int);
        assert forall|m: int| 0 <= m < i - 1 implies (#[trigger] tail[m]).position.x < x by {
            assert(tail[m] == s[m + 1]);
        }
        assert forall|m: int| i - 1 <= m < tail.len() implies
            (#[trigger] tail[m]).position.x >= x by {
            assert(tail[m] == s[m + 1]);
        }
        lemma_partition_point_unique(tail, x, i - 1);
    } else {
        assert(i == 0);
    }
}

/// On a sorted sequence, stable insertion lands at the boundary index `j`:
/// after everything at or below `k`'s x, before everything above it.
proof fn lemma_sorted_insert_at(s: Seq<Knot>, k: Knot, j: int)
    requires
        sorted_by_x(s),
        0 <= j <= s.len(),
        forall|m: int| j <= m < s.len() ==> (#[trigger] s[m]).position.x > k.position.x,
        j > 0 ==> s[j - 1].position.x <= k.position.x,
    ensures
        sorted_insert(s, k) == s.insert(j, k),
    decreases s.len(),
{
    if s.len() == 0 {
        assert(sorted_insert(s, k) =~= s.insert(0, k));
    } else if s.last().position.x <= k.position.x {
        assert(j == s.len()) by {
            if j < s.len() {
                assert(s[s.len() - 1].position.x > k.position.x);
            }
        }
        assert(s.push(k) =~= s.insert(s.len() as int, k));
    } else {
        assert(j < s.len()) by {
            if j == s.len() {
                assert(s[j - 1].position.x <= k.position.x);
            }
        }
        let d = s.drop_last();
        assert(sorted_by_x(d)) by {
            assert forall|a: int, b: int| 0 <= a <= b < d.len() implies
                (#[trigger] d[a]).position.x <= (#[trigger] d[b]).position.x by {
                assert(d[a] == s[a]);
                assert(d[b] == s[b]);
            }
        }
        assert forall|m: int| j <= m < d.len() implies
            (#[trigger] d[m]).position.x > k.position.x by {
            assert(d[m] == s[m]);
        }
        lemma_sorted_insert_at(d, k, j);
        assert(sorted_insert(d, k).push(s.last()) =~= s.insert(j, k)) by {
            assert(d.insert(j, k).push(s.last()) =~= s.insert(j, k));
        }
    }
}

/// Linear interpolation between the positions of `a` and `b`, evaluated at
/// `x` and read off in y, by a single exact multiply-then-divide.
pub open spec fn lerp_y(a: Knot, b: Knot, x: int) -> int {
    a.position.y + div_trunc(
        (x - a.position.x) * (b.position.y - a.position.y),
        b.position.x - a.position.x,
    )
}

/// The cubic segment between knots `a` and `b`: control points are the two
/// positions and the two corrected tangent endpoints.
pub open spec fn bezier_segment(a: Knot, b: Knot) -> CubicSegment {
    let rt = corrected_right(a, Some(b));
    let lt = corrected_left(b, Some(a));
    let p0x = a.position.x as int;
    let p0y = a.position.y as int;
    let p1x = a.position.x + rt.0;
    let p1y = a.position.y + rt.1;
    let p2x = b.position.x + lt.0;
    let p2y = b.position.y + lt.1;
    let p3x = b.position.x as int;
    let p3y = b.position.y as int;
    CubicSegment {
        a: a.position,
        b: Vec2 { x: (3 * (p1x - p0x)) as i64, y: (3 * (p1y - p0y)) as i64 },
        c: Vec2 {
            x: (3 * (p2x - 2 * p1x + p0x)) as i64,
            y: (3 * (p2y - 2 * p1y + p0y)) as i64,
        },
        d: Vec2 {
            x: (p3x - 3 * p2x + 3 * p1x - p0x) as i64,
            y: (p3y - 3 * p2y + 3 * p1y - p0y) as i64,
        },
    }
}

/// The y that Newton inversion of the segment between `a` and `b` yields.
pub open spec fn bezier_y(a: Knot, b: Knot, x: int) -> int {
    newton_result(bezier_segment(a, b), x).1
}

/// What sampling the curve returns: 0 on an empty list, flat extrapolation
/// outside the knot range, and otherwise the bracketing segment's
/// interpolation at `x`.
pub open spec fn lookup_spec(s: Seq<Knot>, x: int) -> int
    recommends
        sorted_by_x(s),
{
    if s.len() == 0 {
        0
    } else if s.len() == 1 || x <= s[0].position.x {
        s[0].position.y as int
    } else if x >= s[s.len() - 1].position.x {
        s[s.len() - 1].position.y as int
    } else {
        let i = partition_point_spec(s, x) - 1;
        let a = s[i];
        let b = s[i + 1];
        match a.interpolation {
            KnotInterpolation::Constant => a.position.y as int,
            KnotInterpolation::Linear => lerp_y(a, b, x),
            KnotInterpolation::Bezier => bezier_y(a, b, x),
        }
    }
}

/// What modifying the knot at `i` to `v` yields: the new knot list and the
/// index at which `v` now resides. An unchanged position overwrites in place;
/// otherwise the knot moves to the partition point of `v`'s x, computed on
/// the list with the old value still in place and adjusted for the removal.
pub open spec fn modify_spec(s: Seq<Knot>, i: int, v: Knot) -> (Seq<Knot>, int)
    recommends
        0 <= i < s.len(),
{
    if s[i].position == v.position {
        (s.update(i, v), i)
    } else {
        let new_i = partition_point_spec(s, v.position.x as int);
        if new_i == i {
            (s.update(i, v), i)
        } else {
            let insert_i = if i < new_i {
                new_i - 1
            } else {
                new_i
            };
            (s.remove(i).insert(insert_i, v), insert_i)
        }
    }
}

/// A single-valued 2D curve that allows one y per x, held as a knot list
/// sorted ascending by x.
#[derive(Debug)]
pub struct LookupCurve {
    knots: Vec<Knot>,
}

impl View for LookupCurve {
    type V = Seq<Knot>;

    closed spec fn view(&self) -> Seq<Knot> {
        self.knots@
    }
}

impl LookupCurve {
    /// Sorted ascending by x, with every knot inside the coordinate bound.
    pub open spec fn wf(self) -> bool {
        &&& sorted_by_x(self@)
        &&& knots_in_bounds(self@)
    }

    /// Builds a curve from an arbitrary knot list, sorting it by x; knots of
    /// equal x keep their relative order.
    pub fn new(knots: Vec<Knot>) -> (curve: LookupCurve)
        requires
            knots_in_bounds(knots@),
        ensures
            curve@ == sort_knots(knots@),
            curve@.len() == knots@.len(),
            curve.wf(),
    {
        let ghost input = knots@;
        let mut result: Vec<Knot> = Vec::new();
        let mut idx: usize = 0;
        proof {
            assert(input.subrange(0, 0) =~= Seq::<Knot>::empty());
        }
        while idx < knots.len()
            invariant
                idx <= knots@.len(),
                knots@ == input,
                result@ == sort_knots(input.subrange(0, idx as int)),
                sorted_by_x(result@),
            decreases knots@.len() - idx,
        {
            let k = knots[idx];
            proof {
                let pre = input.subrange(0, idx as int);
                let post = input.subrange(0, idx as int + 1);
                assert(post.drop_last() =~= pre);
                assert(post.last() == input[idx as int]);
            }
            insert_in_order(&mut result, k);
            proof {
                lemma_sorted_insert_sorted(sort_knots(input.subrange(0, idx as int)), k);
            }
            idx += 1;
        }
        proof {
            broadcast use group_to_multiset_ensures;

            assert(input.subrange(0, input.len() as int) =~= input);
            lemma_sort_knots_sorted(input);
            lemma_sort_knots_multiset(input);
            lemma_bounds_from_multiset(input, sort_knots(input));
            assert(sort_knots(input).len() == sort_knots(input).to_multiset().len());
            assert(input.len() == input.to_multiset().len());
        }
        LookupCurve { knots: result }
    }

    /// Read-only view of the ordered knot list.
    pub fn knots(&self) -> (r: &[Knot])
        ensures
            r@ == self@,
    {
        self.knots.as_slice()
    }

    /// Find y given x: 0 on an empty curve, the nearest endpoint's y outside
    /// the knot range, and the bracketing segment's interpolation within it.
    pub fn find_y_given_x(&self, x: i64) -> (y: i64)
        requires
            self.wf(),
        ensures
            y == lookup_spec(self@, x as int),
            self@.len() == 0 ==> y == 0,
            self@.len() == 1 ==> y == self@[0].position.y,
            self@.len() >= 1 && x < self@[0].position.x ==> y == self@[0].position.y,
            self@.len() >= 1 && x > self@[self@.len() - 1].position.x
                ==> y == self@[self@.len() - 1].position.y,
    {
        // Return repeated constant values outside of the knot range.
        if self.knots.len() == 0 {
            return 0;
        }
        if self.knots.len() == 1 || x <= self.knots[0].position.x {
            return self.knots[0].position.y;
        }
        let last = self.knots.len() - 1;
        if x >= self.knots[last].position.x {
            return self.knots[last].position.y;
        }

        // Find the left knot of the bracketing segment.
        let i = partition_point_lt(&self.knots, x) - 1;
        let knot_a = self.knots[i];

        match knot_a.interpolation {
            KnotInterpolation::Constant => knot_a.position.y,
            KnotInterpolation::Linear => {
                let knot_b = self.knots[i + 1];
                proof {
                    assert(knot_in_bounds(self@[i as int]));
                    assert(knot_in_bounds(self@[i as int + 1]));
                    assert(-((knot_b.position.x - knot_a.position.x) * (2 * KNOT_BOUND))
                        <= (x - knot_a.position.x) * (knot_b.position.y - knot_a.position.y)
                        <= (knot_b.position.x - knot_a.position.x) * (2 * KNOT_BOUND))
                        by (nonlinear_arith)
                        requires
                            0 < x - knot_a.position.x <= knot_b.position.x
                                - knot_a.position.x,
                            -2 * KNOT_BOUND <= knot_b.position.y - knot_a.position.y
                                <= 2 * KNOT_BOUND,
                            KNOT_BOUND > 0,
                    ;
                }
                let num: i128 = ((x - knot_a.position.x) as i128)
                    * ((knot_b.position.y - knot_a.position.y) as i128);
                let den: i128 = (knot_b.position.x - knot_a.position.x) as i128;
                proof {
                    lemma_div_trunc_le(num as int, den as int, 2 * KNOT_BOUND);
                }
                let q = crate::units::div_q(num, den);
                knot_a.position.y + (q as i64)
            },
            KnotInterpolation::Bezier => {
                let knot_b = self.knots[i + 1];
                let rt = knot_a.right_tangent_corrected(Some(&knot_b));
                let lt = knot_b.left_tangent_corrected(Some(&knot_a));
                let p0 = knot_a.position;
                let p1 = Vec2 { x: knot_a.position.x + rt.x, y: knot_a.position.y + rt.y };
                let p2 = Vec2 { x: knot_b.position.x + lt.x, y: knot_b.position.y + lt.y };
                let p3 = knot_b.position;
                let seg = CubicSegment::from_bezier_points([p0, p1, p2, p3]);
                proof {
                    let spec_seg = bezier_segment(knot_a, knot_b);
                    assert(seg.a == spec_seg.a);
                    assert(seg.b == spec_seg.b);
                    assert(seg.c == spec_seg.c);
                    assert(seg.d == spec_seg.d);
                    assert(seg == spec_seg);
                }
                seg.find_y_given_x(x)
            },
        }
    }

    /// Modifies an existing knot. Returns the new (possibly unchanged) index
    /// of the knot, re-establishing the sort order; every other knot keeps
    /// its relative order.
    pub fn modify_knot(&mut self, i: usize, new_value: &Knot) -> (new_i: usize)
        requires
            old(self).wf(),
            i < old(self)@.len(),
            knot_in_bounds(*new_value),
        ensures
            final(self).wf(),
            final(self)@ == modify_spec(old(self)@, i as int, *new_value).0,
            new_i as int == modify_spec(old(self)@, i as int, *new_value).1,
            final(self)@.len() == old(self)@.len(),
            new_i < final(self)@.len() && final(self)@[new_i as int] == *new_value,
            final(self)@.remove(new_i as int) == old(self)@.remove(i as int),
            old(self)@[i as int].position == new_value.position ==> new_i == i
                && final(self)@ == old(self)@.update(i as int, *new_value)
                && (forall|j: int| 0 <= j < old(self)@.len() && j != i
                    ==> final(self)@[j] == old(self)@[j]),
    {
        let ghost s = self@;
        let old_value = self.knots[i];
        if old_value.position == new_value.position {
            // The knot has not been moved, simply overwrite it.
            self.knots.set(i, *new_value);
            proof {
                lemma_update_same_x_sorted(s, i as int, *new_value);
                assert(s.update(i as int, *new_value).remove(i as int) =~= s.remove(i as int));
            }
            return i;
        }

        // Binary search for the new index.
        let new_i = partition_point_lt(&self.knots, new_value.position.x);
        if new_i == i {
            // The knot stays in the same spot even though the position was
            // changed; overwrite it.
            self.knots.set(i, *new_value);
            proof {
                lemma_update_at_partition_sorted(s, i as int, *new_value);
                assert(s.update(i as int, *new_value).remove(i as int) =~= s.remove(i as int));
            }
            return i;
        }

        self.knots.remove(i);

        let insert_i = if i < new_i {
            new_i - 1
        } else {
            new_i
        };
        proof {
            lemma_remove_sorted(s, i as int);
            let t = s.remove(i as int);
            assert forall|m: int| 0 <= m < insert_i as int implies
                (#[trigger] t[m]).position.x <= new_value.position.x by {
                if m < i as int {
                    assert(t[m] == s[m]);
                } else {
                    assert(t[m] == s[m + 1]);
                }
            }
            assert forall|m: int| insert_i as int <= m < t.len() implies
                (#[trigger] t[m]).position.x >= new_value.position.x by {
                if m < i as int {
                    assert(t[m] == s[m]);
                } else {
                    assert(t[m] == s[m + 1]);
                }
            }
            lemma_insert_sorted(t, *new_value, insert_i as int);
            assert(t.insert(insert_i as int, *new_value).remove(insert_i as int) =~= t);
        }
        self.knots.insert(insert_i, *new_value);

        insert_i
    }

    /// Deletes the knot at index `i`; all later knots shift down by one.
    pub fn delete_knot(&mut self, i: usize)
        requires
            old(self).wf(),
            i < old(self)@.len(),
        ensures
            final(self).wf(),
            final(self)@ == old(self)@.remove(i as int),
            final(self)@.len() == old(self)@.len() - 1,
            forall|j: int| 0 <= j < i ==> final(self)@[j] == old(self)@[j],
            forall|j: int| i <= j < final(self)@.len()
                ==> final(self)@[j] == old(self)@[j + 1],
    {
        proof {
            lemma_remove_sorted(self@, i as int);
        }
        self.knots.remove(i);
    }
}

/// Strictly increasing in x: no two knots share an x.
pub open spec fn strictly_increasing_x(s: Seq<Knot>) -> bool {
    forall|i: int, j: int|
        0 <= i < j < s.len() ==> (#[trigger] s[i]).position.x < (#[trigger] s[j]).position.x
}

/// The empty-curve law: sampling an empty knot list yields 0 for every x.
pub proof fn lemma_lookup_empty(s: Seq<Knot>, x: int)
    requires
        s.len() == 0,
    ensures
        lookup_spec(s, x) == 0,
{
}

/// The flat-extrapolation law: below the first knot the curve holds the
/// first knot's y, above the last knot the last knot's y.
pub proof fn lemma_flat_extrapolation(s: Seq<Knot>, x: int)
    requires
        sorted_by_x(s),
        s.len() >= 1,
    ensures
        x < s[0].position.x ==> lookup_spec(s, x) == s[0].position.y,
        x > s[s.len() - 1].position.x ==> lookup_spec(s, x) == s[s.len() - 1].position.y,
{
    assert(s[0].position.x <= s[s.len() - 1].position.x);
}

/// The endpoint-exactness law: sampling at a knot's own x returns that
/// knot's y exactly, for the first and last knot of a curve with pairwise
/// distinct x, and for every interior knot whose incoming segment is linear.
/// (A constant incoming segment holds the previous knot's y up to and
/// including this x, and a Bezier incoming segment is only approximate.)
pub proof fn lemma_endpoint_exact(s: Seq<Knot>, j: int)
    requires
        strictly_increasing_x(s),
        0 <= j < s.len(),
        j == 0 || j == s.len() - 1 || s[j - 1].interpolation is Linear,
    ensures
        lookup_spec(s, s[j].position.x as int) == s[j].position.y,
{
    let x = s[j].position.x as int;
    if s.len() == 1 || j == 0 {
    } else if j == s.len() - 1 {
        assert(s[0].position.x < s[j].position.x);
    } else {
        assert(s[0].position.x < x);
        assert(x < s[s.len() - 1].position.x);
        assert forall|m: int| 0 <= m < j implies (#[trigger] s[m]).position.x < x by {
            assert(s[m].position.x < s[j].position.x);
        }
        assert forall|m: int| j <= m < s.len() implies (#[trigger] s[m]).position.x >= x by {
            if m > j {
                assert(s[j].position.x < s[m].position.x);
            }
        }
        lemma_partition_point_unique(s, x, j);
        let a = s[j - 1];
        let b = s[j];
        let den = b.position.x - a.position.x;
        let dy = b.position.y - a.position.y;
        assert(a.position.x < b.position.x);
        assert(den * dy == dy * den) by (nonlinear_arith);
        lemma_div_trunc_exact(dy, den);
        assert(lerp_y(a, b, x) == a.position.y + dy);
    }
}

/// Overwriting a knot with one at the same position keeps the order.
proof fn lemma_update_same_x_sorted(s: Seq<Knot>, i: int, v: Knot)
    requires
        sorted_by_x(s),
        0 <= i < s.len(),
        v.position == s[i].position,
    ensures
        sorted_by_x(s.update(i, v)),
{
    let r = s.update(i, v);
    assert forall|a: int, b: int| 0 <= a <= b < r.len() implies
        (#[trigger] r[a]).position.x <= (#[trigger] r[b]).position.x by {
        assert(a != i ==> r[a] == s[a]);
        assert(b != i ==> r[b] == s[b]);
    }
}

/// Overwriting a knot whose new x partitions at its own index keeps the order.
proof fn lemma_update_at_partition_sorted(s: Seq<Knot>, i: int, v: Knot)
    requires
        sorted_by_x(s),
        0 <= i < s.len(),
        partition_point_spec(s, v.position.x as int) == i,
        forall|m: int| 0 <= m < i ==> (#[trigger] s[m]).position.x < v.position.x,
        forall|m: int| i <= m < s.len() ==> (#[trigger] s[m]).position.x >= v.position.x,
    ensures
        sorted_by_x(s.update(i, v)),
{
    let r = s.update(i, v);
    assert forall|a: int, b: int| 0 <= a <= b < r.len() implies
        (#[trigger] r[a]).position.x <= (#[trigger] r[b]).position.x by {
        assert(a != i ==> r[a] == s[a]);
        assert(b != i ==> r[b] == s[b]);
    }
}

/// Removal keeps a sorted sequence sorted.
proof fn lemma_remove_sorted(s: Seq<Knot>, i: int)
    requires
        sorted_by_x(s),
        0 <= i < s.len(),
    ensures
        sorted_by_x(s.remove(i)),
{
    let r = s.remove(i);
    assert forall|a: int, b: int| 0 <= a <= b < r.len() implies
        (#[trigger] r[a]).position.x <= (#[trigger] r[b]).position.x by {
        let a0 = if a < i { a } else { a + 1 };
        let b0 = if b < i { b } else { b + 1 };
        assert(r[a] == s[a0]);
        assert(r[b] == s[b0]);
    }
}

/// Insertion at a boundary index keeps a sorted sequence sorted.
proof fn lemma_insert_sorted(s: Seq<Knot>, k: Knot, j: int)
    requires
        sorted_by_x(s),
        0 <= j <= s.len(),
        forall|m: int| 0 <= m < j ==> (#[trigger] s[m]).position.x <= k.position.x,
        forall|m: int| j <= m < s.len() ==> (#[trigger] s[m]).position.x >= k.position.x,
    ensures
        sorted_by_x(s.insert(j, k)),
{
    let r = s.insert(j, k);
    assert forall|a: int, b: int| 0 <= a <= b < r.len() implies
        (#[trigger] r[a]).position.x <= (#[trigger] r[b]).position.x by {
        if a != j {
            let a0 = if a < j { a } else { a - 1 };
            assert(r[a] == s[a0]);
        }
        if b != j {
            let b0 = if b < j { b } else { b - 1 };
            assert(r[b] == s[b0]);
        }
    }
}

/// Binary search for the partition point: the first index whose knot's x is
/// not below `x`.
fn partition_point_lt(knots: &Vec<Knot>, x: i64) -> (i: usize)
    requires
        sorted_by_x(knots@),
    ensures
        i <= knots@.len(),
        i == partition_point_spec(knots@, x as int),
        forall|m: int| 0 <= m < i ==> (#[trigger] knots@[m]).position.x < x,
        forall|m: int| i <= m < knots@.len() ==> (#[trigger] knots@[m]).position.x >= x,
{
    let mut lo: usize = 0;
    let mut hi: usize = knots.len();
    while lo < hi
        invariant
            lo <= hi <= knots@.len(),
            sorted_by_x(knots@),
            forall|m: int| 0 <= m < lo ==> (#[trigger] knots@[m]).position.x < x,
            forall|m: int| hi <= m < knots@.len() ==> (#[trigger] knots@[m]).position.x >= x,
        decreases hi - lo,
    {
        let mid = lo + (hi - lo) / 2;
        if knots[mid].position.x < x {
            lo = mid + 1;
        } else {
            hi = mid;
        }
    }
    proof {
        lemma_partition_point_unique(knots@, x as int, lo as int);
    }
    lo
}

/// Inserts `k` into a sorted vector at its stable position.
fn insert_in_order(v: &mut Vec<Knot>, k: Knot)
    requires
        sorted_by_x(old(v)@),
    ensures
        final(v)@ == sorted_insert(old(v)@, k),
{
    let mut j: usize = v.len();
    while j > 0 && v[j - 1].position.x > k.position.x
        invariant
            j <= v@.len(),
            v@ == old(v)@,
            forall|m: int| j <= m < v@.len() ==> (#[trigger] v@[m]).position.x > k.position.x,
        decreases j,
    {
        j -= 1;
    }
    proof {
        lemma_sorted_insert_at(v@, k, j as int);
    }
    v.insert(j, k);
}

} // verus!
