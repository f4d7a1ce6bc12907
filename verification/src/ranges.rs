//! Bounded N-dimensional coordinate ranges and the cursor that walks them
//! in row-major order, advancing like a mixed-radix odometer.

use vstd::prelude::*;

use crate::index_tricks::{
    to_ints, sub_shape_of, shape_from_bounds, copy_dims, wsum, strides_of, prod,
    lemma_coord_bound, lemma_wsum_split, lemma_wsum_zero, lemma_wsum_congr,
    lemma_strides_skip, lemma_prod_pos,
};

verus! {

/// An axis-aligned iteration domain: on each axis the coordinates run from
/// `start` (inclusive) to `stop` (exclusive), in increments of `step`.
/// Axis 0 is the outermost (primary) axis; the last axis varies fastest.
#[derive(Clone, Debug, PartialEq)]
pub struct Range {
    pub start: Vec<usize>,
    pub stop: Vec<usize>,
    pub step: Vec<usize>,
}

impl Range {
    /// The number of axes.
    pub open spec fn arity(&self) -> int {
        self.start@.len() as int
    }

    /// All three bound vectors have the same length.
    pub open spec fn dims_ok(&self) -> bool {
        self.stop@.len() == self.start@.len() && self.step@.len() == self.start@.len()
    }

    pub open spec fn starts(&self) -> Seq<int> {
        to_ints(self.start@)
    }

    pub open spec fn stops(&self) -> Seq<int> {
        to_ints(self.stop@)
    }

    pub open spec fn steps(&self) -> Seq<int> {
        to_ints(self.step@)
    }

    /// The extent `stop - start` on each axis.
    pub open spec fn sub_shape(&self) -> Seq<int> {
        sub_shape_of(self.starts(), self.stops())
    }

    /// No axis has its bounds crossed.
    pub open spec fn bounds_ok(&self) -> bool {
        forall|i: int| 0 <= i < self.arity() ==> #[trigger] self.starts()[i] <= self.stops()[i]
    }

    /// The range selects coordinates inside an array of extents `shape`.
    pub open spec fn within(&self, shape: Seq<int>) -> bool {
        &&& self.dims_ok()
        &&& self.arity() == shape.len()
        &&& forall|i: int| 0 <= i < self.arity() ==> #[trigger] self.stops()[i] <= shape[i]
    }

    /// Every step is exactly one.
    pub open spec fn steps_one(&self) -> bool {
        forall|i: int| 0 <= i < self.arity() ==> #[trigger] self.steps()[i] == 1
    }

    /// The region selected by this range occupies one unbroken run of flat
    /// offsets in a row-major buffer of extents `shape`: every step is one
    /// and the boxed sub-shape is contiguous in `shape`.
    pub open spec fn contiguous_in(&self, shape: Seq<int>) -> bool {
        &&& self.steps_one()
        &&& crate::index_tricks::region_contiguous(self.sub_shape(), shape)
    }

    /// Well-formedness for iteration. The odometer rule assumes that every
    /// non-primary axis is non-empty; a range whose inner axis has
    /// `start >= stop` is rejected here rather than given a meaning. The
    /// primary axis may be empty, which yields an empty sequence. The last
    /// condition leaves headroom so that one step past a bound still fits
    /// in a machine word.
    pub open spec fn iter_wf(&self) -> bool {
        &&& self.dims_ok()
        &&& self.arity() >= 1
        &&& forall|i: int| 0 <= i < self.arity() ==> #[trigger] self.steps()[i] >= 1
        &&& forall|i: int| 1 <= i < self.arity() ==> #[trigger] self.starts()[i] < self.stops()[i]
        &&& self.starts()[0] <= self.stops()[0]
        &&& forall|i: int| 0 <= i < self.arity()
            ==> #[trigger] self.stops()[i] + self.steps()[i] <= usize::MAX as int
    }

    /// Consume the range into a cursor positioned on `start`.
    pub fn into_iter(self) -> (r: RangeIterator)
        requires
            self.dims_ok(),
            self.bounds_ok(),
        ensures
            r.range == self,
            to_ints(r.shape@) =~= self.sub_shape(),
            r.curr@ == self.start@,
    {
        proof {
            assert forall|i: int| 0 <= i < self.start@.len()
                implies #[trigger] self.start@[i] <= self.stop@[i] by {
                assert(self.starts()[i] <= self.stops()[i]);
            }
        }
        let shape = shape_from_bounds(&self.start, &self.stop);
        let curr = copy_dims(&self.start);
        RangeIterator { range: self, shape, curr }
    }
}

/// A cursor over the coordinates of a `Range`, in row-major order: the
/// innermost axis advances first and carries outward; once the primary
/// axis reaches its bound the cursor is permanently exhausted.
#[derive(Clone, Debug, PartialEq)]
pub struct RangeIterator {
    pub range: Range,
    pub shape: Vec<usize>,
    pub curr: Vec<usize>,
}

/// A cursor coordinate that the odometer can be in: every non-primary axis
/// sits inside its bounds, and the primary axis is at or past its start.
pub open spec fn cursor_ok(range: Range, curr: Seq<int>) -> bool {
    &&& curr.len() == range.arity()
    &&& range.starts()[0] <= curr[0]
    &&& forall|i: int| 1 <= i < curr.len()
        ==> range.starts()[i] <= #[trigger] curr[i] < range.stops()[i]
}

/// One odometer advance, processing axes from `i` inward-to-outward: add
/// the step; a non-primary axis that reaches its bound resets to its start
/// and carries into the next axis out.
pub open spec fn advance_from(range: Range, curr: Seq<int>, i: int) -> Seq<int>
    decreases i,
{
    let c = curr.update(i, curr[i] + range.steps()[i]);
    if i > 0 && c[i] >= range.stops()[i] {
        advance_from(range, c.update(i, range.starts()[i]), i - 1)
    } else {
        c
    }
}

/// One full odometer advance, starting at the innermost axis.
pub open spec fn advance(range: Range, curr: Seq<int>) -> Seq<int> {
    advance_from(range, curr, curr.len() - 1)
}

/// The axis on which an advance from `curr` stops carrying, scanning from
/// axis `i` outward: the outermost axis whose incremented coordinate stays
/// below its bound, or axis 0.
pub open spec fn break_axis(range: Range, curr: Seq<int>, i: int) -> int
    decreases i,
{
    if i <= 0 {
        0
    } else if curr[i] + range.steps()[i] >= range.stops()[i] {
        break_axis(range, curr, i - 1)
    } else {
        i
    }
}

/// What `break_axis` finds: every axis inside it carries, and it does not
/// carry itself unless it is the primary axis.
pub proof fn lemma_break_axis(range: Range, curr: Seq<int>, i: int)
    requires
        0 <= i,
    ensures
        0 <= break_axis(range, curr, i) <= i,
        forall|m: int| break_axis(range, curr, i) < m <= i
            ==> #[trigger] curr[m] + range.steps()[m] >= range.stops()[m],
        break_axis(range, curr, i) > 0
            ==> curr[break_axis(range, curr, i)] + range.steps()[break_axis(range, curr, i)]
                < range.stops()[break_axis(range, curr, i)],
    decreases i,
{
    if i > 0 && curr[i] + range.steps()[i] >= range.stops()[i] {
        lemma_break_axis(range, curr, i - 1);
    }
}

/// Closed form of one advance: given the carries inside the break axis
/// `j`, the advance bumps axis `j` by its step, resets every axis inside
/// `j` to its start, and leaves the axes outside `j` alone.
pub proof fn lemma_advance_from_break(range: Range, curr: Seq<int>, i: int, j: int)
    requires
        curr.len() == range.arity(),
        0 <= j <= i < curr.len(),
        forall|m: int| j < m <= i ==> #[trigger] curr[m] + range.steps()[m] >= range.stops()[m],
        j > 0 ==> curr[j] + range.steps()[j] < range.stops()[j],
    ensures
        advance_from(range, curr, i) =~= Seq::new(curr.len(), |m: int|
            (if m < j {
                curr[m]
            } else if m == j {
                curr[m] + range.steps()[m]
            } else if m <= i {
                range.starts()[m]
            } else {
                curr[m]
            })),
    decreases i,
{
    let c = curr.update(i, curr[i] + range.steps()[i]);
    if i == j {
        assert(advance_from(range, curr, i) =~= c);
    } else {
        let c2 = c.update(i, range.starts()[i]);
        assert(c2 =~= curr.update(i, range.starts()[i]));
        lemma_advance_from_break(range, c2, i - 1, j);
        assert forall|m: int| j < m <= i - 1
            implies #[trigger] c2[m] + range.steps()[m] >= range.stops()[m] by {
            assert(c2[m] == curr[m]);
        }
    }
}

impl RangeIterator {
    /// The cursor invariant: a well-formed range, a cursor coordinate the
    /// odometer can be in, and the cached sub-shape of the range.
    pub open spec fn wf(&self) -> bool {
        &&& self.range.iter_wf()
        &&& cursor_ok(self.range, to_ints(self.curr@))
        &&& to_ints(self.shape@) == self.range.sub_shape()
    }

    /// The sequence is over once the primary coordinate reaches its bound.
    pub open spec fn exhausted(&self) -> bool {
        to_ints(self.curr@)[0] >= self.range.stops()[0]
    }

    /// Emit the current coordinate and advance the odometer; `None` once
    /// the primary axis has reached its bound, permanently.
    pub fn next(&mut self) -> (r: Option<Vec<usize>>)
        requires
            old(self).wf(),
        ensures
            final(self).wf(),
            final(self).range == old(self).range,
            final(self).shape == old(self).shape,
            old(self).exhausted() ==> r is None && final(self).curr == old(self).curr,
            !old(self).exhausted() ==> r is Some,
            !old(self).exhausted() ==> (r matches Some(c) ==> c@ == old(self).curr@),
            !old(self).exhausted() ==> to_ints(final(self).curr@) =~= advance(
                old(self).range,
                to_ints(old(self).curr@),
            ),
    {
        let n = self.curr.len();
        if self.curr[0] >= self.range.stop[0] {
            return None;
        }
        let prev = copy_dims(&self.curr);
        let ghost rng = self.range;
        let ghost orig = to_ints(self.curr@);
        let mut j: usize = n - 1;
        loop
            invariant
                self.range == rng,
                self.shape == old(self).shape,
                rng.iter_wf(),
                cursor_ok(rng, to_ints(self.curr@)),
                orig == to_ints(self.curr@),
                orig[0] < rng.stops()[0],
                n == self.curr@.len(),
                0 <= j < n,
                forall|m: int| j < m < n
                    ==> #[trigger] orig[m] + rng.steps()[m] >= rng.stops()[m],
            ensures
                j == 0 || orig[j as int] + rng.steps()[j as int] < rng.stops()[j as int],
            decreases j,
        {
            if j == 0 {
                break;
            }
            proof {
                assert(to_ints(self.curr@)[j as int] < rng.stops()[j as int]);
                assert(rng.stops()[j as int] + rng.steps()[j as int] <= usize::MAX as int);
            }
            if self.curr[j] + self.range.step[j] >= self.range.stop[j] {
                proof {
                    assert(orig[j as int] == self.curr@[j as int] as int);
                    assert(rng.steps()[j as int] == self.range.step@[j as int] as int);
                    assert(rng.stops()[j as int] == self.range.stop@[j as int] as int);
                }
                j = j - 1;
            } else {
                proof {
                    assert(orig[j as int] == self.curr@[j as int] as int);
                    assert(rng.steps()[j as int] == self.range.step@[j as int] as int);
                    assert(rng.stops()[j as int] == self.range.stop@[j as int] as int);
                }
                break;
            }
        }
        let ghost jj = j as int;
        proof {
            if jj > 0 {
                assert(to_ints(self.curr@)[jj] < rng.stops()[jj]);
            }
            assert(to_ints(self.curr@)[jj] == self.curr@[jj] as int);
            assert(rng.stops()[jj] + rng.steps()[jj] <= usize::MAX as int);
            assert(rng.steps()[jj] == self.range.step@[jj] as int);
            assert(rng.stops()[jj] == self.range.stop@[jj] as int);
        }
        let bumped = self.curr[j] + self.range.step[j];
        self.curr.set(j, bumped);
        let mut m: usize = j + 1;
        while m < n
            invariant
                self.range == rng,
                self.shape == old(self).shape,
                rng.iter_wf(),
                n == self.curr@.len(),
                n == rng.arity(),
                0 <= jj < n,
                jj + 1 <= m <= n,
                forall|k: int| 0 <= k < jj ==> #[trigger] self.curr@[k] == orig[k],
                self.curr@[jj] as int == orig[jj] + rng.steps()[jj],
                forall|k: int| jj < k < m ==> #[trigger] self.curr@[k] as int == rng.starts()[k],
                forall|k: int| m <= k < n ==> #[trigger] self.curr@[k] == orig[k],
            decreases n - m,
        {
            let s = self.range.start[m];
            self.curr.set(m, s);
            m = m + 1;
        }
        proof {
            lemma_break_axis(rng, orig, n as int - 1);
            assert(jj == break_axis(rng, orig, n as int - 1)) by {
                // the loop scanned exactly the carry chain of break_axis
                lemma_break_axis_agrees(rng, orig, n as int - 1, jj);
            }
            lemma_advance_from_break(rng, orig, n as int - 1, jj);
            assert(to_ints(self.curr@) =~= advance(rng, orig));
            assert forall|i: int| 1 <= i < n
                implies rng.starts()[i] <= #[trigger] to_ints(self.curr@)[i] < rng.stops()[i] by {
                assert(to_ints(self.curr@)[i] == self.curr@[i] as int);
                if i < jj {
                    assert(self.curr@[i] == orig[i]);
                    assert(rng.starts()[i] <= orig[i] < rng.stops()[i]);
                } else if i == jj {
                    assert(self.curr@[i] as int == orig[jj] + rng.steps()[jj]);
                    assert(rng.starts()[i] <= orig[i] < rng.stops()[i]);
                    assert(rng.steps()[i] >= 1);
                } else {
                    assert(self.curr@[i] as int == rng.starts()[i]);
                    assert(rng.starts()[i] < rng.stops()[i]);
                    assert(rng.steps()[i] >= 1);
                }
            }
            assert(to_ints(self.curr@)[0] == self.curr@[0] as int);
            if jj == 0 {
                assert(self.curr@[0] as int == orig[0] + rng.steps()[0]);
                assert(rng.steps()[0] >= 1);
            } else {
                assert(self.curr@[0] == orig[0]);
            }
            assert(rng.starts()[0] <= orig[0]);
        }
        Some(prev)
    }
}

/// The coordinate `c`, taken relative to the range's `start`.
pub open spec fn rel_coord(range: Range, c: Seq<int>) -> Seq<int> {
    Seq::new(c.len(), |i: int| c[i] - range.starts()[i])
}

/// The row-major position of cursor `c` inside the range's box: the flat
/// offset of `c - start` under the canonical strides of the sub-shape.
pub open spec fn rel_pos(range: Range, c: Seq<int>) -> int {
    wsum(rel_coord(range, c), strides_of(range.sub_shape()), c.len() as int)
}

/// The complete coordinate sequence a range emits: empty when the primary
/// axis is empty; otherwise it begins at `start`, every coordinate lies
/// inside the primary bound, consecutive coordinates are linked by one
/// odometer advance, and one more advance leaves the primary bound.
pub open spec fn emission(range: Range, e: Seq<Seq<int>>) -> bool {
    &&& (range.starts()[0] >= range.stops()[0] ==> e.len() == 0)
    &&& (range.starts()[0] < range.stops()[0] ==> e.len() >= 1 && e[0] == range.starts())
    &&& forall|j: int| 0 <= j < e.len() ==> (#[trigger] e[j])[0] < range.stops()[0]
    &&& forall|j: int| 0 <= j < e.len() ==> (#[trigger] e[j]).len() == range.arity()
    &&& forall|j: int| 0 <= j < e.len() - 1 ==> #[trigger] e[j + 1] == advance(range, e[j])
    &&& (e.len() >= 1 ==> advance(range, e[e.len() - 1])[0] >= range.stops()[0])
}

/// A cursor strictly inside the box sits at a position strictly below the
/// box's element count.
pub proof fn lemma_rel_pos_bound(range: Range, c: Seq<int>)
    requires
        range.iter_wf(),
        cursor_ok(range, c),
        c[0] < range.stops()[0],
    ensures
        0 <= rel_pos(range, c),
        rel_pos(range, c) < prod(range.sub_shape()),
{
    let d = rel_coord(range, c);
    let sub = range.sub_shape();
    assert forall|i: int| 0 <= i < sub.len() implies 0 <= #[trigger] d[i] < sub[i] by {
        if i == 0 {
            assert(range.starts()[0] <= c[0] < range.stops()[0]);
        } else {
            assert(range.starts()[i] <= c[i] < range.stops()[i]);
        }
    }
    lemma_coord_bound(d, sub);
}

/// One odometer advance keeps the cursor valid and strictly increases its
/// position inside the box.
pub proof fn lemma_advance_pos(range: Range, c: Seq<int>)
    requires
        range.iter_wf(),
        cursor_ok(range, c),
        c[0] < range.stops()[0],
    ensures
        cursor_ok(range, advance(range, c)),
        advance(range, c).len() == c.len(),
        rel_pos(range, advance(range, c)) > rel_pos(range, c),
{
    let n = c.len() as int;
    lemma_break_axis(range, c, n - 1);
    let j = break_axis(range, c, n - 1);
    lemma_advance_from_break(range, c, n - 1, j);
    let c2 = advance(range, c);
    assert forall|i: int| 1 <= i < n
        implies range.starts()[i] <= #[trigger] c2[i] < range.stops()[i] by {
        if i < j {
            assert(c2[i] == c[i]);
        } else if i == j {
            assert(c2[i] == c[i] + range.steps()[i]);
            assert(range.steps()[i] >= 1);
        } else {
            assert(c2[i] == range.starts()[i]);
            assert(range.starts()[i] < range.stops()[i]);
        }
    }
    assert(range.starts()[0] <= c2[0]) by {
        if j == 0 {
            assert(c2[0] == c[0] + range.steps()[0]);
            assert(range.steps()[0] >= 1);
        } else {
            assert(c2[0] == c[0]);
        }
    }
    let d = rel_coord(range, c);
    let d2 = rel_coord(range, c2);
    let sub = range.sub_shape();
    let w = strides_of(sub);
    lemma_wsum_split(d2, w, n, j + 1);
    assert forall|i: int| 0 <= i < n - j - 1 implies #[trigger] d2.skip(j + 1)[i] == 0 by {
        assert(d2.skip(j + 1)[i] == d2[j + 1 + i]);
        assert(c2[j + 1 + i] == range.starts()[j + 1 + i]);
    }
    lemma_wsum_zero(d2.skip(j + 1), w.skip(j + 1), n - j - 1);
    lemma_wsum_congr(d2, d, w, j);
    assert(wsum(d2, w, j + 1) == wsum(d2, w, j) + d2[j] * w[j]);
    lemma_wsum_split(d, w, n, j + 1);
    assert(wsum(d, w, j + 1) == wsum(d, w, j) + d[j] * w[j]);
    // the tail of the old position is bounded by the stride of axis j
    lemma_strides_skip(sub, j + 1);
    assert forall|i: int| 0 <= i < n - j - 1
        implies 0 <= #[trigger] d.skip(j + 1)[i] < sub.skip(j + 1)[i] by {
        assert(d.skip(j + 1)[i] == d[j + 1 + i]);
        assert(sub.skip(j + 1)[i] == sub[j + 1 + i]);
        assert(range.starts()[j + 1 + i] <= c[j + 1 + i] < range.stops()[j + 1 + i]);
    }
    lemma_coord_bound(d.skip(j + 1), sub.skip(j + 1));
    assert(wsum(d.skip(j + 1), w.skip(j + 1), n - j - 1)
        == wsum(d.skip(j + 1), strides_of(sub.skip(j + 1)), n - j - 1));
    assert(prod(sub.skip(j + 1)) == w[j]);
    assert forall|i: int| 0 <= i < sub.skip(j + 1).len() implies #[trigger] sub.skip(j + 1)[i] > 0 by {
        assert(sub.skip(j + 1)[i] == sub[j + 1 + i]);
        assert(range.starts()[j + 1 + i] < range.stops()[j + 1 + i]);
    }
    lemma_prod_pos(sub.skip(j + 1));
    assert(d2[j] == d[j] + range.steps()[j]);
    assert(d2[j] * w[j] >= d[j] * w[j] + w[j]) by (nonlinear_arith)
        requires
            d2[j] == d[j] + range.steps()[j],
            range.steps()[j] >= 1,
            w[j] >= 1,
    ;
}

/// The number of coordinates each axis contributes: its stepped extent,
/// rounded up.
pub open spec fn caps(range: Range) -> Seq<int> {
    Seq::new(
        range.start@.len(),
        |i: int| (range.stops()[i] - range.starts()[i] + range.steps()[i] - 1) / range.steps()[i],
    )
}

/// The per-axis index of cursor `c` within the stepped grid.
pub open spec fn grid_coord(range: Range, c: Seq<int>) -> Seq<int> {
    Seq::new(c.len(), |i: int| (c[i] - range.starts()[i]) / range.steps()[i])
}

/// The row-major position of cursor `c` within the stepped grid.
pub open spec fn grid_pos(range: Range, c: Seq<int>) -> int {
    wsum(grid_coord(range, c), strides_of(caps(range)), c.len() as int)
}

/// The cursor sits exactly on the stepped grid.
pub open spec fn aligned(range: Range, c: Seq<int>) -> bool {
    forall|i: int| 0 <= i < c.len()
        ==> #[trigger] ((c[i] - range.starts()[i]) % range.steps()[i]) == 0
}

/// The grid index of an aligned in-bounds cursor coordinate is within the
/// axis's cap; a coordinate that one more step would push out sits on the
/// last grid line.
proof fn lemma_grid_axis(start: int, stop: int, step: int, c: int)
    requires
        step >= 1,
        start <= c < stop,
        (c - start) % step == 0,
    ensures
        0 <= (c - start) / step,
        (c - start) / step < (stop - start + step - 1) / step,
        c + step >= stop ==> (c - start) / step == (stop - start + step - 1) / step - 1,
{
    let k = (c - start) / step;
    let d = stop - start;
    let cap = (d + step - 1) / step;
    vstd::arithmetic::div_mod::lemma_fundamental_div_mod(c - start, step);
    vstd::arithmetic::div_mod::lemma_div_pos_is_pos(c - start, step);
    assert(c - start == step * k);
    // one more grid line fits: d + step - 1 >= (k + 1) * step
    assert(step * k <= d - 1);
    assert((k + 1) * step <= d + step - 1) by (nonlinear_arith)
        requires step * k <= d - 1;
    vstd::arithmetic::div_mod::lemma_div_is_ordered((k + 1) * step, d + step - 1, step);
    vstd::arithmetic::div_mod::lemma_div_multiples_vanish(k + 1, step);
    assert(step * (k + 1) == (k + 1) * step) by (nonlinear_arith);
    assert(k + 1 <= cap);
    if c + step >= stop {
        // the next step leaves the axis, so k is the last grid line
        assert(d + step - 1 <= (k + 1) * step + step - 1) by (nonlinear_arith)
            requires step * k >= d - step;
        vstd::arithmetic::div_mod::lemma_fundamental_div_mod_converse_div(
            (k + 1) * step + step - 1,
            step,
            k + 1,
            step - 1,
        );
        vstd::arithmetic::div_mod::lemma_div_is_ordered(
            d + step - 1,
            (k + 1) * step + step - 1,
            step,
        );
        assert(cap <= k + 1);
    }
}

/// One odometer advance keeps the cursor aligned and moves it to the very
/// next position of the stepped grid.
proof fn lemma_advance_grid(range: Range, c: Seq<int>)
    requires
        range.iter_wf(),
        cursor_ok(range, c),
        aligned(range, c),
        c[0] < range.stops()[0],
    ensures
        aligned(range, advance(range, c)),
        grid_pos(range, advance(range, c)) == grid_pos(range, c) + 1,
{
    let n = c.len() as int;
    lemma_break_axis(range, c, n - 1);
    let j = break_axis(range, c, n - 1);
    lemma_advance_from_break(range, c, n - 1, j);
    let c2 = advance(range, c);
    let g = grid_coord(range, c);
    let g2 = grid_coord(range, c2);
    let cp = caps(range);
    let w = strides_of(cp);
    assert forall|i: int| 0 <= i < n
        implies #[trigger] ((c2[i] - range.starts()[i]) % range.steps()[i]) == 0 by {
        let s = range.steps()[i];
        if i < j {
            assert(c2[i] == c[i]);
        } else if i == j {
            assert(c2[i] == c[i] + s);
            vstd::arithmetic::div_mod::lemma_fundamental_div_mod(c[i] - range.starts()[i], s);
            assert((c[i] - range.starts()[i]) % s == 0);
            let k = (c[i] - range.starts()[i]) / s;
            vstd::arithmetic::div_mod::lemma_fundamental_div_mod_converse_mod(
                (k + 1) * s,
                s,
                k + 1,
                0,
            );
            assert(c2[i] - range.starts()[i] == (k + 1) * s) by (nonlinear_arith)
                requires c[i] - range.starts()[i] == s * k && c2[i] == c[i] + s;
        } else {
            assert(c2[i] == range.starts()[i]);
            vstd::arithmetic::div_mod::lemma_fundamental_div_mod_converse_mod(0, s, 0, 0);
        }
    }
    // the grid digits: unchanged outside j, one more at j, reset inside j
    assert forall|i: int| 0 <= i < n implies #[trigger] g2[i] == (if i < j {
        g[i]
    } else if i == j {
        g[i] + 1
    } else {
        0
    }) by {
        let s = range.steps()[i];
        let st = range.starts()[i];
        vstd::arithmetic::div_mod::lemma_fundamental_div_mod(c[i] - st, s);
        let k = (c[i] - st) / s;
        if i < j {
            assert(c2[i] == c[i]);
        } else if i == j {
            assert(c2[i] == c[i] + s);
            vstd::arithmetic::div_mod::lemma_fundamental_div_mod_converse_div(
                (k + 1) * s,
                s,
                k + 1,
                0,
            );
            assert(c2[i] - st == (k + 1) * s) by (nonlinear_arith)
                requires c[i] - st == s * k && c2[i] == c[i] + s;
        } else {
            assert(c2[i] == st);
            vstd::arithmetic::div_mod::lemma_fundamental_div_mod_converse_div(0, s, 0, 0);
        }
    }
    // each axis inside j was on its last grid line, and every axis is
    // inside its cap
    assert forall|i: int| 0 <= i < n implies 0 <= #[trigger] g[i] && g[i] < cp[i] by {
        lemma_grid_axis(range.starts()[i], range.stops()[i], range.steps()[i], c[i]);
    }
    assert forall|i: int| j < i < n implies #[trigger] g[i] == cp[i] - 1 by {
        lemma_grid_axis(range.starts()[i], range.stops()[i], range.steps()[i], c[i]);
    }
    assert forall|i: int| 0 <= i < n implies #[trigger] cp[i] >= 1 by {
        lemma_grid_axis(range.starts()[i], range.stops()[i], range.steps()[i], c[i]);
    }
    // split both positions at axis j + 1
    lemma_wsum_split(g, w, n, j + 1);
    lemma_wsum_split(g2, w, n, j + 1);
    lemma_wsum_congr(g2, g, w, j);
    assert(wsum(g, w, j + 1) == wsum(g, w, j) + g[j] * w[j]);
    assert(wsum(g2, w, j + 1) == wsum(g2, w, j) + g2[j] * w[j]);
    // the old tail was maximal, the new tail is zero
    assert forall|i: int| 0 <= i < n - j - 1 implies #[trigger] g2.skip(j + 1)[i] == 0 by {
        assert(g2.skip(j + 1)[i] == g2[j + 1 + i]);
    }
    lemma_wsum_zero(g2.skip(j + 1), w.skip(j + 1), n - j - 1);
    lemma_strides_skip(cp, j + 1);
    assert forall|i: int| 0 <= i < n - j - 1
        implies #[trigger] cp.skip(j + 1)[i] >= 1 by {
        assert(cp.skip(j + 1)[i] == cp[j + 1 + i]);
    }
    crate::index_tricks::lemma_wsum_maxed(cp.skip(j + 1));
    assert(g.skip(j + 1) =~= Seq::new(cp.skip(j + 1).len(), |i: int| cp.skip(j + 1)[i] - 1));
    assert(wsum(g.skip(j + 1), w.skip(j + 1), n - j - 1) == prod(cp.skip(j + 1)) - 1);
    assert(w[j] == prod(cp.skip(j + 1)));
    assert(g2[j] * w[j] == g[j] * w[j] + w[j]) by (nonlinear_arith)
        requires g2[j] == g[j] + 1;
}

/// How many coordinates a well-formed range emits: the product over the
/// axes of the stepped extent `ceil((stop - start) / step)`.
pub proof fn lemma_emission_count(range: Range, e: Seq<Seq<int>>)
    requires
        range.iter_wf(),
        emission(range, e),
    ensures
        e.len() == prod(caps(range)),
{
    let n = range.arity();
    let cp = caps(range);
    if range.starts()[0] >= range.stops()[0] {
        let s = range.steps()[0];
        let d = range.stops()[0] - range.starts()[0];
        assert(d == 0);
        vstd::arithmetic::div_mod::lemma_fundamental_div_mod_converse_div(s - 1, s, 0, s - 1);
        assert(cp[0] == 0);
        assert(cp.skip(0) =~= cp);
        crate::index_tricks::lemma_prod_skip_unfold(cp, 0);
        assert(prod(cp) == 0 * prod(cp.skip(1)));
    } else {
        let last = e.len() - 1;
        lemma_emission_position(range, e, last);
        let c = e[last];
        lemma_break_axis(range, c, n - 1);
        let j = break_axis(range, c, n - 1);
        lemma_advance_from_break(range, c, n - 1, j);
        let c2 = advance(range, c);
        assert(c2[0] >= range.stops()[0]);
        assert(j == 0) by {
            if j > 0 {
                assert(c2[0] == c[0]);
            }
        }
        let g = grid_coord(range, c);
        assert forall|i: int| 0 <= i < n implies #[trigger] g[i] == cp[i] - 1 by {
            if i > 0 {
                assert(c[i] + range.steps()[i] >= range.stops()[i]);
            }
            lemma_grid_axis(range.starts()[i], range.stops()[i], range.steps()[i], c[i]);
        }
        assert forall|i: int| 0 <= i < n implies #[trigger] cp[i] >= 1 by {
            lemma_grid_axis(range.starts()[i], range.stops()[i], range.steps()[i], c[i]);
        }
        crate::index_tricks::lemma_wsum_maxed(cp);
        assert(g =~= Seq::new(cp.len(), |i: int| cp[i] - 1));
        assert(grid_pos(range, c) == prod(cp) - 1);
    }
}

/// Every emitted coordinate is a valid aligned cursor that sits at its own
/// index within the stepped grid.
pub proof fn lemma_emission_position(range: Range, e: Seq<Seq<int>>, j: int)
    requires
        range.iter_wf(),
        emission(range, e),
        0 <= j < e.len(),
    ensures
        cursor_ok(range, e[j]),
        aligned(range, e[j]),
        grid_pos(range, e[j]) == j,
    decreases j,
{
    if j == 0 {
        assert(e[0] == range.starts());
        assert forall|i: int| 0 <= i < range.arity()
            implies #[trigger] ((e[0][i] - range.starts()[i]) % range.steps()[i]) == 0
                && (e[0][i] - range.starts()[i]) / range.steps()[i] == 0 by {
            let s = range.steps()[i];
            vstd::arithmetic::div_mod::lemma_fundamental_div_mod_converse_mod(0, s, 0, 0);
            vstd::arithmetic::div_mod::lemma_fundamental_div_mod_converse_div(0, s, 0, 0);
        }
        lemma_wsum_zero(
            grid_coord(range, e[0]),
            strides_of(caps(range)),
            range.arity(),
        );
    } else {
        lemma_emission_position(range, e, j - 1);
        assert(e[j] == advance(range, e[j - 1])) by {
            assert(e[(j - 1) + 1] == advance(range, e[j - 1]));
        }
        assert(e[j - 1][0] < range.stops()[0]);
        lemma_advance_pos(range, e[j - 1]);
        lemma_advance_grid(range, e[j - 1]);
    }
}

/// Advancing depends only on the bounds, not on which vectors carry them.
pub proof fn lemma_advance_congruent(r1: Range, r2: Range, c: Seq<int>, i: int)
    requires
        r1.starts() == r2.starts(),
        r1.stops() == r2.stops(),
        r1.steps() == r2.steps(),
    ensures
        advance_from(r1, c, i) == advance_from(r2, c, i),
    decreases i,
{
    let c1 = c.update(i, c[i] + r1.steps()[i]);
    if i > 0 && c1[i] >= r1.stops()[i] {
        lemma_advance_congruent(r1, r2, c1.update(i, r1.starts()[i]), i - 1);
    }
}

/// An emission sequence is shared by ranges with the same bounds.
pub proof fn lemma_emission_congruent(r1: Range, r2: Range, e: Seq<Seq<int>>)
    requires
        r1.starts() == r2.starts(),
        r1.stops() == r2.stops(),
        r1.steps() == r2.steps(),
        emission(r1, e),
    ensures
        emission(r2, e),
{
    assert(r1.starts().len() == r1.start@.len());
    assert(r2.starts().len() == r2.start@.len());
    assert(r1.arity() == r2.arity());
    assert forall|j: int| 0 <= j < e.len() - 1 implies #[trigger] e[j + 1] == advance(r2, e[j]) by {
        assert(e[j + 1] == advance(r1, e[j]));
        lemma_advance_congruent(r1, r2, e[j], e[j].len() - 1);
    }
    if e.len() >= 1 {
        lemma_advance_congruent(r1, r2, e[e.len() - 1], e[e.len() - 1].len() - 1);
    }
}

/// A scan that stopped on axis `j` with all the carry conditions inside it
/// found exactly the break axis.
pub proof fn lemma_break_axis_agrees(range: Range, curr: Seq<int>, i: int, j: int)
    requires
        0 <= j <= i,
        forall|m: int| j < m <= i ==> #[trigger] curr[m] + range.steps()[m] >= range.stops()[m],
        j > 0 ==> curr[j] + range.steps()[j] < range.stops()[j],
    ensures
        break_axis(range, curr, i) == j,
    decreases i,
{
    if i > j {
        lemma_break_axis_agrees(range, curr, i - 1, j);
    }
}

} // verus!
