//! Coordinate arithmetic for row-major strided layouts: canonical strides
//! from a shape, conversion between multi-axis coordinates and flat buffer
//! offsets, sub-shapes from bounds, and the contiguity test.

use vstd::prelude::*;

verus! {

/// The entries of a machine-word sequence, as mathematical integers.
pub open spec fn to_ints(v: Seq<usize>) -> Seq<int> {
    v.map_values(|x: usize| x as int)
}

/// Product of all entries of `s` (1 when `s` is empty).
pub open spec fn prod(s: Seq<int>) -> int
    decreases s.len(),
{
    if s.len() == 0 {
        1
    } else {
        s[0] * prod(s.skip(1))
    }
}

/// Weighted sum of the first `n` entries: `c[0]*w[0] + ... + c[n-1]*w[n-1]`.
pub open spec fn wsum(c: Seq<int>, w: Seq<int>, n: int) -> int
    decreases n,
{
    if n <= 0 {
        0
    } else {
        wsum(c, w, n - 1) + c[n - 1] * w[n - 1]
    }
}

/// Canonical row-major strides of `shape`: entry `i` is the product of the
/// extents after axis `i`, so the last axis always has stride 1.
pub open spec fn strides_of(shape: Seq<int>) -> Seq<int> {
    Seq::new(shape.len(), |i: int| prod(shape.skip(i + 1)))
}

/// The remainder that is left once the first `i` axes of a mixed-radix
/// decode have been peeled off.
pub open spec fn rem_at(f: int, strides: Seq<int>, i: int) -> int
    decreases i,
{
    if i <= 0 {
        f
    } else {
        rem_at(f, strides, i - 1) % strides[i - 1]
    }
}

/// Mixed-radix decode of the flat offset `f`: axis `i` receives the
/// remainder after the earlier axes, divided by its own stride.
pub open spec fn unravel_of(f: int, strides: Seq<int>) -> Seq<int> {
    Seq::new(strides.len(), |i: int| rem_at(f, strides, i) / strides[i])
}

/// Elementwise difference `stop - start`: the shape of the boxed region.
pub open spec fn sub_shape_of(start: Seq<int>, stop: Seq<int>) -> Seq<int> {
    Seq::new(start.len(), |i: int| stop[i] - start[i])
}

/// A boxed sub-region of extent `sub[i]` on each axis of `shape` occupies
/// one unbroken run of flat offsets exactly when, for some pivot axis `k`,
/// every axis inside `k` is selected in full and every axis outside `k`
/// selects a single slab.
pub open spec fn region_contiguous(sub: Seq<int>, shape: Seq<int>) -> bool {
    shape.len() == 0 || exists|k: int|
        0 <= k < shape.len() && #[trigger] contiguous_at(sub, shape, k)
}

/// The pivot-axis condition of `region_contiguous`.
pub open spec fn contiguous_at(sub: Seq<int>, shape: Seq<int>, k: int) -> bool {
    &&& forall|i: int| k < i < shape.len() ==> sub[i] == shape[i]
    &&& forall|i: int| 0 <= i < k ==> sub[i] == 1
}

/// Every suffix product of `shape` fits in a machine word; this is what
/// allocation and stride computation need to stay within `usize`.
pub open spec fn fits(shape: Seq<int>) -> bool {
    forall|i: int| 0 <= i <= shape.len() ==> #[trigger] prod(shape.skip(i)) <= usize::MAX as int
}

/// A product of non-negative factors is non-negative.
pub proof fn lemma_prod_nonneg(s: Seq<int>)
    requires
        forall|i: int| 0 <= i < s.len() ==> s[i] >= 0,
    ensures
        prod(s) >= 0,
    decreases s.len(),
{
    if s.len() > 0 {
        lemma_prod_nonneg(s.skip(1));
        assert(s[0] * prod(s.skip(1)) >= 0) by (nonlinear_arith)
            requires s[0] >= 0 && prod(s.skip(1)) >= 0;
    }
}

/// Peeling one factor off a suffix product.
pub proof fn lemma_prod_skip_unfold(s: Seq<int>, i: int)
    requires
        0 <= i < s.len(),
    ensures
        prod(s.skip(i)) == s[i] * prod(s.skip(i + 1)),
{
    assert(s.skip(i).skip(1) =~= s.skip(i + 1));
    assert(prod(s.skip(i)) == s.skip(i)[0] * prod(s.skip(i).skip(1)));
}

/// The whole product is positive when every factor is.
pub proof fn lemma_prod_pos(s: Seq<int>)
    requires
        forall|i: int| 0 <= i < s.len() ==> s[i] > 0,
    ensures
        prod(s) > 0,
    decreases s.len(),
{
    if s.len() > 0 {
        lemma_prod_pos(s.skip(1));
        assert(s[0] * prod(s.skip(1)) > 0) by (nonlinear_arith)
            requires s[0] > 0 && prod(s.skip(1)) > 0;
    }
}

/// A product grows entrywise: smaller non-negative factors give a product
/// at most as large.
pub proof fn lemma_prod_pointwise_le(a: Seq<int>, b: Seq<int>)
    requires
        a.len() == b.len(),
        forall|i: int| 0 <= i < a.len() ==> 0 <= #[trigger] a[i],
        forall|i: int| 0 <= i < a.len() ==> #[trigger] a[i] <= b[i],
    ensures
        prod(a) <= prod(b),
    decreases a.len(),
{
    if a.len() > 0 {
        assert forall|i: int| 0 <= i < a.skip(1).len() implies 0 <= #[trigger] a.skip(1)[i] by {
            assert(a.skip(1)[i] == a[i + 1]);
        }
        assert forall|i: int| 0 <= i < a.skip(1).len()
            implies #[trigger] a.skip(1)[i] <= b.skip(1)[i] by {
            assert(a.skip(1)[i] == a[i + 1]);
            assert(b.skip(1)[i] == b[i + 1]);
        }
        lemma_prod_pointwise_le(a.skip(1), b.skip(1));
        lemma_prod_nonneg(a.skip(1));
        assert(a[0] * prod(a.skip(1)) <= b[0] * prod(b.skip(1))) by (nonlinear_arith)
            requires
                0 <= a[0] <= b[0],
                0 <= prod(a.skip(1)),
                prod(a.skip(1)) <= prod(b.skip(1)),
        ;
    }
}

/// With entrywise non-negative terms, `wsum` grows with its cutoff.
pub proof fn lemma_wsum_mono(c: Seq<int>, w: Seq<int>, n: int, m: int)
    requires
        0 <= n <= m,
        forall|i: int| 0 <= i < m ==> #[trigger] c[i] >= 0,
        forall|i: int| 0 <= i < m ==> #[trigger] w[i] >= 0,
    ensures
        wsum(c, w, n) <= wsum(c, w, m),
    decreases m - n,
{
    if n < m {
        lemma_wsum_mono(c, w, n, m - 1);
        assert(c[m - 1] >= 0 && w[m - 1] >= 0);
        assert(c[m - 1] * w[m - 1] >= 0) by (nonlinear_arith)
            requires c[m - 1] >= 0 && w[m - 1] >= 0;
    }
}

/// Splitting the first term off a weighted sum.
pub proof fn lemma_wsum_head(c: Seq<int>, w: Seq<int>, n: int)
    requires
        1 <= n,
        n <= c.len(),
        n <= w.len(),
    ensures
        wsum(c, w, n) == c[0] * w[0] + wsum(c.skip(1), w.skip(1), n - 1),
    decreases n,
{
    if n == 1 {
        assert(wsum(c, w, 1) == wsum(c, w, 0) + c[0] * w[0]);
        assert(wsum(c.skip(1), w.skip(1), 0) == 0);
    } else {
        lemma_wsum_head(c, w, n - 1);
        assert(c.skip(1)[n - 2] == c[n - 1]);
        assert(w.skip(1)[n - 2] == w[n - 1]);
        assert(wsum(c.skip(1), w.skip(1), n - 1)
            == wsum(c.skip(1), w.skip(1), n - 2) + c.skip(1)[n - 2] * w.skip(1)[n - 2]);
    }
}

/// Splitting a weighted sum at an arbitrary cutoff `m`.
pub proof fn lemma_wsum_split(c: Seq<int>, w: Seq<int>, n: int, m: int)
    requires
        0 <= m <= n,
        n <= c.len(),
        n <= w.len(),
    ensures
        wsum(c, w, n) == wsum(c, w, m) + wsum(c.skip(m), w.skip(m), n - m),
    decreases n - m,
{
    if m < n {
        lemma_wsum_split(c, w, n - 1, m);
        assert(c.skip(m)[n - 1 - m] == c[n - 1]);
        assert(w.skip(m)[n - 1 - m] == w[n - 1]);
    }
}

/// Weighted sums agree on coefficient sequences that agree below the
/// cutoff.
pub proof fn lemma_wsum_congr(a: Seq<int>, b: Seq<int>, w: Seq<int>, n: int)
    requires
        forall|i: int| 0 <= i < n ==> #[trigger] a[i] == b[i],
    ensures
        wsum(a, w, n) == wsum(b, w, n),
    decreases n,
{
    if n > 0 {
        lemma_wsum_congr(a, b, w, n - 1);
    }
}

/// A weighted sum of all-zero coefficients vanishes.
pub proof fn lemma_wsum_zero(c: Seq<int>, w: Seq<int>, n: int)
    requires
        forall|i: int| 0 <= i < n ==> #[trigger] c[i] == 0,
    ensures
        wsum(c, w, n) == 0,
    decreases n,
{
    if n > 0 {
        lemma_wsum_zero(c, w, n - 1);
    }
}

/// The tail of the canonical strides of `shape` is the canonical strides
/// of the tail of `shape`.
pub proof fn lemma_strides_skip(shape: Seq<int>, m: int)
    requires
        0 <= m <= shape.len(),
    ensures
        strides_of(shape).skip(m) =~= strides_of(shape.skip(m)),
{
    assert forall|i: int| 0 <= i < shape.len() - m
        implies strides_of(shape).skip(m)[i] == strides_of(shape.skip(m))[i] by {
        assert(shape.skip(m).skip(i + 1) =~= shape.skip(m + i + 1));
    }
}

/// The componentwise largest coordinate of a box sits at its last flat
/// position.
pub proof fn lemma_wsum_maxed(shape: Seq<int>)
    requires
        forall|i: int| 0 <= i < shape.len() ==> #[trigger] shape[i] >= 1,
    ensures
        wsum(
            Seq::new(shape.len(), |i: int| shape[i] - 1),
            strides_of(shape),
            shape.len() as int,
        ) == prod(shape) - 1,
    decreases shape.len(),
{
    let n = shape.len() as int;
    let c = Seq::new(shape.len(), |i: int| shape[i] - 1);
    let w = strides_of(shape);
    if n == 0 {
        assert(wsum(c, w, 0) == 0);
    } else {
        let tail = shape.skip(1);
        assert forall|i: int| 0 <= i < tail.len() implies #[trigger] tail[i] >= 1 by {
            assert(tail[i] == shape[i + 1]);
        }
        lemma_wsum_maxed(tail);
        lemma_wsum_head(c, w, n);
        lemma_strides_skip(shape, 1);
        assert(c.skip(1) =~= Seq::new(tail.len(), |i: int| tail[i] - 1));
        assert(w.skip(1) =~= strides_of(tail));
        assert(shape.skip(0) =~= shape);
        lemma_prod_skip_unfold(shape, 0);
        assert(c[0] == shape[0] - 1);
        assert(w[0] == prod(tail));
        assert(wsum(c.skip(1), w.skip(1), n - 1) == prod(tail) - 1);
        assert((shape[0] - 1) * prod(tail) + (prod(tail) - 1) == shape[0] * prod(tail) - 1)
            by (nonlinear_arith);
    }
}

/// Each digit of the mixed-radix decode of `f` under the canonical strides
/// of `shape` stays below its extent, and re-encoding the digits with the
/// same strides gives `f` back.
#[verifier::rlimit(50)]
pub proof fn lemma_unravel_ravel(shape: Seq<int>, f: int)
    requires
        forall|i: int| 0 <= i < shape.len() ==> #[trigger] shape[i] >= 0,
        0 <= f < prod(shape),
    ensures
        wsum(unravel_of(f, strides_of(shape)), strides_of(shape), shape.len() as int) == f,
        forall|i: int| 0 <= i < shape.len()
            ==> 0 <= #[trigger] unravel_of(f, strides_of(shape))[i] < shape[i],
    decreases shape.len(),
{
    let st = strides_of(shape);
    let u = unravel_of(f, st);
    let n = shape.len() as int;
    if n == 0 {
        assert(wsum(u, st, 0) == 0);
    } else {
        let s0 = st[0];
        assert(shape.skip(0) =~= shape);
        lemma_prod_skip_unfold(shape, 0);
        assert forall|i: int| 0 <= i < shape.skip(1).len() implies #[trigger] shape.skip(1)[i] >= 0 by {
            assert(shape.skip(1)[i] == shape[i + 1]);
        }
        lemma_prod_nonneg(shape.skip(1));
        assert(shape[0] > 0 && s0 > 0) by (nonlinear_arith)
            requires
                shape[0] >= 0,
                s0 >= 0,
                shape[0] * s0 > 0,
        ;
        let d0 = f / s0;
        let r = f % s0;
        vstd::arithmetic::div_mod::lemma_fundamental_div_mod(f, s0);
        vstd::arithmetic::div_mod::lemma_mod_bound(f, s0);
        vstd::arithmetic::div_mod::lemma_div_pos_is_pos(f, s0);
        vstd::arithmetic::div_mod::lemma_multiply_divide_lt(f, s0, shape[0]);
        assert(s0 * shape[0] == shape[0] * s0) by (nonlinear_arith);
        let shape1 = shape.skip(1);
        let st1 = strides_of(shape1);
        lemma_strides_skip(shape, 1);
        assert(r < prod(shape1));
        lemma_unravel_ravel(shape1, r);
        let u1 = unravel_of(r, st1);
        assert(u[0] == d0);
        assert forall|i: int| 1 <= i < n implies u[i] == u1[i - 1] by {
            lemma_rem_shift(f, st, i);
            assert(st.skip(1)[i - 1] == st[i]);
        }
        lemma_wsum_head(u, st, n);
        assert(u.skip(1) =~= u1);
        assert(st.skip(1) =~= st1);
        assert(wsum(u.skip(1), st.skip(1), n - 1) == wsum(u1, st1, n - 1));
        assert(wsum(u1, st1, n - 1) == r);
        assert(wsum(u, st, n) == d0 * s0 + r);
        assert(d0 * s0 == s0 * d0) by (nonlinear_arith);
        assert(f == s0 * d0 + r);
        assert forall|i: int| 0 <= i < n implies 0 <= #[trigger] u[i] < shape[i] by {
            if i >= 1 {
                assert(u[i] == u1[i - 1]);
                assert(shape1[i - 1] == shape[i]);
            }
        }
    }
}

/// Shifting the running remainder of the decode past the first axis.
pub proof fn lemma_rem_shift(f: int, st: Seq<int>, i: int)
    requires
        1 <= i <= st.len(),
    ensures
        rem_at(f, st, i) == rem_at(f % st[0], st.skip(1), i - 1),
    decreases i,
{
    if i == 1 {
        assert(rem_at(f, st, 1) == rem_at(f, st, 0) % st[0]);
        assert(rem_at(f % st[0], st.skip(1), 0) == f % st[0]);
    } else {
        lemma_rem_shift(f, st, i - 1);
        assert(st.skip(1)[i - 2] == st[i - 1]);
        assert(rem_at(f, st, i) == rem_at(f, st, i - 1) % st[i - 1]);
        assert(rem_at(f % st[0], st.skip(1), i - 1)
            == rem_at(f % st[0], st.skip(1), i - 2) % st.skip(1)[i - 2]);
    }
}

/// The product of a sequence of ones is one.
pub proof fn lemma_prod_ones(n: int)
    requires
        n >= 0,
    ensures
        prod(Seq::new(n as nat, |i: int| 1int)) == 1,
    decreases n,
{
    if n > 0 {
        lemma_prod_ones(n - 1);
        assert(Seq::new(n as nat, |i: int| 1int).skip(1) =~= Seq::new((n - 1) as nat, |i: int| 1int));
    }
}

/// The run of flat offsets covered by a contiguous boxed region fits inside
/// the buffer: the region's starting offset plus its element count is at
/// most the total element count of `shape`.
#[verifier::rlimit(50)]
pub proof fn lemma_window_bound(start: Seq<int>, sub: Seq<int>, shape: Seq<int>)
    requires
        start.len() == shape.len(),
        sub.len() == shape.len(),
        forall|i: int| 0 <= i < shape.len() ==> 0 <= #[trigger] start[i],
        forall|i: int| 0 <= i < shape.len() ==> 0 <= #[trigger] sub[i],
        forall|i: int| 0 <= i < shape.len() ==> start[i] + sub[i] <= #[trigger] shape[i],
        region_contiguous(sub, shape),
    ensures
        wsum(start, strides_of(shape), shape.len() as int) >= 0,
        wsum(start, strides_of(shape), shape.len() as int) + prod(sub) <= prod(shape),
    decreases shape.len(),
{
    let st = strides_of(shape);
    let n = shape.len() as int;
    if n == 0 {
        assert(wsum(start, st, 0) == 0);
    } else {
        let k = choose|k: int| 0 <= k < shape.len() && #[trigger] contiguous_at(sub, shape, k);
        let s0 = st[0];
        assert(shape.skip(0) =~= shape);
        lemma_prod_skip_unfold(shape, 0);
        assert forall|i: int| 0 <= i < shape.skip(1).len() implies #[trigger] shape.skip(1)[i] >= 0 by {
            assert(shape.skip(1)[i] == shape[i + 1]);
        }
        lemma_prod_nonneg(shape.skip(1));
        lemma_wsum_head(start, st, n);
        assert(sub.skip(0) =~= sub);
        lemma_prod_skip_unfold(sub, 0);
        lemma_strides_skip(shape, 1);
        assert forall|i: int| 0 <= i < n - 1 implies 0 <= #[trigger] start.skip(1)[i] by {
            assert(start.skip(1)[i] == start[i + 1]);
        }
        assert forall|i: int| 0 <= i < n - 1 implies 0 <= #[trigger] st.skip(1)[i] by {
            assert forall|j: int| 0 <= j < shape.skip(1).skip(i + 1).len()
                implies #[trigger] shape.skip(1).skip(i + 1)[j] >= 0 by {
                assert(shape.skip(1).skip(i + 1)[j] == shape[i + 2 + j]);
            }
            lemma_prod_nonneg(shape.skip(1).skip(i + 1));
            assert(st.skip(1)[i] == strides_of(shape.skip(1))[i]);
        }
        if k == 0 {
            // every inner axis is taken in full, so the outer coordinate is 0 there
            assert forall|i: int| 0 <= i < n - 1 implies #[trigger] start.skip(1)[i] == 0 by {
                assert(sub[i + 1] == shape[i + 1]);
                assert(start.skip(1)[i] == start[i + 1]);
            }
            lemma_wsum_zero(start.skip(1), st.skip(1), n - 1);
            assert(sub.skip(1) =~= shape.skip(1));
            assert(start[0] * s0 + sub[0] * s0 <= shape[0] * s0) by (nonlinear_arith)
                requires
                    start[0] + sub[0] <= shape[0],
                    s0 >= 0,
            ;
            assert(start[0] * s0 >= 0) by (nonlinear_arith)
                requires
                    start[0] >= 0,
                    s0 >= 0,
            ;
            assert(prod(sub.skip(1)) == s0);
            assert(wsum(start, st, n) == start[0] * s0);
            assert(prod(sub) == sub[0] * s0);
            assert(prod(shape) == shape[0] * s0);
        } else {
            assert(sub[0] == 1);
            assert(contiguous_at(sub.skip(1), shape.skip(1), k - 1)) by {
                assert forall|i: int| k - 1 < i < n - 1
                    implies #[trigger] sub.skip(1)[i] == shape.skip(1)[i] by {
                    assert(sub.skip(1)[i] == sub[i + 1]);
                    assert(shape.skip(1)[i] == shape[i + 1]);
                }
                assert forall|i: int| 0 <= i < k - 1 implies #[trigger] sub.skip(1)[i] == 1 by {
                    assert(sub.skip(1)[i] == sub[i + 1]);
                }
            }
            assert forall|i: int| 0 <= i < n - 1 implies 0 <= #[trigger] sub.skip(1)[i] by {
                assert(sub.skip(1)[i] == sub[i + 1]);
            }
            assert forall|i: int| 0 <= i < n - 1
                implies start.skip(1)[i] + sub.skip(1)[i] <= #[trigger] shape.skip(1)[i] by {
                assert(start.skip(1)[i] == start[i + 1]);
                assert(sub.skip(1)[i] == sub[i + 1]);
                assert(shape.skip(1)[i] == shape[i + 1]);
            }
            lemma_window_bound(start.skip(1), sub.skip(1), shape.skip(1));
            assert(wsum(start.skip(1), st.skip(1), n - 1) + prod(sub.skip(1)) <= s0);
            assert(start[0] * s0 + s0 <= shape[0] * s0) by (nonlinear_arith)
                requires
                    start[0] + 1 <= shape[0],
                    s0 >= 0,
            ;
            assert(start[0] * s0 >= 0) by (nonlinear_arith)
                requires
                    start[0] >= 0,
                    s0 >= 0,
            ;
            assert(wsum(start, st, n) == start[0] * s0 + wsum(start.skip(1), st.skip(1), n - 1));
            assert(prod(sub) == prod(sub.skip(1)));
            assert(prod(shape) == shape[0] * s0);
            assert(wsum(start, st, n) + prod(sub) <= start[0] * s0 + s0);
        }
    }
}

/// A coordinate that is in bounds on every axis encodes to a flat offset
/// strictly below the element count of `shape`.
pub proof fn lemma_coord_bound(c: Seq<int>, shape: Seq<int>)
    requires
        c.len() == shape.len(),
        forall|i: int| 0 <= i < shape.len() ==> 0 <= #[trigger] c[i] < shape[i],
    ensures
        wsum(c, strides_of(shape), shape.len() as int) >= 0,
        wsum(c, strides_of(shape), shape.len() as int) + 1 <= prod(shape),
{
    let ones = Seq::new(shape.len(), |i: int| 1int);
    if shape.len() > 0 {
        assert(contiguous_at(ones, shape, shape.len() - 1));
    }
    lemma_window_bound(c, ones, shape);
    lemma_prod_ones(shape.len() as int);
}

/// An element-for-element copy of a dimension vector.
pub fn copy_dims(v: &Vec<usize>) -> (r: Vec<usize>)
    ensures
        r@ =~= v@,
{
    let n = v.len();
    let mut r: Vec<usize> = Vec::new();
    let mut i: usize = 0;
    while i < n
        invariant
            n == v@.len(),
            i <= n,
            r@ =~= v@.take(i as int),
        decreases n - i,
    {
        r.push(v[i]);
        i = i + 1;
    }
    r
}

/// Canonical row-major strides for `shape`, computed with a right-to-left
/// suffix product; the last axis gets stride 1.
pub fn compute_strides(shape: &Vec<usize>) -> (r: Vec<usize>)
    requires
        fits(to_ints(shape@)),
    ensures
        r@.len() == shape@.len(),
        to_ints(r@) =~= strides_of(to_ints(shape@)),
{
    let ghost s = to_ints(shape@);
    let n = shape.len();
    let mut r: Vec<usize> = Vec::new();
    let mut j: usize = 0;
    while j < n
        invariant
            r@.len() == j,
            j <= n,
        decreases n - j,
    {
        r.push(0);
        j = j + 1;
    }
    let mut acc: usize = 1;
    let mut i: usize = n;
    while i > 0
        invariant
            n == shape@.len(),
            r@.len() == n,
            i <= n,
            fits(s),
            s == to_ints(shape@),
            acc as int == prod(s.skip(i as int)),
            forall|k: int| i <= k < n ==> #[trigger] r@[k] as int == prod(s.skip(k + 1)),
        decreases i,
    {
        i = i - 1;
        r.set(i, acc);
        proof {
            lemma_prod_skip_unfold(s, i as int);
            assert forall|m: int| 0 <= m < s.skip(i as int + 1).len()
                implies #[trigger] s.skip(i as int + 1)[m] >= 0 by {
                assert(s.skip(i as int + 1)[m] == s[i + 1 + m]);
            }
            lemma_prod_nonneg(s.skip(i as int + 1));
            lemma_prod_nonneg(s.skip(i as int));
            assert(prod(s.skip(i as int)) <= usize::MAX as int);
            assert(acc as int * (shape@[i as int] as int) == prod(s.skip(i as int)))
                by (nonlinear_arith)
                requires
                    acc as int == prod(s.skip(i as int + 1)),
                    prod(s.skip(i as int)) == s[i as int] * prod(s.skip(i as int + 1)),
                    s[i as int] == shape@[i as int] as int,
            ;
        }
        acc = acc * shape[i];
    }
    r
}

/// The flat offset of `index` under `strides`: the dot product of the two.
pub fn ravel_index(index: &Vec<usize>, strides: &Vec<usize>) -> (r: usize)
    requires
        index@.len() == strides@.len(),
        wsum(to_ints(index@), to_ints(strides@), index@.len() as int) <= usize::MAX as int,
    ensures
        r as int == wsum(to_ints(index@), to_ints(strides@), index@.len() as int),
{
    let ghost c = to_ints(index@);
    let ghost w = to_ints(strides@);
    let n = index.len();
    let mut acc: usize = 0;
    let mut i: usize = 0;
    while i < n
        invariant
            n == index@.len(),
            n == strides@.len(),
            c == to_ints(index@),
            w == to_ints(strides@),
            i <= n,
            wsum(c, w, n as int) <= usize::MAX as int,
            acc as int == wsum(c, w, i as int),
        decreases n - i,
    {
        proof {
            assert forall|k: int| 0 <= k < n implies #[trigger] c[k] >= 0 by {}
            assert forall|k: int| 0 <= k < n implies #[trigger] w[k] >= 0 by {}
            lemma_wsum_mono(c, w, i as int + 1, n as int);
            lemma_wsum_mono(c, w, 0, i as int);
            assert(wsum(c, w, i as int + 1) == wsum(c, w, i as int) + c[i as int] * w[i as int]);
        }
        acc = acc + index[i] * strides[i];
        i = i + 1;
    }
    acc
}

/// The multi-axis coordinate whose flat offset is `index`, decoded with a
/// running remainder. Meaningful when `strides` are the canonical strides
/// of some shape; every stride must be positive.
pub fn unravel_index(index: usize, strides: &Vec<usize>) -> (r: Vec<usize>)
    requires
        forall|i: int| 0 <= i < strides@.len() ==> #[trigger] strides@[i] >= 1,
    ensures
        r@.len() == strides@.len(),
        to_ints(r@) =~= unravel_of(index as int, to_ints(strides@)),
{
    let ghost w = to_ints(strides@);
    let n = strides.len();
    let mut rem: usize = index;
    let mut r: Vec<usize> = Vec::new();
    let mut i: usize = 0;
    while i < n
        invariant
            n == strides@.len(),
            w == to_ints(strides@),
            forall|k: int| 0 <= k < n ==> #[trigger] strides@[k] >= 1,
            i <= n,
            r@.len() == i,
            rem as int == rem_at(index as int, w, i as int),
            forall|k: int| 0 <= k < i ==> #[trigger] r@[k] as int == unravel_of(index as int, w)[k],
        decreases n - i,
    {
        let q = rem / strides[i];
        r.push(q);
        proof {
            assert(rem_at(index as int, w, i as int + 1)
                == rem_at(index as int, w, i as int) % w[i as int]);
        }
        rem = rem % strides[i];
        i = i + 1;
    }
    r
}

/// The extent of the boxed region `[start, stop)` on each axis.
pub fn shape_from_bounds(start: &Vec<usize>, stop: &Vec<usize>) -> (r: Vec<usize>)
    requires
        start@.len() == stop@.len(),
        forall|i: int| 0 <= i < start@.len() ==> #[trigger] start@[i] <= stop@[i],
    ensures
        r@.len() == start@.len(),
        to_ints(r@) =~= sub_shape_of(to_ints(start@), to_ints(stop@)),
{
    let n = start.len();
    let mut r: Vec<usize> = Vec::new();
    let mut i: usize = 0;
    while i < n
        invariant
            n == start@.len(),
            n == stop@.len(),
            forall|k: int| 0 <= k < n ==> #[trigger] start@[k] <= stop@[k],
            i <= n,
            r@.len() == i,
            forall|k: int| 0 <= k < i ==> #[trigger] r@[k] == stop@[k] - start@[k],
        decreases n - i,
    {
        r.push(stop[i] - start[i]);
        i = i + 1;
    }
    r
}

/// Whether the region selected by `range` is memory-contiguous within an
/// array of extents `shape`: any step other than one fails immediately;
/// otherwise the axes are scanned from the innermost outward, and the
/// region is contiguous exactly when every axis is taken in full until the
/// first partial axis, outside of which every axis selects a single slab.
pub fn is_contiguous(range: &crate::ranges::Range, shape: &Vec<usize>) -> (r: bool)
    requires
        range.dims_ok(),
        range.arity() == shape@.len(),
        range.bounds_ok(),
    ensures
        r == range.contiguous_in(to_ints(shape@)),
{
    let ghost subi = range.sub_shape();
    let ghost shapei = to_ints(shape@);
    let n = shape.len();
    let mut i: usize = 0;
    while i < n
        invariant
            n == shape@.len(),
            range.dims_ok(),
            range.arity() == n,
            range.bounds_ok(),
            i <= n,
            forall|m: int| 0 <= m < i ==> #[trigger] range.steps()[m] == 1,
        decreases n - i,
    {
        if range.step[i] != 1 {
            proof {
                assert(range.steps()[i as int] == range.step@[i as int] as int);
            }
            return false;
        }
        proof {
            assert(range.steps()[i as int] == range.step@[i as int] as int);
        }
        i = i + 1;
    }
    proof {
        assert forall|m: int| 0 <= m < range.start@.len()
            implies #[trigger] range.start@[m] <= range.stop@[m] by {
            assert(range.starts()[m] <= range.stops()[m]);
        }
    }
    let sub = shape_from_bounds(&range.start, &range.stop);
    let mut k: usize = n;
    loop
        invariant
            n == shape@.len(),
            sub@.len() == n,
            to_ints(sub@) =~= subi,
            shapei == to_ints(shape@),
            k <= n,
            forall|m: int| k <= m < n ==> #[trigger] subi[m] == shapei[m],
        ensures
            k <= n,
            forall|m: int| k <= m < n ==> #[trigger] subi[m] == shapei[m],
            k > 0 ==> subi[k - 1] != shapei[k - 1],
        decreases k,
    {
        if k == 0 {
            break;
        }
        proof {
            assert(to_ints(sub@)[k - 1] == sub@[k - 1] as int);
            assert(to_ints(shape@)[k - 1] == shape@[k - 1] as int);
        }
        if sub[k - 1] == shape[k - 1] {
            k = k - 1;
        } else {
            break;
        }
    }
    if k == 0 {
        proof {
            if n > 0 {
                assert(contiguous_at(subi, shapei, 0));
            }
        }
        return true;
    }
    let p = k - 1;
    let mut j: usize = 0;
    while j < p
        invariant
            n == shape@.len(),
            sub@.len() == n,
            to_ints(sub@) =~= subi,
            subi == range.sub_shape(),
            shapei == to_ints(shape@),
            0 <= p < n,
            subi[p as int] != shapei[p as int],
            forall|m: int| p < m < n ==> #[trigger] subi[m] == shapei[m],
            j <= p,
            forall|m: int| 0 <= m < j ==> #[trigger] subi[m] == 1,
        decreases p - j,
    {
        proof {
            assert(to_ints(sub@)[j as int] == sub@[j as int] as int);
        }
        if sub[j] != 1 {
            proof {
                let bad = j as int;
                assert(subi[bad] != 1);
                assert forall|kk: int| 0 <= kk < n
                    implies !#[trigger] contiguous_at(subi, shapei, kk) by {
                    if contiguous_at(subi, shapei, kk) {
                        if kk < p {
                            assert(subi[p as int] == shapei[p as int]);
                        } else {
                            assert(bad < kk);
                            assert(subi[bad] == 1);
                        }
                        assert(false);
                    }
                }
                assert(!region_contiguous(subi, shapei));
                assert(!range.contiguous_in(to_ints(shape@)));
            }
            return false;
        }
        j = j + 1;
    }
    proof {
        assert(contiguous_at(subi, shapei, p as int));
    }
    true
}

/// The number of elements of a dense array with the given extents.
pub fn product_of(dims: &Vec<usize>) -> (r: usize)
    requires
        fits(to_ints(dims@)),
    ensures
        r as int == prod(to_ints(dims@)),
{
    let ghost s = to_ints(dims@);
    let mut acc: usize = 1;
    let mut i: usize = dims.len();
    while i > 0
        invariant
            dims@.len() == s.len(),
            s == to_ints(dims@),
            fits(s),
            i <= s.len(),
            acc as int == prod(s.skip(i as int)),
        decreases i,
    {
        i = i - 1;
        proof {
            lemma_prod_skip_unfold(s, i as int);
            assert forall|m: int| 0 <= m < s.skip(i as int + 1).len()
                implies #[trigger] s.skip(i as int + 1)[m] >= 0 by {
                assert(s.skip(i as int + 1)[m] == s[i + 1 + m]);
            }
            lemma_prod_nonneg(s.skip(i as int + 1));
            lemma_prod_nonneg(s.skip(i as int));
            assert(prod(s.skip(i as int)) <= usize::MAX as int);
            assert(acc as int * (dims@[i as int] as int) == prod(s.skip(i as int)))
                by (nonlinear_arith)
                requires
                    acc as int == prod(s.skip(i as int + 1)),
                    prod(s.skip(i as int)) == s[i as int] * prod(s.skip(i as int + 1)),
                    s[i as int] == dims@[i as int] as int,
            ;
        }
        acc = acc * dims[i];
    }
    proof {
        assert(s.skip(0) =~= s);
    }
    acc
}

} // verus!
