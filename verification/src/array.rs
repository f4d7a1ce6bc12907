//! Owned dense arrays and borrowed views over them, with the allocate,
//! access, copy-extract, view-extract and reshape operations expressed as
//! capability traits implemented by both kinds.

use vstd::prelude::*;

use crate::Error;
use crate::field::Field;
use crate::index_tricks::{
    to_ints, prod, wsum, strides_of, fits, compute_strides, product_of, ravel_index,
    shape_from_bounds, is_contiguous, copy_dims, lemma_coord_bound, lemma_window_bound,
    lemma_prod_pointwise_le, lemma_prod_nonneg,
};
use crate::ranges::{
    Range, emission, advance, rel_pos, lemma_rel_pos_bound, lemma_advance_pos,
    lemma_emission_congruent,
};
use vstd::slice::slice_subrange;
use vstd::view::View as _;

verus! {

/// The common model of an owned array and of a borrowed view: per-axis
/// extents, a flat row-major buffer, and the structural invariant that
/// the strides are canonical and the buffer is exactly full.
pub trait ArrayBase {
    type Elem: Field;

    /// The extents of the array, one per axis.
    spec fn shape_model(&self) -> Seq<int>;

    /// The flat row-major buffer contents.
    spec fn data_model(&self) -> Seq<Self::Elem>;

    /// Canonical strides, a buffer of exactly `prod(shape)` elements, and
    /// extents whose suffix products fit in a machine word.
    spec fn inv(&self) -> bool;
}

/// A dense array owning its buffer.
#[derive(Clone, Debug, PartialEq)]
pub struct Array<K> {
    pub shape: Vec<usize>,
    pub strides: Vec<usize>,
    pub data: Vec<K>,
}

/// A non-owning window over a contiguous part of some array's (or other
/// view's) buffer, with its own shape and canonical strides. The borrow
/// makes it impossible for the view to outlive the buffer it looks into.
#[derive(Clone, Debug, PartialEq)]
pub struct ArrayView<'a, K> {
    pub shape: Vec<usize>,
    pub strides: Vec<usize>,
    pub data: &'a [K],
}

impl<K: Field> ArrayBase for Array<K> {
    type Elem = K;

    open spec fn shape_model(&self) -> Seq<int> {
        to_ints(self.shape@)
    }

    open spec fn data_model(&self) -> Seq<K> {
        self.data@
    }

    open spec fn inv(&self) -> bool {
        &&& self.strides@.len() == self.shape@.len()
        &&& to_ints(self.strides@) == strides_of(to_ints(self.shape@))
        &&& self.data@.len() == prod(to_ints(self.shape@))
        &&& fits(to_ints(self.shape@))
    }
}

impl<'a, K: Field> ArrayBase for ArrayView<'a, K> {
    type Elem = K;

    open spec fn shape_model(&self) -> Seq<int> {
        to_ints(self.shape@)
    }

    open spec fn data_model(&self) -> Seq<K> {
        self.data@
    }

    open spec fn inv(&self) -> bool {
        &&& self.strides@.len() == self.shape@.len()
        &&& to_ints(self.strides@) == strides_of(to_ints(self.shape@))
        &&& self.data@.len() == prod(to_ints(self.shape@))
        &&& fits(to_ints(self.shape@))
    }
}

/// Read access to the per-axis extents.
pub trait Shape: ArrayBase {
    /// The extents of the array, one per axis.
    fn shape(&self) -> (r: &Vec<usize>)
        ensures
            to_ints(r@) == self.shape_model(),
    ;
}

/// Read access to the per-axis strides.
pub trait Strides: ArrayBase {
    /// The canonical row-major strides of the shape.
    fn strides(&self) -> (r: &Vec<usize>)
        requires
            self.inv(),
        ensures
            to_ints(r@) == strides_of(self.shape_model()),
    ;
}

/// Zero-filled allocation.
pub trait Zeros: ArrayBase + Sized {
    /// A fresh array of the given extents, every element zero.
    fn zeros(shape: &Vec<usize>) -> (r: Self)
        requires
            fits(to_ints(shape@)),
        ensures
            r.inv(),
            r.shape_model() == to_ints(shape@),
            r.data_model().len() == prod(to_ints(shape@)),
            forall|i: int| 0 <= i < r.data_model().len()
                ==> r.data_model()[i] == <Self::Elem as Field>::zero_spec(),
    ;
}

/// Allocation with arbitrary contents. No implementation is provided
/// here; it is a capability left for callers that bring a source of
/// values.
pub trait Rand {
    type Shape;

    type Output;

    /// A fresh array of the given extents.
    fn rand(shape: &Self::Shape) -> Self::Output;
}

impl<K: Field> Shape for Array<K> {
    fn shape(&self) -> (r: &Vec<usize>) {
        &self.shape
    }
}

impl<K: Field> Strides for Array<K> {
    fn strides(&self) -> (r: &Vec<usize>) {
        &self.strides
    }
}

impl<K: Field> Zeros for Array<K> {
    fn zeros(shape: &Vec<usize>) -> (r: Self) {
        let strides = compute_strides(shape);
        let count = product_of(shape);
        let mut data: Vec<K> = Vec::new();
        let mut i: usize = 0;
        while i < count
            invariant
                i <= count,
                data@.len() == i,
                forall|m: int| 0 <= m < i ==> #[trigger] data@[m] == K::zero_spec(),
            decreases count - i,
        {
            data.push(K::zero_val());
            i = i + 1;
        }
        let shape_copy = crate::index_tricks::copy_dims(shape);
        proof {
            assert(to_ints(shape_copy@) =~= to_ints(shape@));
            assert(to_ints(strides@) =~= strides_of(to_ints(shape@)));
        }
        Array { shape: shape_copy, strides, data }
    }
}

/// The flat offset at which the region selected by `range` begins, under
/// the canonical strides of the source extents `shape`.
pub open spec fn region_offset(range: Range, shape: Seq<int>) -> int {
    wsum(range.starts(), strides_of(shape), shape.len() as int)
}

/// Zero-copy extraction of a contiguous sub-region.
pub trait View: ArrayBase {
    /// A window over the region selected by `range`: fails with the
    /// memory error exactly when the region is not contiguous; on success
    /// the window aliases the run of flat offsets the region occupies in
    /// the source buffer, located with the source's strides, under the
    /// result's own canonical strides.
    fn view<'a>(&'a self, range: &Range) -> (r: Result<ArrayView<'a, Self::Elem>, Error>)
        requires
            self.inv(),
            range.dims_ok(),
            range.arity() == self.shape_model().len(),
            range.bounds_ok(),
            range.within(self.shape_model()),
        ensures
            match r {
                Ok(out) => range.contiguous_in(self.shape_model()) && out.inv()
                    && to_ints(out.shape@) == range.sub_shape() && out.data@
                    == self.data_model().subrange(
                    region_offset(*range, self.shape_model()),
                    region_offset(*range, self.shape_model()) + prod(range.sub_shape()),
                ),
                Err(e) => !range.contiguous_in(self.shape_model()) && e is MemoryError,
            },
    ;
}

/// Shape reinterpretation over the same buffer.
pub trait Reshape: ArrayBase + Sized {
    /// The same elements in the same flat order under new extents, whose
    /// arity may differ; fails with the dimension error exactly when the
    /// element counts differ.
    fn reshape(self, shape: &Vec<usize>) -> (r: Result<Self, Error>)
        requires
            self.inv(),
            fits(to_ints(shape@)),
        ensures
            match r {
                Ok(out) => prod(to_ints(shape@)) == prod(self.shape_model()) && out.inv()
                    && out.shape_model() == to_ints(shape@) && out.data_model()
                    == self.data_model(),
                Err(e) => prod(to_ints(shape@)) != prod(self.shape_model())
                    && e is DimensionError,
            },
    ;
}

/// Copying extraction over an arbitrary-step region.
pub trait Slice: ArrayBase {
    /// A fresh array of the region's boxed extents `stop - start`. Its
    /// buffer is filled from the front with the source elements at the
    /// range's coordinates, in the range's emission order; the positions
    /// behind the emitted prefix stay zero. This is the one extraction
    /// path that supports steps other than one.
    fn slice(&self, range: &Range) -> (r: Array<Self::Elem>)
        requires
            self.inv(),
            range.iter_wf(),
            range.within(self.shape_model()),
        ensures
            r.inv(),
            r.shape_model() == range.sub_shape(),
            r.data_model().len() == prod(range.sub_shape()),
            exists|e: Seq<Seq<int>>|
                {
                    &&& #[trigger] emission(*range, e)
                    &&& e.len() == prod(crate::ranges::caps(*range))
                    &&& e.len() <= prod(range.sub_shape())
                    &&& forall|j: int| 0 <= j < e.len() ==> r.data_model()[j]
                        == self.data_model()[wsum(
                        e[j],
                        strides_of(self.shape_model()),
                        self.shape_model().len() as int,
                    )]
                    &&& forall|j: int| e.len() <= j < prod(range.sub_shape())
                        ==> r.data_model()[j] == <Self::Elem as Field>::zero_spec()
                },
    ;
}

impl<K: Field> Slice for Array<K> {
    fn slice(&self, range: &Range) -> (r: Array<K>) {
        let ghost shp = to_ints(self.shape@);
        let ghost n = shp.len() as int;
        proof {
            assert forall|i: int| 0 <= i < range.start@.len()
                implies #[trigger] range.start@[i] <= range.stop@[i] by {
                if i == 0 {
                    assert(range.starts()[0] <= range.stops()[0]);
                } else {
                    assert(range.starts()[i] < range.stops()[i]);
                }
            }
            assert(range.bounds_ok()) by {
                assert forall|i: int| 0 <= i < range.arity()
                    implies #[trigger] range.starts()[i] <= range.stops()[i] by {
                    if i > 0 {
                        assert(range.starts()[i] < range.stops()[i]);
                    }
                }
            }
        }
        let sub = shape_from_bounds(&range.start, &range.stop);
        let ghost subi = range.sub_shape();
        proof {
            assert(to_ints(sub@) =~= subi);
            assert forall|i: int| 0 <= i <= to_ints(sub@).len()
                implies #[trigger] prod(to_ints(sub@).skip(i)) <= usize::MAX as int by {
                assert forall|m: int| 0 <= m < to_ints(sub@).skip(i).len()
                    implies 0 <= #[trigger] to_ints(sub@).skip(i)[m] by {
                    assert(to_ints(sub@).skip(i)[m] == subi[i + m]);
                    assert(range.starts()[i + m] <= range.stops()[i + m]);
                }
                assert forall|m: int| 0 <= m < to_ints(sub@).skip(i).len()
                    implies #[trigger] to_ints(sub@).skip(i)[m] <= shp.skip(i)[m] by {
                    assert(to_ints(sub@).skip(i)[m] == subi[i + m]);
                    assert(shp.skip(i)[m] == shp[i + m]);
                    assert(range.starts()[i + m] >= 0);
                    assert(range.stops()[i + m] <= shp[i + m]);
                }
                lemma_prod_pointwise_le(to_ints(sub@).skip(i), shp.skip(i));
                assert(prod(shp.skip(i)) <= usize::MAX as int);
            }
            assert(fits(to_ints(sub@)));
        }
        let strides = compute_strides(&sub);
        let total = product_of(&sub);
        let range2 = Range {
            start: copy_dims(&range.start),
            stop: copy_dims(&range.stop),
            step: copy_dims(&range.step),
        };
        proof {
            assert(range2.start@ =~= range.start@);
            assert(range2.stop@ =~= range.stop@);
            assert(range2.step@ =~= range.step@);
            assert(range2.starts() == range.starts());
            assert(range2.stops() == range.stops());
            assert(range2.steps() == range.steps());
            assert(range2.iter_wf());
            assert(range2.sub_shape() == subi);
            assert(prod(to_ints(sub@)) == prod(subi));
        }
        let mut it = range2.into_iter();
        let mut out: Vec<K> = Vec::new();
        let ghost mut e: Seq<Seq<int>> = Seq::empty();
        proof {
            if to_ints(it.curr@)[0] < range2.stops()[0] {
                lemma_rel_pos_bound(range2, to_ints(it.curr@));
            }
        }
        loop
            invariant
                self.inv(),
                shp == to_ints(self.shape@),
                n == shp.len() as int,
                range2.iter_wf(),
                range2.within(shp),
                subi == range2.sub_shape(),
                total as int == prod(subi),
                it.wf(),
                it.range == range2,
                out@.len() == e.len(),
                e.len() <= prod(subi),
                !it.exhausted() ==> e.len() <= rel_pos(range2, to_ints(it.curr@)),
                e.len() == 0 ==> it.curr@ == range2.start@,
                e.len() > 0 ==> to_ints(it.curr@) == advance(range2, e[e.len() - 1]),
                e.len() > 0 ==> e[0] == range2.starts(),
                forall|j: int| 0 <= j < e.len()
                    ==> (#[trigger] e[j])[0] < range2.stops()[0],
                forall|j: int| 0 <= j < e.len() ==> (#[trigger] e[j]).len() == range2.arity(),
                forall|j: int| 0 <= j < e.len() - 1
                    ==> #[trigger] e[j + 1] == advance(range2, e[j]),
                forall|j: int| 0 <= j < e.len() ==> out@[j] == self.data@[wsum(
                    #[trigger] e[j],
                    strides_of(shp),
                    n,
                )],
            ensures
                it.exhausted(),
                out@.len() == e.len(),
                e.len() <= prod(subi),
                e.len() == 0 ==> it.curr@ == range2.start@,
                e.len() > 0 ==> to_ints(it.curr@) == advance(range2, e[e.len() - 1]),
                e.len() > 0 ==> e[0] == range2.starts(),
                forall|j: int| 0 <= j < e.len()
                    ==> (#[trigger] e[j])[0] < range2.stops()[0],
                forall|j: int| 0 <= j < e.len() ==> (#[trigger] e[j]).len() == range2.arity(),
                forall|j: int| 0 <= j < e.len() - 1
                    ==> #[trigger] e[j + 1] == advance(range2, e[j]),
                forall|j: int| 0 <= j < e.len() ==> out@[j] == self.data@[wsum(
                    #[trigger] e[j],
                    strides_of(shp),
                    n,
                )],
            decreases prod(subi) - e.len(),
        {
            let ghost curr_before = to_ints(it.curr@);
            let stepped = it.next();
            match stepped {
                Option::None => {
                    break;
                },
                Option::Some(c) => {
                    proof {
                        lemma_rel_pos_bound(range2, curr_before);
                        lemma_advance_pos(range2, curr_before);
                        assert forall|i: int| 0 <= i < to_ints(c@).len()
                            implies 0 <= #[trigger] to_ints(c@)[i] < shp[i] by {
                            assert(to_ints(c@)[i] == curr_before[i]);
                            if i == 0 {
                                assert(range2.starts()[0] <= curr_before[0]);
                                assert(curr_before[0] < range2.stops()[0]);
                            } else {
                                assert(range2.starts()[i] <= curr_before[i]);
                                assert(curr_before[i] < range2.stops()[i]);
                            }
                            assert(range2.stops()[i] <= shp[i]);
                        }
                        lemma_coord_bound(to_ints(c@), shp);
                        assert(shp.skip(0) =~= shp);
                        assert(prod(shp.skip(0)) <= usize::MAX as int);
                    }
                    let f = ravel_index(&c, &self.strides);
                    let v = self.data[f];
                    out.push(v);
                    proof {
                        e = e + seq![curr_before];
                        assert(e[e.len() - 1] == curr_before);
                        assert forall|j: int| 0 <= j < e.len() - 1
                            implies #[trigger] e[j + 1] == advance(range2, e[j]) by {
                            if j < e.len() - 2 {
                                assert(e[j] == e.take(e.len() - 1)[j]);
                            }
                        }
                    }
                },
            }
        }
        proof {
            assert(emission(range2, e)) by {
                if e.len() == 0 {
                    assert(it.curr@ == range2.start@);
                    assert(to_ints(it.curr@) == range2.starts());
                } else {
                    assert(advance(range2, e[e.len() - 1])[0] >= range2.stops()[0]);
                }
            }
            lemma_emission_congruent(range2, *range, e);
            crate::ranges::lemma_emission_count(range2, e);
            assert(crate::ranges::caps(range2) =~= crate::ranges::caps(*range));
        }
        let mut pad: usize = out.len();
        while pad < total
            invariant
                pad == out@.len(),
                e.len() <= out@.len() <= total,
                total as int == prod(subi),
                forall|j: int| 0 <= j < e.len() ==> out@[j] == self.data@[wsum(
                    #[trigger] e[j],
                    strides_of(shp),
                    n,
                )],
                forall|j: int| e.len() <= j < out@.len() ==> #[trigger] out@[j] == K::zero_spec(),
            decreases total - pad,
        {
            out.push(K::zero_val());
            pad = pad + 1;
        }
        proof {
            assert(to_ints(strides@) =~= strides_of(to_ints(sub@)));
        }
        Array { shape: sub, strides, data: out }
    }
}

impl<K: Field> Array<K> {
    /// The element at `coord`. The coordinate must be in bounds on every
    /// axis: this operation does not validate it, it demands it.
    pub fn index(&self, coord: &Vec<usize>) -> (r: K)
        requires
            self.inv(),
            coord@.len() == self.shape_model().len(),
            forall|i: int| 0 <= i < coord@.len()
                ==> 0 <= #[trigger] to_ints(coord@)[i] < self.shape_model()[i],
        ensures
            r == self.data_model()[wsum(
                to_ints(coord@),
                strides_of(self.shape_model()),
                coord@.len() as int,
            )],
    {
        proof {
            lemma_coord_bound(to_ints(coord@), self.shape_model());
            assert(to_ints(self.shape@).skip(0) =~= to_ints(self.shape@));
            assert(prod(to_ints(self.shape@).skip(0)) <= usize::MAX as int);
        }
        let f = ravel_index(coord, &self.strides);
        self.data[f]
    }

    /// Overwrite the element at `coord`; the rest of the array is kept.
    /// As with `index`, the coordinate must be in bounds on every axis.
    pub fn index_mut(&mut self, coord: &Vec<usize>, value: K)
        requires
            old(self).inv(),
            coord@.len() == old(self).shape_model().len(),
            forall|i: int| 0 <= i < coord@.len()
                ==> 0 <= #[trigger] to_ints(coord@)[i] < old(self).shape_model()[i],
        ensures
            final(self).inv(),
            final(self).shape == old(self).shape,
            final(self).strides == old(self).strides,
            final(self).data_model() == old(self).data_model().update(
                wsum(to_ints(coord@), strides_of(old(self).shape_model()), coord@.len() as int),
                value,
            ),
    {
        proof {
            lemma_coord_bound(to_ints(coord@), self.shape_model());
            assert(to_ints(self.shape@).skip(0) =~= to_ints(self.shape@));
            assert(prod(to_ints(self.shape@).skip(0)) <= usize::MAX as int);
        }
        let f = ravel_index(coord, &self.strides);
        self.data.set(f, value);
    }
}

/// A range that covers the full extent of `shape` with unit steps is
/// contiguous, its boxed sub-shape is `shape` itself, and its region
/// starts at flat offset zero. With the `View` contract this says that a
/// full-extent view keeps the source's shape (hence its strides) and
/// aliases the whole buffer, unchanged and unmoved.
pub proof fn lemma_view_of_full_range(range: Range, shape: Seq<int>)
    requires
        range.dims_ok(),
        range.arity() == shape.len(),
        forall|i: int| 0 <= i < shape.len() ==> #[trigger] range.starts()[i] == 0,
        forall|i: int| 0 <= i < shape.len() ==> #[trigger] range.stops()[i] == shape[i],
        range.steps_one(),
    ensures
        range.contiguous_in(shape),
        range.sub_shape() == shape,
        region_offset(range, shape) == 0,
{
    assert(range.sub_shape() =~= shape);
    if shape.len() > 0 {
        assert(crate::index_tricks::contiguous_at(range.sub_shape(), shape, 0));
    }
    crate::index_tricks::lemma_wsum_zero(range.starts(), strides_of(shape), shape.len() as int);
}

/// A step other than one on any axis defeats contiguity, whatever the
/// shape and bounds. With the `View` contract this says that such a
/// request always fails with the memory error.
pub proof fn lemma_step_not_one_never_contiguous(range: Range, shape: Seq<int>)
    requires
        exists|i: int| 0 <= i < range.arity() && #[trigger] range.steps()[i] != 1,
    ensures
        !range.contiguous_in(shape),
{
    let i = choose|i: int| 0 <= i < range.arity() && #[trigger] range.steps()[i] != 1;
    assert(range.steps()[i] != 1);
}

/// The shared body of both `View` implementations: validate contiguity,
/// then hand out the window of the buffer that the region occupies,
/// located with the source's strides.
fn view_window<'a, K: Field>(
    data: &'a [K],
    shape_vec: &Vec<usize>,
    strides_vec: &Vec<usize>,
    range: &Range,
) -> (r: Result<ArrayView<'a, K>, Error>)
    requires
        strides_vec@.len() == shape_vec@.len(),
        to_ints(strides_vec@) == strides_of(to_ints(shape_vec@)),
        data@.len() == prod(to_ints(shape_vec@)),
        fits(to_ints(shape_vec@)),
        range.dims_ok(),
        range.arity() == shape_vec@.len(),
        range.bounds_ok(),
        range.within(to_ints(shape_vec@)),
    ensures
        match r {
            Ok(out) => range.contiguous_in(to_ints(shape_vec@)) && out.inv()
                && to_ints(out.shape@) == range.sub_shape() && out.data@ == data@.subrange(
                region_offset(*range, to_ints(shape_vec@)),
                region_offset(*range, to_ints(shape_vec@)) + prod(range.sub_shape()),
            ),
            Err(e) => !range.contiguous_in(to_ints(shape_vec@)) && e is MemoryError,
        },
{
    let ghost shp = to_ints(shape_vec@);
    if !is_contiguous(range, shape_vec) {
        let mut msg = String::from_str("view: range from ");
        msg.append(crate::field::dims_text(&range.start).as_str());
        msg.append(" to ");
        msg.append(crate::field::dims_text(&range.stop).as_str());
        msg.append(" by ");
        msg.append(crate::field::dims_text(&range.step).as_str());
        msg.append(" is not contiguous within shape ");
        msg.append(crate::field::dims_text(shape_vec).as_str());
        return Err(Error::MemoryError(msg));
    }
    proof {
        assert forall|i: int| 0 <= i < range.start@.len()
            implies #[trigger] range.start@[i] <= range.stop@[i] by {
            assert(range.starts()[i] <= range.stops()[i]);
        }
    }
    let sub = shape_from_bounds(&range.start, &range.stop);
    let ghost subi = range.sub_shape();
    proof {
        assert(to_ints(sub@) =~= subi);
        assert forall|i: int| 0 <= i <= to_ints(sub@).len()
            implies #[trigger] prod(to_ints(sub@).skip(i)) <= usize::MAX as int by {
            assert forall|m: int| 0 <= m < to_ints(sub@).skip(i).len()
                implies 0 <= #[trigger] to_ints(sub@).skip(i)[m] by {
                assert(to_ints(sub@).skip(i)[m] == subi[i + m]);
                assert(range.starts()[i + m] <= range.stops()[i + m]);
            }
            assert forall|m: int| 0 <= m < to_ints(sub@).skip(i).len()
                implies #[trigger] to_ints(sub@).skip(i)[m] <= shp.skip(i)[m] by {
                assert(to_ints(sub@).skip(i)[m] == subi[i + m]);
                assert(shp.skip(i)[m] == shp[i + m]);
                assert(range.starts()[i + m] <= range.stops()[i + m]);
                assert(range.stops()[i + m] <= shp[i + m]);
            }
            lemma_prod_pointwise_le(to_ints(sub@).skip(i), shp.skip(i));
            assert(prod(shp.skip(i)) <= usize::MAX as int);
        }
        assert(fits(to_ints(sub@)));
    }
    let strides = compute_strides(&sub);
    let count = product_of(&sub);
    proof {
        assert forall|i: int| 0 <= i < shp.len() implies 0 <= #[trigger] range.starts()[i] by {}
        assert forall|i: int| 0 <= i < shp.len() implies 0 <= #[trigger] subi[i] by {
            assert(range.starts()[i] <= range.stops()[i]);
        }
        assert forall|i: int| 0 <= i < shp.len()
            implies range.starts()[i] + subi[i] <= #[trigger] shp[i] by {
            assert(range.stops()[i] <= shp[i]);
        }
        lemma_window_bound(range.starts(), subi, shp);
        assert(shp.skip(0) =~= shp);
        assert(prod(shp.skip(0)) <= usize::MAX as int);
        assert(prod(to_ints(sub@)) == prod(subi));
    }
    let off = ravel_index(&range.start, strides_vec);
    let hi = off + count;
    let window = slice_subrange(data, off, hi);
    proof {
        assert(to_ints(strides@) =~= strides_of(to_ints(sub@)));
    }
    Ok(ArrayView { shape: sub, strides, data: window })
}

impl<K: Field> View for Array<K> {
    fn view<'a>(&'a self, range: &Range) -> (r: Result<ArrayView<'a, K>, Error>) {
        view_window(self.data.as_slice(), &self.shape, &self.strides, range)
    }
}

impl<'b, K: Field> View for ArrayView<'b, K> {
    fn view<'a>(&'a self, range: &Range) -> (r: Result<ArrayView<'a, K>, Error>) {
        view_window(self.data, &self.shape, &self.strides, range)
    }
}

impl<K: Field> Reshape for Array<K> {
    fn reshape(self, shape: &Vec<usize>) -> (r: Result<Self, Error>) {
        let p1 = product_of(&self.shape);
        let p2 = product_of(shape);
        if p1 != p2 {
            let mut msg = String::from_str("reshape: the element counts differ for shapes ");
            msg.append(crate::field::dims_text(&self.shape).as_str());
            msg.append(" and ");
            msg.append(crate::field::dims_text(shape).as_str());
            return Err(Error::DimensionError(msg));
        }
        let strides = compute_strides(shape);
        let shape_copy = copy_dims(shape);
        proof {
            assert(to_ints(shape_copy@) =~= to_ints(shape@));
            assert(to_ints(strides@) =~= strides_of(to_ints(shape@)));
        }
        Ok(Array { shape: shape_copy, strides, data: self.data })
    }
}

impl<'a, K: Field> Reshape for ArrayView<'a, K> {
    fn reshape(self, shape: &Vec<usize>) -> (r: Result<Self, Error>) {
        let p1 = product_of(&self.shape);
        let p2 = product_of(shape);
        if p1 != p2 {
            let mut msg = String::from_str("reshape: the element counts differ for shapes ");
            msg.append(crate::field::dims_text(&self.shape).as_str());
            msg.append(" and ");
            msg.append(crate::field::dims_text(shape).as_str());
            return Err(Error::DimensionError(msg));
        }
        let strides = compute_strides(shape);
        let shape_copy = copy_dims(shape);
        proof {
            assert(to_ints(shape_copy@) =~= to_ints(shape@));
            assert(to_ints(strides@) =~= strides_of(to_ints(shape@)));
        }
        Ok(ArrayView { shape: shape_copy, strides, data: self.data })
    }
}

} // verus!
