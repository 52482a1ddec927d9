//! Reductions, matrix products and indexing operations on tensors, recorded
//! for differentiation.

use vstd::prelude::*;
use vstd::std_specs::ops::{AddSpec, MulSpec};

use crate::activation::produce;
use crate::error::{TorshError, is_invalid_argument};
use crate::graph::Operation;
use crate::kernels::{addition_total, multiplication_total, matmul_kernel, matmul_defined, dot, gather, window_map};
use crate::shape::{shape_numel, normalize_dim, resolved_dim, lemma_numel_single, copy_dims, sub_dims, checked_numel};
use crate::error::is_shape_mismatch;
use crate::slices::{outer_extent, inner_extent, strided_position, lemma_numel_around_axis, lemma_numel_split, lemma_strided_bound, names_axis, chosen_axis};
use crate::tensor::{Tensor, operand_of};

verus! {

/// The elements `v[0 .. k]` added in order onto `zero`.
pub open spec fn running_sum<T: core::ops::Add<Output = T>>(v: Seq<T>, zero: T, k: int) -> T
    decreases k,
{
    if k <= 0 {
        zero
    } else {
        running_sum(v, zero, k - 1).add_spec(v[k - 1])
    }
}

/// Every addition of the running sum of `v` from `zero` can be carried out:
/// the element type's addition never fails, or it follows its
/// specification and each partial sum can be added to the next element.
pub open spec fn sum_defined<T: core::ops::Add<Output = T>>(v: Seq<T>, zero: T) -> bool {
    ||| addition_total::<T>()
    ||| T::obeys_add_spec() && forall|k: int| 0 <= k < v.len() ==> #[trigger] running_sum(v, zero, k).add_req(v[k])
}

impl<T: Copy + Default + core::ops::Add<Output = T>> Tensor<T> {
    /// Sum of all elements, as a tensor without axes (one element), added in
    /// row-major order onto `T::default()`.
    pub fn sum(&self) -> (r: Result<Self, TorshError>)
        requires
            forall|z: T| #[trigger] call_ensures(T::default, (), z) ==> sum_defined(self.values(), z),
        ensures
            r matches Ok(t) && t.dims().len() == 0 && t.values().len() == 1,
            r matches Ok(t) ==> exists|z: T|
                #[trigger] call_ensures(T::default, (), z) && (T::obeys_add_spec() ==> t.values()[0]
                    == running_sum(self.values(), z, self.values().len() as int)),
            r matches Ok(t) ==> (t.tracks_gradient() ==> self.tracks_gradient()),
            r matches Ok(t) ==> (self.tracks_gradient() && self.graph_depth() < usize::MAX
                ==> t.tracks_gradient()),
            r matches Ok(t) ==> (t.tracks_gradient() ==> records_sum(t, *self)),
    {
        let zero = produce(T::default);
        let data = self.data_slice();
        let n = data.len();
        let mut acc = zero;
        let mut i: usize = 0;
        while i < n
            invariant
                n == data@.len(),
                i <= n,
                sum_defined(data@, zero),
                T::obeys_add_spec() ==> acc == running_sum(data@, zero, i as int),
            decreases n - i,
        {
            proof {
                if !addition_total::<T>() {
                    assert(running_sum(data@, zero, i as int).add_req(data@[i as int]));
                }
            }
            assert(acc.add_req(data@[i as int]));
            acc = acc + data[i];
            i = i + 1;
        }
        let mut values: Vec<T> = Vec::new();
        values.push(acc);
        let dims: Vec<usize> = Vec::new();
        proof {
            assert(shape_numel(dims@) == 1);
        }
        if self.requires_grad() {
            let input = self.operand();
            Ok(Tensor::recorded(values, dims, Operation::Sum { input }, self.depth()))
        } else {
            Ok(Tensor::from_parts(values, dims))
        }
    }
}

impl<T: Copy + Default + core::ops::Add<Output = T> + core::ops::Mul<Output = T>> Tensor<T> {
    /// Matrix product of a `[m, k]` tensor and a `[k, n]` tensor; any other
    /// pair of shapes is a shape mismatch.
    pub fn matmul(&self, other: &Self) -> (r: Result<Self, TorshError>)
        requires
            self.dims().len() == 2 && other.dims().len() == 2 && self.dims()[1] == other.dims()[0]
                ==> forall|z: T| #[trigger] call_ensures(T::default, (), z) ==> matmul_defined(
                self.values(),
                other.values(),
                z,
                self.dims()[0] as int,
                self.dims()[1] as int,
                other.dims()[1] as int,
            ),
        ensures
            r is Ok <==> (self.dims().len() == 2 && other.dims().len() == 2 && self.dims()[1]
                == other.dims()[0] && self.dims()[0] * other.dims()[1] <= usize::MAX),
            r matches Ok(t) ==> t.dims() == seq![self.dims()[0], other.dims()[1]],
            r matches Ok(t) ==> exists|z: T|
                #[trigger] call_ensures(T::default, (), z) && (T::obeys_add_spec()
                    && T::obeys_mul_spec() ==> forall|i: int, j: int|
                    0 <= i < self.dims()[0] && 0 <= j < other.dims()[1] ==> #[trigger] t.values()[i
                        * other.dims()[1] + j] == dot(
                        self.values(),
                        other.values(),
                        z,
                        self.dims()[1] as int,
                        other.dims()[1] as int,
                        i,
                        j,
                        self.dims()[1] as int,
                    )),
            r matches Err(e) ==> is_shape_mismatch(e, self.dims(), other.dims()),
            r matches Ok(t) ==> (t.tracks_gradient() ==> (self.tracks_gradient()
                || other.tracks_gradient())),
            r matches Ok(t) ==> ((self.tracks_gradient() || other.tracks_gradient())
                && self.graph_depth() < usize::MAX && other.graph_depth() < usize::MAX
                ==> t.tracks_gradient()),
            r matches Ok(t) ==> (t.tracks_gradient() ==> records_matmul(t, *self, *other)),
    {
        let ad = self.dims_slice();
        let bd = other.dims_slice();
        if ad.len() != 2 || bd.len() != 2 || ad[1] != bd[0] {
            return Err(TorshError::ShapeMismatch { expected: self.shape_vec(), got: other.shape_vec() });
        }
        let m = ad[0];
        let k = ad[1];
        let n = bd[1];
        if m.checked_mul(n).is_none() {
            return Err(TorshError::ShapeMismatch { expected: self.shape_vec(), got: other.shape_vec() });
        }
        let a = self.data_slice();
        let b = other.data_slice();
        proof {
            assert(ad@.drop_last() =~= seq![m]);
            lemma_numel_single(m);
            assert(bd@.drop_last() =~= seq![k]);
            lemma_numel_single(k);
        }
        let zero = produce(T::default);
        let values = matmul_kernel(a, b, m, k, n, zero);
        let mut dims: Vec<usize> = Vec::new();
        dims.push(m);
        dims.push(n);
        proof {
            assert(dims@.drop_last() =~= seq![m]);
            lemma_numel_single(m);
            assert(dims@ =~= seq![m, n]);
        }
        if self.requires_grad() || other.requires_grad() {
            let da = self.depth();
            let db = other.depth();
            let below = if da >= db {
                da
            } else {
                db
            };
            let lhs = self.operand();
            let rhs = other.operand();
            Ok(Tensor::recorded(values, dims, Operation::MatMul { lhs, rhs, m, k, n }, below))
        } else {
            Ok(Tensor::from_parts(values, dims))
        }
    }
}

/// The extents `dims` with axis `axis` given extent `len`.
pub open spec fn with_extent(dims: Seq<usize>, axis: int, len: usize) -> Seq<usize> {
    dims.update(axis, len)
}

/// `t` holds the window `start .. start + len` along `axis` of `x` (extents
/// `dims`): element `d` of the window in the slice at outer index `o` and inner
/// index `i` is element `start + d` of that slice of `x`.
pub open spec fn holds_window<T>(
    t: Seq<T>,
    x: Seq<T>,
    dims: Seq<usize>,
    axis: int,
    start: int,
    len: int,
) -> bool {
    forall|o: int, i: int, d: int|
        0 <= o < outer_extent(dims, axis) && 0 <= i < inner_extent(dims, axis) && 0 <= d < len
            ==> #[trigger] t[strided_position(len, inner_extent(dims, axis) as int, o, i, d)]
            == x[strided_position(
            dims[axis] as int,
            inner_extent(dims, axis) as int,
            o,
            i,
            start + d,
        )]
}

/// `map`, a list of positions of a tensor of extents `dims`, sends element
/// `(o, i, d)` of a tensor of extent `len` along `axis` (the other extents
/// those of `dims`) to the position of element `(o, i, start + d)`: the
/// window of `dims` along `axis` that starts at `start`.
pub open spec fn places_window(map: Seq<usize>, dims: Seq<usize>, axis: int, start: int, len: int) -> bool {
    &&& map.len() == outer_extent(dims, axis) * len * inner_extent(dims, axis)
    &&& forall|o: int, i: int, d: int|
        0 <= o < outer_extent(dims, axis) && 0 <= i < inner_extent(dims, axis) && 0 <= d < len
            ==> #[trigger] map[strided_position(len, inner_extent(dims, axis) as int, o, i, d)]
            == strided_position(dims[axis] as int, inner_extent(dims, axis) as int, o, i, start + d)
}

/// `t` records a gather from `src` that read result position `p` from
/// position `map[p]` of `src`.
pub open spec fn records_gather<T>(t: Tensor<T>, src: Tensor<T>, map: Seq<usize>) -> bool {
    match t.recorded_operation() {
        Some(Operation::Gather { input, index_map }) => operand_of(input, src) && index_map@ == map,
        _ => false,
    }
}

/// `t` records a gather from `src` that read every position of the result
/// from the same position of `src`.
pub open spec fn records_identity<T>(t: Tensor<T>, src: Tensor<T>) -> bool {
    match t.recorded_operation() {
        Some(Operation::Gather { input, index_map }) => {
            &&& operand_of(input, src)
            &&& index_map@.len() == src.values().len()
            &&& forall|p: int| 0 <= p < index_map@.len() ==> #[trigger] index_map@[p] == p
        },
        _ => false,
    }
}

/// `t` records the sum of all elements of `src`.
pub open spec fn records_sum<T>(t: Tensor<T>, src: Tensor<T>) -> bool {
    match t.recorded_operation() {
        Some(Operation::Sum { input }) => operand_of(input, src),
        _ => false,
    }
}

/// `t` records the matrix product of `a` (`m x k`) and `b` (`k x n`).
pub open spec fn records_matmul<T>(t: Tensor<T>, a: Tensor<T>, b: Tensor<T>) -> bool {
    match t.recorded_operation() {
        Some(Operation::MatMul { lhs, rhs, m, k, n }) => {
            &&& operand_of(lhs, a)
            &&& operand_of(rhs, b)
            &&& m == a.dims()[0]
            &&& k == a.dims()[1]
            &&& n == b.dims()[1]
        },
        _ => false,
    }
}

/// `t` records a gather from `src` of the window of extent `len` along
/// `axis` that starts at `start`: each element was read from its position
/// in that window.
pub open spec fn records_window<T>(t: Tensor<T>, src: Tensor<T>, axis: int, start: int, len: int) -> bool {
    match t.recorded_operation() {
        Some(Operation::Gather { input, index_map }) => operand_of(input, src) && places_window(
            index_map@,
            src.dims(),
            axis,
            start,
            len,
        ),
        _ => false,
    }
}

/// Changing one extent leaves the extents before and after it in place.
pub(crate) proof fn lemma_update_keeps_sides(dims: Seq<usize>, axis: int, len: usize)
    requires
        0 <= axis < dims.len(),
    ensures
        outer_extent(with_extent(dims, axis, len), axis) == outer_extent(dims, axis),
        inner_extent(with_extent(dims, axis, len), axis) == inner_extent(dims, axis),
{
    assert(with_extent(dims, axis, len).take(axis) =~= dims.take(axis));
    assert(with_extent(dims, axis, len).skip(axis + 1) =~= dims.skip(axis + 1));
}

impl<T: Copy> Tensor<T> {
    /// The window `start .. start + len` along `axis`: its elements, the
    /// position of `self` each was read from, and its extents.
    fn window(&self, axis: usize, start: usize, len: usize) -> (r: (Vec<T>, Vec<usize>, Vec<usize>))
        requires
            axis < self.dims().len(),
            start + len <= self.dims()[axis as int],
        ensures
            r.2@ == with_extent(self.dims(), axis as int, len),
            r.0@.len() == shape_numel(r.2@),
            r.1@.len() == r.0@.len(),
            forall|p: int| 0 <= p < r.1@.len() ==> #[trigger] r.1@[p] < self.values().len(),
            forall|p: int| 0 <= p < r.1@.len() ==> #[trigger] r.0@[p] == self.values()[r.1@[p] as int],
            holds_window(r.0@, self.values(), self.dims(), axis as int, start as int, len as int),
            places_window(r.1@, self.dims(), axis as int, start as int, len as int),
    {
        let data = self.data_slice();
        let dims = self.dims_slice();
        let rank = dims.len();
        let e = dims[axis];
        let ghost ds = dims@;
        let ghost nd = with_extent(ds, axis as int, len);
        let mut new_dims = copy_dims(dims);
        new_dims.set(axis, len);
        proof {
            assert(new_dims@ =~= nd);
            lemma_numel_around_axis(ds, axis as int);
            lemma_numel_around_axis(nd, axis as int);
            lemma_update_keeps_sides(ds, axis as int, len);
            assert(ds.take(axis as int) =~= ds.subrange(0, axis as int));
            assert(ds.skip(axis + 1) =~= ds.subrange(axis + 1, rank as int));
        }
        let ghost outer_n = outer_extent(ds, axis as int);
        let ghost inner_n = inner_extent(ds, axis as int);
        if data.len() == 0 || len == 0 {
            proof {
                assert(outer_n * (len as nat) * inner_n == 0) by (nonlinear_arith)
                    requires
                        outer_n * (e as nat) * inner_n == 0 || len == 0,
                        len <= e,
                ;
                assert forall|o: int, i: int, d: int|
                    #![trigger strided_position(len as int, inner_n as int, o, i, d)]
                    0 <= o < outer_n && 0 <= i < inner_n && 0 <= d < len implies false by {
                    assert(outer_n * (len as nat) * inner_n > 0) by (nonlinear_arith)
                        requires
                            0 <= o < outer_n,
                            0 <= i < inner_n,
                            0 <= d < len,
                    ;
                }
            }
            return (Vec::new(), Vec::new(), new_dims);
        }
        proof {
            assert(1 <= inner_n && 1 <= outer_n) by (nonlinear_arith)
                requires
                    outer_n * (e as nat) * inner_n == data@.len(),
                    data@.len() > 0,
            ;
            assert(outer_n <= data@.len() && inner_n <= data@.len()) by (nonlinear_arith)
                requires
                    outer_n * (e as nat) * inner_n == data@.len(),
                    1 <= inner_n,
                    1 <= outer_n,
                    e >= 1,
            ;
        }
        let inner = match checked_numel(sub_dims(dims, axis + 1, rank).as_slice()) {
            Some(v) => v,
            None => {
                proof {
                    assert(false);
                }
                return (Vec::new(), Vec::new(), new_dims);
            },
        };
        let outer = match checked_numel(sub_dims(dims, 0, axis).as_slice()) {
            Some(v) => v,
            None => {
                proof {
                    assert(false);
                }
                return (Vec::new(), Vec::new(), new_dims);
            },
        };
        let map = window_map(outer, e, inner, start, len);
        let values = gather(data, map.as_slice());
        proof {
            assert(inner == inner_n && outer == outer_n);
            assert forall|o: int, i: int, d: int|
                0 <= o < outer_n && 0 <= i < inner_n && 0 <= d < len implies #[trigger] values@[strided_position(
                    len as int,
                    inner_n as int,
                    o,
                    i,
                    d,
                )] == data@[strided_position(e as int, inner_n as int, o, i, start + d)] by {
                lemma_strided_bound(len as int, inner as int, outer as int, o, i, d);
            }
        }
        (values, map, new_dims)
    }
}

impl<T: Copy> Tensor<T> {
    /// A result read from `self` at the positions `map`, recorded for
    /// differentiation as a gather where `self` takes part in it.
    pub(crate) fn record_gather(&self, values: Vec<T>, map: Vec<usize>, dims: Vec<usize>) -> (t: Self)
        requires
            values@.len() == shape_numel(dims@),
            map@.len() == values@.len(),
            forall|p: int| 0 <= p < map@.len() ==> #[trigger] map@[p] < self.values().len(),
        ensures
            t.values() == values@,
            t.dims() == dims@,
            t.tracks_gradient() == (self.tracks_gradient() && self.graph_depth() < usize::MAX),
            t.tracks_gradient() ==> records_gather(t, *self, map@),
    {
        if self.requires_grad() {
            let input = self.operand();
            Tensor::recorded(values, dims, Operation::Gather { input, index_map: map }, self.depth())
        } else {
            Tensor::from_parts(values, dims)
        }
    }

    /// The `length` elements starting at `start` along the axis named by
    /// `dim` (negative values count from the last axis); the other axes are
    /// kept whole. An invalid argument where `dim` names no axis or the range
    /// runs past the end of the axis.
    pub fn narrow(&self, dim: i32, start: usize, length: usize) -> (r: Result<Self, TorshError>)
        ensures
            r is Ok <==> (names_axis(self.dims(), dim as int) && start + length <= self.dims()[chosen_axis(
                self.dims(),
                dim as int,
            )]),
            r matches Err(e) ==> is_invalid_argument(e),
            r matches Ok(t) ==> t.dims() == with_extent(
                self.dims(),
                chosen_axis(self.dims(), dim as int),
                length,
            ) && t.values().len() == shape_numel(t.dims()) && holds_window(
                t.values(),
                self.values(),
                self.dims(),
                chosen_axis(self.dims(), dim as int),
                start as int,
                length as int,
            ),
            r matches Ok(t) ==> t.tracks_gradient() == (self.tracks_gradient() && self.graph_depth()
                < usize::MAX),
            r matches Ok(t) ==> (t.tracks_gradient() ==> records_window(
                t,
                *self,
                chosen_axis(self.dims(), dim as int),
                start as int,
                length as int,
            )),
    {
        let rank = self.ndim();
        let axis = match normalize_dim(dim, rank) {
            Some(a) => a,
            None => {
                return Err(TorshError::InvalidArgument(String::from_str("dimension out of range")));
            },
        };
        let e = self.dims_slice()[axis];
        if start > e || length > e - start {
            return Err(TorshError::InvalidArgument(String::from_str("range out of bounds along the dimension")));
        }
        let (values, map, dims) = self.window(axis, start, length);
        Ok(self.record_gather(values, map, dims))
    }

    /// The elements from `start` up to (excluding) `end` along axis `dim`;
    /// the other axes are kept whole. An invalid argument where `dim` names no
    /// axis or the range is reversed or runs past the end of the axis.
    pub fn slice_tensor(&self, dim: usize, start: usize, end: usize) -> (r: Result<Self, TorshError>)
        ensures
            r is Ok <==> (dim < self.dims().len() && start <= end <= self.dims()[dim as int]),
            r matches Err(e) ==> is_invalid_argument(e),
            r matches Ok(t) ==> t.dims() == with_extent(self.dims(), dim as int, (end - start) as usize)
                && t.values().len() == shape_numel(t.dims()) && holds_window(
                t.values(),
                self.values(),
                self.dims(),
                dim as int,
                start as int,
                end - start,
            ),
            r matches Ok(t) ==> t.tracks_gradient() == (self.tracks_gradient() && self.graph_depth()
                < usize::MAX),
            r matches Ok(t) ==> (t.tracks_gradient() ==> records_window(t, *self, dim as int, start as int, end - start)),
    {
        if dim >= self.ndim() {
            return Err(TorshError::InvalidArgument(String::from_str("dimension out of range")));
        }
        let e = self.dims_slice()[dim];
        if start > end || end > e {
            return Err(TorshError::InvalidArgument(String::from_str("range out of bounds along the dimension")));
        }
        let (values, map, dims) = self.window(dim, start, end - start);
        Ok(self.record_gather(values, map, dims))
    }

    /// The slice at position `index` along the axis named by `dim` (negative
    /// values count from the last axis), with that axis removed. An invalid
    /// argument where `dim` names no axis or `index` is past its end.
    pub fn select(&self, dim: i32, index: usize) -> (r: Result<Self, TorshError>)
        ensures
            r is Ok <==> (names_axis(self.dims(), dim as int) && index < self.dims()[chosen_axis(
                self.dims(),
                dim as int,
            )]),
            r matches Err(e) ==> is_invalid_argument(e),
            r matches Ok(t) ==> t.dims() == self.dims().remove(chosen_axis(self.dims(), dim as int))
                && t.values().len() == shape_numel(t.dims()) && holds_window(
                t.values(),
                self.values(),
                self.dims(),
                chosen_axis(self.dims(), dim as int),
                index as int,
                1,
            ),
            r matches Ok(t) ==> t.tracks_gradient() == (self.tracks_gradient() && self.graph_depth()
                < usize::MAX),
            r matches Ok(t) ==> (t.tracks_gradient() ==> records_window(
                t,
                *self,
                chosen_axis(self.dims(), dim as int),
                index as int,
                1,
            )),
    {
        let rank = self.ndim();
        let axis = match normalize_dim(dim, rank) {
            Some(a) => a,
            None => {
                return Err(TorshError::InvalidArgument(String::from_str("dimension out of range")));
            },
        };
        let e = self.dims_slice()[axis];
        if index >= e {
            return Err(TorshError::InvalidArgument(String::from_str("index out of range along the dimension")));
        }
        let (values, map, wide) = self.window(axis, index, 1);
        let mut dims = copy_dims(wide.as_slice());
        dims.remove(axis);
        proof {
            let ds = self.dims();
            let wd = with_extent(ds, axis as int, 1);
            lemma_numel_around_axis(wd, axis as int);
            lemma_numel_split(dims@, axis as int);
            assert(dims@.take(axis as int) =~= wd.take(axis as int));
            assert(dims@.skip(axis as int) =~= wd.skip(axis + 1));
            assert(dims@ =~= ds.remove(axis as int));
            let a = outer_extent(wd, axis as int);
            let b = inner_extent(wd, axis as int);
            assert(a * (1 as nat) * b == a * b) by (nonlinear_arith);
        }
        Ok(self.record_gather(values, map, dims))
    }
}

} // verus!
