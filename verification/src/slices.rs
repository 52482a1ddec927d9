use vstd::prelude::*;
use vstd::arithmetic::div_mod::{
    lemma_fundamental_div_mod,
    lemma_fundamental_div_mod_converse,
    lemma_multiply_divide_lt,
};

use crate::error::{TorshError, is_invalid_argument, is_invalid_operation};
use crate::shape::{shape_numel, resolved_dim, normalize_dim, checked_numel, sub_dims};
use crate::tensor::copy_values;
use crate::tensor::Tensor;

verus! {

/// Number of elements spanned by the axes before `axis`.
pub open spec fn outer_extent(dims: Seq<usize>, axis: int) -> nat {
    shape_numel(dims.take(axis))
}

/// Number of elements spanned by the axes after `axis`.
pub open spec fn inner_extent(dims: Seq<usize>, axis: int) -> nat {
    shape_numel(dims.skip(axis + 1))
}

/// Row-major position of element `d` of the slice along an axis of extent
/// `e` that is picked out by the outer index `o` and the inner index `i`,
/// where the axes after it span `inner` elements.
pub open spec fn strided_position(e: int, inner: int, o: int, i: int, d: int) -> int {
    (o * e + d) * inner + i
}

/// The slice of `v` along an axis of extent `e` picked out by `o` and `i`.
pub open spec fn strided_slice<T>(v: Seq<T>, e: int, inner: int, o: int, i: int) -> Seq<T> {
    Seq::new(e as nat, |d: int| v[strided_position(e, inner, o, i, d)])
}

/// The slice of the elements `v` of a tensor with extents `dims` that runs
/// along `axis` at outer index `o` and inner index `i`.
pub open spec fn axis_slice<T>(v: Seq<T>, dims: Seq<usize>, axis: int, o: int, i: int) -> Seq<T> {
    strided_slice(v, dims[axis] as int, inner_extent(dims, axis) as int, o, i)
}

/// The product of a shape splits at any axis.
pub proof fn lemma_numel_split(s: Seq<usize>, j: int)
    requires
        0 <= j <= s.len(),
    ensures
        shape_numel(s) == shape_numel(s.take(j)) * shape_numel(s.skip(j)),
    decreases s.len(),
{
    if j == s.len() {
        assert(s.take(j) =~= s);
        assert(s.skip(j) =~= Seq::<usize>::empty());
        assert(shape_numel(s) * 1 == shape_numel(s));
    } else {
        let t = s.drop_last();
        lemma_numel_split(t, j);
        assert(t.take(j) =~= s.take(j));
        assert(s.skip(j).drop_last() =~= t.skip(j));
        assert(s.skip(j).last() == s.last());
        let a = shape_numel(s.take(j));
        let b = shape_numel(t.skip(j));
        let l = s.last() as nat;
        assert(a * b * l == a * (b * l)) by (nonlinear_arith);
    }
}

/// The elements of a tensor split into outer, axis and inner extents.
pub proof fn lemma_numel_around_axis(s: Seq<usize>, axis: int)
    requires
        0 <= axis < s.len(),
    ensures
        shape_numel(s) == outer_extent(s, axis) * (s[axis] as nat) * inner_extent(s, axis),
{
    lemma_numel_split(s, axis);
    let rest = s.skip(axis);
    lemma_numel_split(rest, 1);
    assert(rest.take(1) =~= seq![s[axis]]);
    assert(rest.skip(1) =~= s.skip(axis + 1));
    let single = seq![s[axis]];
    assert(single.drop_last() =~= Seq::<usize>::empty());
    assert(shape_numel(single.drop_last()) == 1);
    assert(shape_numel(single) == shape_numel(single.drop_last()) * (single.last() as nat));
    let a = outer_extent(s, axis);
    let e = s[axis] as nat;
    let b = inner_extent(s, axis);
    assert(single.last() == s[axis]);
    assert(shape_numel(single) == e) by {
        assert(1 * e == e) by (nonlinear_arith);
    }
    assert(shape_numel(rest) == e * b);
    assert(shape_numel(s) == a * shape_numel(rest));
    assert(a * (e * b) == a * e * b) by (nonlinear_arith);
}

/// Position `strided_position(e, inner, o, i, d)` decodes back to `o`, `i` and `d`.
pub proof fn lemma_strided_decode(e: int, inner: int, o: int, i: int, d: int)
    requires
        e > 0,
        inner > 0,
        o >= 0,
        0 <= i < inner,
        0 <= d < e,
    ensures
        strided_position(e, inner, o, i, d) % inner == i,
        strided_position(e, inner, o, i, d) / inner == o * e + d,
        (strided_position(e, inner, o, i, d) / inner) % e == d,
        (strided_position(e, inner, o, i, d) / inner) / e == o,
{
    let p = strided_position(e, inner, o, i, d);
    lemma_fundamental_div_mod_converse(p, inner, o * e + d, i);
    lemma_fundamental_div_mod_converse(o * e + d, e, o, d);
}

/// Positions of in-range slice elements lie inside the tensor.
pub proof fn lemma_strided_bound(e: int, inner: int, outer: int, o: int, i: int, d: int)
    requires
        e > 0,
        inner > 0,
        0 <= o < outer,
        0 <= i < inner,
        0 <= d < e,
    ensures
        0 <= strided_position(e, inner, o, i, d) < outer * e * inner,
{
    assert(0 <= o * e + d < outer * e) by (nonlinear_arith)
        requires
            0 <= o < outer,
            0 <= d < e,
    ;
    let a = o * e + d;
    assert(0 <= a * inner + i < (outer * e) * inner) by (nonlinear_arith)
        requires
            0 <= a < outer * e,
            0 <= i < inner,
    ;
}

/// Every position inside the tensor is the position of some slice element.
pub proof fn lemma_strided_cover(e: int, inner: int, outer: int, p: int)
    requires
        e > 0,
        inner > 0,
        0 <= p < outer * e * inner,
    ensures
        0 <= (p / inner) / e < outer,
        0 <= p % inner < inner,
        0 <= (p / inner) % e < e,
        p == strided_position(e, inner, (p / inner) / e, p % inner, (p / inner) % e),
{
    lemma_fundamental_div_mod(p, inner);
    let a = p / inner;
    assert(p < inner * (outer * e)) by (nonlinear_arith)
        requires
            p < outer * e * inner,
    ;
    lemma_multiply_divide_lt(p, inner, outer * e);
    assert(a < e * outer) by (nonlinear_arith)
        requires
            a < outer * e,
    ;
    lemma_fundamental_div_mod(a, e);
    lemma_multiply_divide_lt(a, e, outer);
    assert(a >= 0) by (nonlinear_arith)
        requires
            p >= 0,
            inner > 0,
            a == p / inner,
    ;
    assert(a / e >= 0) by (nonlinear_arith)
        requires
            a >= 0,
            e > 0,
    ;
    assert(a == (a / e) * e + a % e) by (nonlinear_arith)
        requires
            a == e * (a / e) + a % e,
    ;
    assert(p == a * inner + p % inner) by (nonlinear_arith)
        requires
            p == inner * a + p % inner,
    ;
}

/// The slices along an axis partition the elements of a tensor: each position
/// inside the tensor belongs to exactly one slice, at exactly one offset.
pub proof fn lemma_axis_slices_partition(dims: Seq<usize>, axis: int, p: int)
    requires
        0 <= axis < dims.len(),
        0 <= p < shape_numel(dims),
    ensures
        exists|o: int, i: int, d: int|
            0 <= o < outer_extent(dims, axis) && 0 <= i < inner_extent(dims, axis) && 0 <= d
                < dims[axis] && p == strided_position(
                dims[axis] as int,
                inner_extent(dims, axis) as int,
                o,
                i,
                d,
            ),
        forall|o1: int, i1: int, d1: int, o2: int, i2: int, d2: int|
            0 <= o1 && 0 <= i1 < inner_extent(dims, axis) && 0 <= d1 < dims[axis] && 0 <= o2 && 0
                <= i2 < inner_extent(dims, axis) && 0 <= d2 < dims[axis] && p == strided_position(
                dims[axis] as int,
                inner_extent(dims, axis) as int,
                o1,
                i1,
                d1,
            ) && p == strided_position(
                dims[axis] as int,
                inner_extent(dims, axis) as int,
                o2,
                i2,
                d2,
            ) ==> o1 == o2 && i1 == i2 && d1 == d2,
{
    lemma_numel_around_axis(dims, axis);
    let e = dims[axis] as int;
    let inner = inner_extent(dims, axis) as int;
    let outer = outer_extent(dims, axis) as int;
    if e == 0 || inner == 0 {
        assert(outer * e * inner == 0) by (nonlinear_arith)
            requires
                e == 0 || inner == 0,
        ;
    } else {
        lemma_strided_cover(e, inner, outer, p);
        let o = (p / inner) / e;
        let i = p % inner;
        let d = (p / inner) % e;
        assert(0 <= o < outer && 0 <= i < inner && 0 <= d < e && p == strided_position(
            e,
            inner,
            o,
            i,
            d,
        ));
        assert forall|o1: int, i1: int, d1: int, o2: int, i2: int, d2: int|
            0 <= o1 && 0 <= i1 < inner && 0 <= d1 < e && 0 <= o2 && 0 <= i2 < inner && 0 <= d2 < e
                && p == strided_position(e, inner, o1, i1, d1) && p == strided_position(
                e,
                inner,
                o2,
                i2,
                d2,
            ) implies o1 == o2 && i1 == i2 && d1 == d2 by {
            lemma_strided_decode(e, inner, o1, i1, d1);
            lemma_strided_decode(e, inner, o2, i2, d2);
        }
    }
}

/// The axis that `dim` names in a tensor with extents `dims`, counting from
/// the end where `dim` is negative.
pub open spec fn chosen_axis(dims: Seq<usize>, dim: int) -> int {
    resolved_dim(dim, dims.len() as int)
}

/// `dim` names an axis of a tensor with extents `dims`.
pub open spec fn names_axis(dims: Seq<usize>, dim: int) -> bool {
    0 <= chosen_axis(dims, dim) < dims.len()
}

/// The slice of `t` at outer index `o` and inner index `i` along `axis` is a
/// possible `kernel` output for the same slice of `x`.
pub open spec fn slice_normalized<T, F: Fn(Vec<T>) -> Vec<T>>(
    x: Seq<T>,
    t: Seq<T>,
    dims: Seq<usize>,
    axis: int,
    kernel: F,
    o: int,
    i: int,
) -> bool {
    exists|v: Vec<T>, w: Vec<T>|
        {
            &&& #[trigger] call_ensures(kernel, (v,), w)
            &&& v@ == axis_slice(x, dims, axis, o, i)
            &&& w@ == axis_slice(t, dims, axis, o, i)
        }
}

/// `t` holds, along `axis`, a possible `kernel` output for every slice of `x`.
pub open spec fn normalized_along<T, F: Fn(Vec<T>) -> Vec<T>>(
    x: Seq<T>,
    t: Seq<T>,
    dims: Seq<usize>,
    axis: int,
    kernel: F,
) -> bool {
    forall|o: int, i: int|
        0 <= o < outer_extent(dims, axis) && 0 <= i < inner_extent(dims, axis)
            ==> #[trigger] slice_normalized(x, t, dims, axis, kernel, o, i)
}

/// Applies `kernel` independently to every slice of `input` that runs along
/// the axis named by `dim` (negative values count from the last axis) and
/// writes each result back in place of its slice: the shared skeleton of
/// slice-wise normalisations such as softmax and log-softmax.
///
/// Fails on a tensor without axes (invalid operation), on a `dim` that names
/// no axis (invalid argument) and on an axis of extent zero (invalid
/// operation).
pub fn softmax_along<T: Copy, F: Fn(Vec<T>) -> Vec<T>>(input: &Tensor<T>, dim: i32, kernel: F) -> (r:
    Result<Tensor<T>, TorshError>)
    requires
        forall|v: Vec<T>| call_requires(kernel, (v,)),
        forall|v: Vec<T>, w: Vec<T>| call_ensures(kernel, (v,), w) ==> w@.len() == v@.len(),
    ensures
        input.dims().len() == 0 ==> (r matches Err(e) && is_invalid_operation(e)),
        input.dims().len() > 0 && !names_axis(input.dims(), dim as int) ==> (r matches Err(e)
            && is_invalid_argument(e)),
        input.dims().len() > 0 && names_axis(input.dims(), dim as int) && input.dims()[chosen_axis(
            input.dims(),
            dim as int,
        )] == 0 ==> (r matches Err(e) && is_invalid_operation(e)),
        input.dims().len() > 0 && names_axis(input.dims(), dim as int) && input.dims()[chosen_axis(
            input.dims(),
            dim as int,
        )] > 0 ==> (r matches Ok(t) && t.dims() == input.dims() && t.values().len()
            == input.values().len() && normalized_along(
            input.values(),
            t.values(),
            input.dims(),
            chosen_axis(input.dims(), dim as int),
            kernel,
        )),
{
    let dims = input.dims_slice();
    let data = input.data_slice();
    let rank = dims.len();
    if rank == 0 {
        return Err(
            TorshError::InvalidOperation(
                String::from_str("Cannot compute softmax on a tensor with no dimensions"),
            ),
        );
    }
    let axis = match normalize_dim(dim, rank) {
        Some(a) => a,
        None => {
            return Err(
                TorshError::InvalidArgument(
                    String::from_str("Dimension out of range for the tensor's number of dimensions"),
                ),
            );
        },
    };
    let e = dims[axis];
    if e == 0 {
        return Err(
            TorshError::InvalidOperation(
                String::from_str("Cannot compute softmax along a zero-length dimension"),
            ),
        );
    }
    let n = data.len();
    let ghost ds = dims@;
    proof {
        lemma_numel_around_axis(ds, axis as int);
        assert(ds.take(axis as int) =~= ds.subrange(0, axis as int));
        assert(ds.skip(axis + 1) =~= ds.subrange(axis + 1, rank as int));
    }
    let ghost outer_n = outer_extent(ds, axis as int);
    let ghost inner_n = inner_extent(ds, axis as int);
    if n == 0 {
        proof {
            assert(outer_n * (e as nat) * inner_n == 0);
            assert(outer_n == 0 || inner_n == 0) by (nonlinear_arith)
                requires
                    e > 0,
                    outer_n * (e as nat) * inner_n == 0,
            ;
            assert(ds.subrange(0, rank as int) =~= ds);
        }
        return Ok(Tensor::from_parts(copy_values(data), sub_dims(dims, 0, rank)));
    }
    proof {
        assert(1 <= inner_n <= n && 1 <= outer_n <= n) by (nonlinear_arith)
            requires
                e > 0,
                outer_n * (e as nat) * inner_n == n,
                n > 0,
        ;
    }
    let inner = match checked_numel(sub_dims(dims, axis + 1, rank).as_slice()) {
        Some(v) => v,
        None => {
            proof {
                assert(false);
            }
            return Err(TorshError::InvalidOperation(String::from_str("the tensor is too large")));
        },
    };
    let outer = match checked_numel(sub_dims(dims, 0, axis).as_slice()) {
        Some(v) => v,
        None => {
            proof {
                assert(false);
            }
            return Err(TorshError::InvalidOperation(String::from_str("the tensor is too large")));
        },
    };
    proof {
        assert(outer_n * (e as nat) * inner_n == n);
        assert(outer_n * inner_n <= n) by (nonlinear_arith)
            requires
                e > 0,
                outer_n * (e as nat) * inner_n == n,
        ;
    }
    let slices = outer * inner;
    let mut outs: Vec<Vec<T>> = Vec::new();
    let mut s: usize = 0;
    while s < slices
        invariant
            slices == outer * inner,
            outer == outer_n,
            inner == inner_n,
            inner > 0,
            e > 0,
            n == data@.len(),
            outer_n * (e as nat) * inner_n == n,
            forall|v: Vec<T>| call_requires(kernel, (v,)),
            forall|v: Vec<T>, w: Vec<T>| call_ensures(kernel, (v,), w) ==> w@.len() == v@.len(),
            s <= slices,
            outs@.len() == s,
            forall|k: int|
                0 <= k < s ==> (#[trigger] outs@[k])@.len() == e && exists|v: Vec<T>|
                    v@ == strided_slice(data@, e as int, inner as int, k / (inner as int), k % (
                    inner as int)) && call_ensures(kernel, (v,), outs@[k]),
        decreases slices - s,
    {
        let o = s / inner;
        let i = s % inner;
        proof {
            lemma_fundamental_div_mod(s as int, inner as int);
            assert(o < outer) by (nonlinear_arith)
                requires
                    s < outer * inner,
                    s == inner * o + i,
                    0 <= i,
                    inner > 0,
            ;
        }
        let mut v: Vec<T> = Vec::new();
        let mut d: usize = 0;
        while d < e
            invariant
                o < outer,
                i < inner,
                outer == outer_n,
                inner == inner_n,
                inner > 0,
                e > 0,
                n == data@.len(),
                outer_n * (e as nat) * inner_n == n,
                d <= e,
                v@ == strided_slice(data@, e as int, inner as int, o as int, i as int).take(
                    d as int,
                ),
            decreases e - d,
        {
            proof {
                lemma_strided_bound(e as int, inner as int, outer as int, o as int, i as int, d as int);
                assert((o as int) * (e as int) + (d as int) < (outer as int) * (e as int)) by (nonlinear_arith)
                    requires
                        o < outer,
                        d < e,
                ;
                assert((outer as int) * (e as int) <= (outer as int) * (e as int) * (inner as int)) by (nonlinear_arith)
                    requires
                        inner >= 1,
                        outer >= 0,
                        e >= 0,
                ;
            }
            let pos = (o * e + d) * inner + i;
            v.push(data[pos]);
            d = d + 1;
            assert(v@ =~= strided_slice(data@, e as int, inner as int, o as int, i as int).take(
                d as int,
            ));
        }
        let ghost gv = v;
        assert(gv@ =~= strided_slice(data@, e as int, inner as int, o as int, i as int));
        let w = kernel(v);
        outs.push(w);
        proof {
            assert(outs@[s as int] == w);
            assert(call_ensures(kernel, (gv,), outs@[s as int]));
        }
        s = s + 1;
    }
    let mut out: Vec<T> = Vec::new();
    let mut p: usize = 0;
    while p < n
        invariant
            slices == outer * inner,
            outer == outer_n,
            inner == inner_n,
            inner > 0,
            e > 0,
            n == data@.len(),
            outer_n * (e as nat) * inner_n == n,
            outs@.len() == slices,
            forall|k: int| 0 <= k < slices ==> (#[trigger] outs@[k])@.len() == e,
            p <= n,
            out@.len() == p,
            forall|q: int|
                0 <= q < p ==> #[trigger] out@[q] == outs@[((q / (inner as int)) / (e as int)) * (
                inner as int) + q % (inner as int)]@[(q / (inner as int)) % (e as int)],
        decreases n - p,
    {
        proof {
            lemma_strided_cover(e as int, inner as int, outer as int, p as int);
        }
        let a = p / inner;
        let i = p % inner;
        let d = a % e;
        let o = a / e;
        proof {
            assert(o * inner + i < outer * inner) by (nonlinear_arith)
                requires
                    o < outer,
                    i < inner,
            ;
        }
        let slot = o * inner + i;
        out.push(outs[slot][d]);
        p = p + 1;
    }
    proof {
        assert(ds.subrange(0, rank as int) =~= ds);
    }
    let result = Tensor::from_parts(out, sub_dims(dims, 0, rank));
    proof {
        assert(axis as int == chosen_axis(input.dims(), dim as int));
        assert(data@ == input.values());
        assert(ds.subrange(0, rank as int) =~= ds);
        let t = result.values();
        assert forall|o: int, i: int|
            0 <= o < outer_extent(ds, axis as int) && 0 <= i < inner_extent(
                ds,
                axis as int,
            ) implies #[trigger] slice_normalized(data@, t, ds, axis as int, kernel, o, i) by {
            let k = o * (inner as int) + i;
            assert(0 <= k < slices) by (nonlinear_arith)
                requires
                    0 <= o < outer,
                    0 <= i < inner,
                    k == o * (inner as int) + i,
                    slices == outer * inner,
            ;
            lemma_fundamental_div_mod_converse(k, inner as int, o, i);
            let w = outs@[k];
            let v = choose|v: Vec<T>|
                v@ == strided_slice(data@, e as int, inner as int, k / (inner as int), k % (
                inner as int)) && call_ensures(kernel, (v,), outs@[k]);
            assert forall|d: int| 0 <= d < e implies #[trigger] w@[d] == t[strided_position(
                e as int,
                inner as int,
                o,
                i,
                d,
            )] by {
                lemma_strided_decode(e as int, inner as int, o, i, d);
                lemma_strided_bound(e as int, inner as int, outer as int, o, i, d);
            }
            assert(w@ =~= axis_slice(t, ds, axis as int, o, i));
            assert(v@ =~= axis_slice(data@, ds, axis as int, o, i));
        }
        assert(normalized_along(data@, t, ds, axis as int, kernel));
    }
    Ok(result)
}

} // verus!
