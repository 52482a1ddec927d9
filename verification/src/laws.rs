//! Properties that relate several operations of the library, or that hold of
//! every input of one, stated over the specifications the operations use.

use vstd::prelude::*;
use vstd::std_specs::cmp::PartialOrdIs;
use vstd::std_specs::cmp::PartialEqIs;
use vstd::std_specs::cmp::PartialOrdSpec;
use vstd::std_specs::cmp::PartialEqSpec;
use vstd::laws_cmp::obeys_partial_cmp_spec_properties;
use vstd::laws_eq::obeys_eq_spec_properties;
use vstd::arithmetic::div_mod::{lemma_mod_breakdown, lemma_fundamental_div_mod, lemma_multiply_divide_lt};

use crate::shape::{shape_numel, has_zero_extent, lemma_numel_zero};
use crate::broadcast::lemma_positive_numel_no_zero;
use crate::broadcast::{
    broadcast_compatible,
    broadcast_shape,
    broadcast_rank,
    extent_from_end,
    source_index,
    lemma_source_index_same_shape,
};
use crate::slices::{chosen_axis, normalized_along, slice_normalized, outer_extent, inner_extent, axis_slice, strided_position, lemma_axis_slices_partition, lemma_numel_around_axis};
use crate::activation::rectified;
use crate::reduction::{Reduction, reduction_name};
use crate::text::ascii_lowercase;
use crate::ops::{holds_window, with_extent, lemma_update_keeps_sides};
use crate::slices::{lemma_strided_cover, lemma_numel_split};
use crate::kernels::scatter_sum;
use vstd::std_specs::ops::AddSpec;

verus! {

/// `a.gt(b)` and `b.lt(a)` agree element by element, for element types whose
/// comparison is a consistent partial order.
pub proof fn law_greater_is_flipped_less<T: PartialOrd>(x: T, y: T)
    requires
        obeys_partial_cmp_spec_properties::<T>(),
    ensures
        x.is_gt(&y) == y.is_lt(&x),
{
    reveal(obeys_partial_cmp_spec_properties);
}

/// `a.ge(b)` holds exactly where `a.gt(b)` or `a.eq(b)` holds, for element
/// types whose comparison is a consistent partial order.
pub proof fn law_greater_or_equal_splits<T: PartialOrd>(x: T, y: T)
    requires
        obeys_partial_cmp_spec_properties::<T>(),
    ensures
        x.is_ge(&y) == (x.is_gt(&y) || x.is_eq(&y)),
{
    reveal(obeys_partial_cmp_spec_properties);
}

/// `a.le(b)` holds exactly where `a.lt(b)` or `a.eq(b)` holds, for element
/// types whose comparison is a consistent partial order.
pub proof fn law_less_or_equal_splits<T: PartialOrd>(x: T, y: T)
    requires
        obeys_partial_cmp_spec_properties::<T>(),
    ensures
        x.is_le(&y) == (x.is_lt(&y) || x.is_eq(&y)),
{
    reveal(obeys_partial_cmp_spec_properties);
}

/// Where two elements are comparable (for floating-point types: neither is
/// NaN), `ge` is the negation of `lt` and `le` the negation of `gt`.
pub proof fn law_comparable_ge_is_not_lt<T: PartialOrd>(x: T, y: T)
    requires
        x.partial_cmp_spec(&y) is Some,
    ensures
        x.is_ge(&y) == !x.is_lt(&y),
        x.is_le(&y) == !x.is_gt(&y),
{
}

/// For a tensor `x` whose elements are all comparable with `v`, the results
/// of `ge_scalar` and `lt_scalar` (elements `t` and `u`) are each other's
/// negation, and so are those of `le_scalar` and `gt_scalar` (`w` and `z`),
/// for element types whose comparison follows its specification.
pub proof fn law_scalar_comparisons_complement<T: PartialOrd>(
    x: Seq<T>,
    v: T,
    t: Seq<bool>,
    u: Seq<bool>,
    w: Seq<bool>,
    z: Seq<bool>,
)
    requires
        t.len() == x.len() && u.len() == x.len() && w.len() == x.len() && z.len() == x.len(),
        forall|i: int| 0 <= i < x.len() ==> (#[trigger] x[i]).partial_cmp_spec(&v) is Some,
        forall|i: int| 0 <= i < x.len() ==> #[trigger] t[i] == x[i].is_ge(&v),
        forall|i: int| 0 <= i < x.len() ==> #[trigger] u[i] == x[i].is_lt(&v),
        forall|i: int| 0 <= i < x.len() ==> #[trigger] w[i] == x[i].is_le(&v),
        forall|i: int| 0 <= i < x.len() ==> #[trigger] z[i] == x[i].is_gt(&v),
    ensures
        forall|i: int| 0 <= i < x.len() ==> #[trigger] t[i] == !u[i],
        forall|i: int| 0 <= i < x.len() ==> #[trigger] w[i] == !z[i],
{
    assert forall|i: int| 0 <= i < x.len() implies #[trigger] t[i] == !u[i] && w[i] == !z[i] by {
        law_comparable_ge_is_not_lt(x[i], v);
    }
}

/// `ne` is symmetric for element types whose equality is symmetric.
pub proof fn law_not_equal_symmetric<T: PartialEq>(x: T, y: T)
    requires
        obeys_eq_spec_properties::<T>(),
    ensures
        x.is_ne(&y) == y.is_ne(&x),
{
    reveal(obeys_eq_spec_properties);
}

/// `a.ne(b)` is the negation of `a.eq(b)`, element by element.
pub proof fn law_not_equal_negates_equal<T: PartialEq>(x: T, y: T)
    ensures
        x.is_ne(&y) == !x.is_eq(&y),
{
}

/// Logical AND and OR are commutative, and XOR holds where OR holds and AND
/// does not, element by element.
pub proof fn law_logical_connectives(a: bool, b: bool)
    ensures
        (a && b) == (b && a),
        (a || b) == (b || a),
        (a != b) == ((a || b) && !(a && b)),
{
}

/// Selecting between a tensor and itself gives the tensor back, whatever the
/// condition.
pub proof fn law_where_same_branches<T>(c: Seq<bool>, x: Seq<T>, t: Seq<T>)
    requires
        c.len() == x.len(),
        t.len() == x.len(),
        forall|i: int| 0 <= i < t.len() ==> #[trigger] t[i] == if c[i] {
            x[i]
        } else {
            x[i]
        },
    ensures
        t == x,
{
    assert(t =~= x);
}

/// The rectified linear unit of a tensor is one tensor, for element types
/// whose `default` is deterministic: `relu`, `relu_inplace` and both ways of
/// `ReLU::apply` give the same elements.
pub proof fn law_rectified_unique<T: PartialOrd + Default>(x: Seq<T>, t: Seq<T>, u: Seq<T>)
    requires
        T::obeys_partial_cmp_spec(),
        forall|z1: T, z2: T|
            call_ensures(T::default, (), z1) && call_ensures(T::default, (), z2) ==> z1 == z2,
        t.len() == x.len(),
        u.len() == x.len(),
        rectified(x, t),
        rectified(x, u),
    ensures
        t == u,
{
    let z1 = choose|z: T|
        #[trigger] call_ensures(T::default, (), z) && (T::obeys_partial_cmp_spec() ==> forall|i: int|
            0 <= i < t.len() ==> #[trigger] t[i] == if x[i].is_gt(&z) {
                x[i]
            } else {
                z
            });
    let z2 = choose|z: T|
        #[trigger] call_ensures(T::default, (), z) && (T::obeys_partial_cmp_spec() ==> forall|i: int|
            0 <= i < u.len() ==> #[trigger] u[i] == if x[i].is_gt(&z) {
                x[i]
            } else {
                z
            });
    assert(z1 == z2);
    assert forall|i: int| 0 <= i < t.len() implies t[i] == u[i] by {
        assert(t[i] == if x[i].is_gt(&z1) {
            x[i]
        } else {
            z1
        });
        assert(u[i] == if x[i].is_gt(&z1) {
            x[i]
        } else {
            z1
        });
    }
    assert(t =~= u);
}

/// Applying the rectified linear unit twice changes nothing more than applying
/// it once, for element types whose `default` is deterministic.
pub proof fn law_relu_idempotent<T: PartialOrd + Default>(x: Seq<T>, t: Seq<T>, u: Seq<T>)
    requires
        T::obeys_partial_cmp_spec(),
        forall|z1: T, z2: T|
            call_ensures(T::default, (), z1) && call_ensures(T::default, (), z2) ==> z1 == z2,
        t.len() == x.len(),
        u.len() == t.len(),
        rectified(x, t),
        rectified(t, u),
    ensures
        u == t,
{
    let z1 = choose|z: T|
        #[trigger] call_ensures(T::default, (), z) && (T::obeys_partial_cmp_spec() ==> forall|i: int|
            0 <= i < t.len() ==> #[trigger] t[i] == if x[i].is_gt(&z) {
                x[i]
            } else {
                z
            });
    let z2 = choose|z: T|
        #[trigger] call_ensures(T::default, (), z) && (T::obeys_partial_cmp_spec() ==> forall|i: int|
            0 <= i < u.len() ==> #[trigger] u[i] == if t[i].is_gt(&z) {
                t[i]
            } else {
                z
            });
    assert(z1 == z2);
    assert forall|i: int| 0 <= i < u.len() implies u[i] == t[i] by {
        assert(t[i] == if x[i].is_gt(&z1) {
            x[i]
        } else {
            z1
        });
        assert(u[i] == if t[i].is_gt(&z1) {
            t[i]
        } else {
            z1
        });
    }
    assert(u =~= t);
}

/// Broadcasting is symmetric: two shapes broadcast together in either order,
/// to the same shape.
pub proof fn law_broadcast_symmetric(a: Seq<usize>, b: Seq<usize>)
    ensures
        broadcast_compatible(a, b) == broadcast_compatible(b, a),
        broadcast_compatible(a, b) ==> broadcast_shape(a, b) == broadcast_shape(b, a),
{
    assert(broadcast_rank(a, b) == broadcast_rank(b, a));
    if broadcast_compatible(a, b) {
        let r = broadcast_rank(a, b);
        assert forall|i: int| 0 <= i < r implies broadcast_shape(a, b)[i] == broadcast_shape(
            b,
            a,
        )[i] by {
            let x = extent_from_end(a, r - 1 - i);
            let y = extent_from_end(b, r - 1 - i);
            assert(x == y || x == 1 || y == 1);
        }
        assert(broadcast_shape(a, b) =~= broadcast_shape(b, a));
    }
    if broadcast_compatible(b, a) {
        assert forall|k: int| 0 <= k < broadcast_rank(a, b) implies {
            let x = #[trigger] extent_from_end(a, k);
            let y = extent_from_end(b, k);
            x == y || x == 1 || y == 1
        } by {
            assert(extent_from_end(b, k) == extent_from_end(b, k));
        }
    }
}

/// A shape broadcast with itself is itself, and every element of the result
/// is read from the same position of both operands: adding tensors of one
/// shape is element-wise addition.
pub proof fn law_broadcast_same_shape(s: Seq<usize>, f: nat)
    requires
        f < shape_numel(s),
    ensures
        broadcast_compatible(s, s),
        broadcast_shape(s, s) == s,
        source_index(s, s, f) == f,
{
    let r = broadcast_rank(s, s);
    assert forall|i: int| 0 <= i < r implies broadcast_shape(s, s)[i] == s[i] by {
        assert(s.len() - 1 - (r - 1 - i) == i);
    }
    assert(broadcast_shape(s, s) =~= s);
    lemma_source_index_same_shape(s, f);
}

/// With an operand that has no axes, every result position reads its only
/// element.
proof fn lemma_source_index_scalar(o: Seq<usize>, f: nat)
    requires
        f < shape_numel(o),
    ensures
        source_index(o, Seq::<usize>::empty(), f) == 0,
    decreases o.len(),
{
    if o.len() > 0 {
        let e = Seq::<usize>::empty();
        let oe = o.last() as nat;
        let n2 = shape_numel(o.drop_last());
        if oe == 0 {
            assert(n2 * 0 == 0) by (nonlinear_arith);
        }
        assert(f < oe * n2) by (nonlinear_arith)
            requires
                f < n2 * oe,
        ;
        lemma_multiply_divide_lt(f as int, oe as int, n2 as int);
        lemma_source_index_scalar(o.drop_last(), f / oe);
        let x = source_index(o.drop_last(), e, f / oe);
        let se = extent_from_end(e, 0) as nat;
        assert(se == 1);
        assert(se * x == 0) by (nonlinear_arith)
            requires
                x == 0,
        ;
    }
}

/// An operand made of the trailing axes of the result is read cyclically.
proof fn lemma_source_index_suffix(o: Seq<usize>, k: int, f: nat)
    requires
        0 <= k <= o.len(),
        f < shape_numel(o),
    ensures
        shape_numel(o.skip(k)) > 0,
        source_index(o, o.skip(k), f) == f % shape_numel(o.skip(k)),
    decreases o.len(),
{
    lemma_positive_numel_no_zero(o);
    if has_zero_extent(o.skip(k)) {
        let j = choose|j: int| 0 <= j < o.skip(k).len() && o.skip(k)[j] == 0;
        assert(o[j + k] == 0);
    }
    if shape_numel(o.skip(k)) == 0 {
        assert(!has_zero_extent(o.skip(k)));
        lemma_positive_numel_no_zero_converse(o.skip(k));
    }
    if k == o.len() {
        assert(o.skip(k) =~= Seq::<usize>::empty());
        lemma_source_index_scalar(o, f);
        assert(f % 1 == 0);
    } else {
        let s = o.skip(k);
        let o2 = o.drop_last();
        let oe = o.last() as nat;
        let n2 = shape_numel(o2);
        assert(oe > 0) by {
            assert(o[o.len() - 1] == o.last());
        }
        assert(f < oe * n2) by (nonlinear_arith)
            requires
                f < n2 * oe,
        ;
        lemma_multiply_divide_lt(f as int, oe as int, n2 as int);
        lemma_source_index_suffix(o2, k, f / oe);
        assert(s.drop_last() =~= o2.skip(k));
        assert(extent_from_end(s, 0) == oe);
        let m = shape_numel(o2.skip(k));
        assert(shape_numel(s) == m * oe);
        lemma_mod_breakdown(f as int, oe as int, m as int);
        assert(oe * m == m * oe) by (nonlinear_arith);
        if oe == 1 {
            assert(f % oe == 0);
        }
    }
}

/// A shape whose extents are all non-zero describes a positive number of
/// elements.
proof fn lemma_positive_numel_no_zero_converse(s: Seq<usize>)
    requires
        !has_zero_extent(s),
    ensures
        shape_numel(s) > 0,
    decreases s.len(),
{
    if s.len() > 0 {
        assert(!has_zero_extent(s.drop_last())) by {
            if has_zero_extent(s.drop_last()) {
                let j = choose|j: int| 0 <= j < s.drop_last().len() && s.drop_last()[j] == 0;
                assert(s[j] == 0);
            }
        }
        lemma_positive_numel_no_zero_converse(s.drop_last());
        let p = shape_numel(s.drop_last());
        let d = s.last() as nat;
        assert(s[s.len() - 1] == s.last());
        assert(p * d > 0) by (nonlinear_arith)
            requires
                p > 0,
                d > 0,
        ;
    }
}

/// Adding a bias whose extents are the trailing extents of the input keeps the
/// input's shape, reads the input in place and reads the bias cyclically:
/// result position `f` adds bias element `f % numel(bias)`.
pub proof fn law_bias_broadcast(x: Seq<usize>, k: int, f: nat)
    requires
        0 <= k <= x.len(),
        f < shape_numel(x),
    ensures
        broadcast_compatible(x, x.skip(k)),
        broadcast_shape(x, x.skip(k)) == x,
        source_index(x, x, f) == f,
        source_index(x, x.skip(k), f) == f % shape_numel(x.skip(k)),
{
    let b = x.skip(k);
    let r = broadcast_rank(x, b);
    assert(r == x.len());
    assert forall|j: int| 0 <= j < r implies #[trigger] extent_from_end(b, j) == (if j < b.len() {
        extent_from_end(x, j)
    } else {
        1usize
    }) by {
        if j < b.len() {
            assert(b[b.len() - 1 - j] == x[x.len() - 1 - j]);
        }
    }
    assert forall|i: int| 0 <= i < r implies broadcast_shape(x, b)[i] == x[i] by {
        assert(x.len() - 1 - (r - 1 - i) == i);
        assert(extent_from_end(b, r - 1 - i) == extent_from_end(b, r - 1 - i));
    }
    assert(broadcast_shape(x, b) =~= x);
    lemma_source_index_same_shape(x, f);
    lemma_source_index_suffix(x, k, f);
}

/// Normalising slice by slice with a kernel that returns its input unchanged
/// gives back the input: the slices along an axis cover every element.
pub proof fn law_identity_kernel_preserves<T, F: Fn(Vec<T>) -> Vec<T>>(
    x: Seq<T>,
    t: Seq<T>,
    dims: Seq<usize>,
    axis: int,
    kernel: F,
)
    requires
        0 <= axis < dims.len(),
        x.len() == shape_numel(dims),
        t.len() == x.len(),
        forall|v: Vec<T>, w: Vec<T>| call_ensures(kernel, (v,), w) ==> w@ == v@,
        normalized_along(x, t, dims, axis, kernel),
    ensures
        t == x,
{
    let e = dims[axis] as int;
    let inner = inner_extent(dims, axis) as int;
    assert forall|p: int| 0 <= p < t.len() implies t[p] == x[p] by {
        lemma_axis_slices_partition(dims, axis, p);
        let (o, i, d) = choose|o: int, i: int, d: int|
            0 <= o < outer_extent(dims, axis) && 0 <= i < inner_extent(dims, axis) && 0 <= d
                < dims[axis] && p == strided_position(e, inner, o, i, d);
        assert(slice_normalized(x, t, dims, axis, kernel, o, i));
        let (v, w) = choose|v: Vec<T>, w: Vec<T>|
            {
                &&& #[trigger] call_ensures(kernel, (v,), w)
                &&& v@ == axis_slice(x, dims, axis, o, i)
                &&& w@ == axis_slice(t, dims, axis, o, i)
            };
        assert(w@[d] == t[p]);
        assert(v@[d] == x[p]);
    }
    assert(t =~= x);
}

/// With a kernel whose output depends only on its input's elements, the
/// result of normalising slice by slice along an axis is determined: two
/// results of the input's size are equal. Since `dim` and `dim - rank` name
/// the same axis, `softmax_along(x, -1, k)` and `softmax_along(x, rank - 1, k)`
/// give the same elements.
pub proof fn law_normalized_unique<T, F: Fn(Vec<T>) -> Vec<T>>(
    x: Seq<T>,
    t: Seq<T>,
    u: Seq<T>,
    dims: Seq<usize>,
    axis: int,
    kernel: F,
)
    requires
        0 <= axis < dims.len(),
        x.len() == shape_numel(dims),
        t.len() == x.len(),
        u.len() == x.len(),
        forall|v1: Vec<T>, v2: Vec<T>, w1: Vec<T>, w2: Vec<T>|
            v1@ == v2@ && call_ensures(kernel, (v1,), w1) && call_ensures(kernel, (v2,), w2) ==> w1@
                == w2@,
        normalized_along(x, t, dims, axis, kernel),
        normalized_along(x, u, dims, axis, kernel),
    ensures
        t == u,
        chosen_axis(dims, -1) == chosen_axis(dims, dims.len() - 1),
{
    let e = dims[axis] as int;
    let inner = inner_extent(dims, axis) as int;
    assert forall|p: int| 0 <= p < t.len() implies t[p] == u[p] by {
        lemma_axis_slices_partition(dims, axis, p);
        let (o, i, d) = choose|o: int, i: int, d: int|
            0 <= o < outer_extent(dims, axis) && 0 <= i < inner_extent(dims, axis) && 0 <= d
                < dims[axis] && p == strided_position(e, inner, o, i, d);
        assert(slice_normalized(x, t, dims, axis, kernel, o, i));
        assert(slice_normalized(x, u, dims, axis, kernel, o, i));
        let (v1, w1) = choose|v: Vec<T>, w: Vec<T>|
            {
                &&& #[trigger] call_ensures(kernel, (v,), w)
                &&& v@ == axis_slice(x, dims, axis, o, i)
                &&& w@ == axis_slice(t, dims, axis, o, i)
            };
        let (v2, w2) = choose|v: Vec<T>, w: Vec<T>|
            {
                &&& #[trigger] call_ensures(kernel, (v,), w)
                &&& v@ == axis_slice(x, dims, axis, o, i)
                &&& w@ == axis_slice(u, dims, axis, o, i)
            };
        assert(w1@ == w2@);
        assert(w1@[d] == t[p]);
        assert(w2@[d] == u[p]);
    }
    assert(t =~= u);
}

/// Every reduction mode is parsed back from its own name, and the names are
/// distinct: `parse(name(r))` yields `r`.
pub proof fn law_reduction_names_round_trip(r: Reduction)
    ensures
        ascii_lowercase(reduction_name(r)) == reduction_name(r),
        forall|q: Reduction| reduction_name(q) == reduction_name(r) ==> q == r,
{
    reveal_strlit("none");
    reveal_strlit("mean");
    reveal_strlit("sum");
    reveal_strlit("batchmean");
    assert(ascii_lowercase(reduction_name(r)) =~= reduction_name(r));
    assert forall|q: Reduction| reduction_name(q) == reduction_name(r) implies q == r by {
        if q != r {
            assert(reduction_name(q).len() != reduction_name(r).len() || reduction_name(q)[0]
                != reduction_name(r)[0] || reduction_name(q)[1] != reduction_name(r)[1]);
        }
    }
}

/// A window of a tensor is determined by the tensor: two buffers of the
/// window's size that both hold the window `start .. start + len` along
/// `axis` of `x` are equal.
pub proof fn law_window_determined<T>(
    t: Seq<T>,
    u: Seq<T>,
    x: Seq<T>,
    dims: Seq<usize>,
    axis: int,
    start: int,
    len: usize,
)
    requires
        0 <= axis < dims.len(),
        t.len() == shape_numel(with_extent(dims, axis, len)),
        u.len() == t.len(),
        holds_window(t, x, dims, axis, start, len as int),
        holds_window(u, x, dims, axis, start, len as int),
    ensures
        t == u,
{
    let w = with_extent(dims, axis, len);
    lemma_numel_around_axis(w, axis);
    lemma_update_keeps_sides(dims, axis, len);
    let outer = outer_extent(dims, axis) as int;
    let inner = inner_extent(dims, axis) as int;
    assert forall|p: int| 0 <= p < t.len() implies t[p] == u[p] by {
        assert(len > 0 && inner > 0) by (nonlinear_arith)
            requires
                0 <= p < outer * (len as int) * inner,
                outer >= 0,
                inner >= 0,
        ;
        lemma_strided_cover(len as int, inner, outer, p);
        let o = (p / inner) / (len as int);
        let i = p % inner;
        let d = (p / inner) % (len as int);
        assert(t[strided_position(len as int, inner, o, i, d)] == x[strided_position(
            dims[axis] as int,
            inner,
            o,
            i,
            start + d,
        )]);
        assert(u[strided_position(len as int, inner, o, i, d)] == x[strided_position(
            dims[axis] as int,
            inner,
            o,
            i,
            start + d,
        )]);
    }
    assert(t =~= u);
}

/// Narrowing a concatenation to the block of one of its inputs gives back
/// that input: where `c` (extents `dims`) holds `x` as the window
/// `start .. start + len` along `axis`, as `Tensor::cat` guarantees for each
/// input, the result `t` of `narrow` over that range is `x`.
pub proof fn law_cat_then_narrow_recovers_input<T>(
    x: Seq<T>,
    c: Seq<T>,
    t: Seq<T>,
    dims: Seq<usize>,
    axis: int,
    start: int,
    len: usize,
)
    requires
        0 <= axis < dims.len(),
        x.len() == shape_numel(with_extent(dims, axis, len)),
        t.len() == x.len(),
        holds_window(x, c, dims, axis, start, len as int),
        holds_window(t, c, dims, axis, start, len as int),
    ensures
        t == x,
{
    law_window_determined(t, x, c, dims, axis, start, len);
}

/// Selecting index `k` along the new axis of a stack gives back the `k`-th
/// stacked tensor: where `s` (extents `dims`) holds `x` as the slice at
/// index `k` along `axis`, as `Tensor::stack` guarantees, the result `t` of
/// `select` there (one element per element of `x`) is `x`.
pub proof fn law_stack_then_select_recovers_input<T>(
    x: Seq<T>,
    s: Seq<T>,
    t: Seq<T>,
    dims: Seq<usize>,
    axis: int,
    k: int,
)
    requires
        0 <= axis < dims.len(),
        x.len() == shape_numel(dims.remove(axis)),
        t.len() == x.len(),
        holds_window(x, s, dims, axis, k, 1),
        holds_window(t, s, dims, axis, k, 1),
    ensures
        t == x,
{
    let w = with_extent(dims, axis, 1);
    let r = dims.remove(axis);
    lemma_numel_around_axis(w, axis);
    lemma_update_keeps_sides(dims, axis, 1);
    lemma_numel_split(r, axis);
    assert(r.take(axis) =~= dims.take(axis));
    assert(r.skip(axis) =~= dims.skip(axis + 1));
    let a = outer_extent(dims, axis);
    let b = inner_extent(dims, axis);
    assert(a * (1 as nat) * b == a * b) by (nonlinear_arith);
    law_window_determined(t, x, s, dims, axis, k, 1);
}

/// Scatter-adding onto positions that are all distinct puts `zero + g[o]` at
/// position `map[o]` and leaves `zero` everywhere else: the gradient of a
/// gather without repeated reads is zero outside the positions read.
pub proof fn law_scatter_distinct_positions<T: core::ops::Add<Output = T>>(
    g: Seq<T>,
    map: Seq<usize>,
    zero: T,
    n: nat,
    k: int,
)
    requires
        0 <= k <= g.len(),
        map.len() == g.len(),
        forall|o: int| 0 <= o < map.len() ==> #[trigger] map[o] < n,
        forall|o1: int, o2: int|
            0 <= o1 < map.len() && 0 <= o2 < map.len() && o1 != o2 ==> #[trigger] map[o1] != #[trigger] map[o2],
    ensures
        scatter_sum(g, map, zero, n, k).len() == n,
        forall|o: int| 0 <= o < k ==> #[trigger] scatter_sum(g, map, zero, n, k)[map[o] as int] == zero.add_spec(g[o]),
        forall|j: int|
            0 <= j < n && (forall|o: int| 0 <= o < k ==> #[trigger] map[o] != j) ==> #[trigger] scatter_sum(
                g,
                map,
                zero,
                n,
                k,
            )[j] == zero,
    decreases k,
{
    if k > 0 {
        law_scatter_distinct_positions(g, map, zero, n, k - 1);
        let prev = scatter_sum(g, map, zero, n, k - 1);
        let j = map[k - 1] as int;
        assert(prev[j] == zero);
    }
}

} // verus!
