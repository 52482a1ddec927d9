//! Joining tensors: concatenation along an existing axis and stacking along
//! a new one, recorded for differentiation.

use vstd::prelude::*;

use crate::activation::produce;
use crate::backprop::fill;
use crate::error::{TorshError, is_invalid_argument, is_shape_mismatch};
use crate::graph::{Operand, Operation, maps_into};
use crate::kernels::window_map;
use crate::ops::{holds_window, places_window, with_extent};
use crate::shape::{shape_numel, checked_numel, sub_dims, copy_dims, dims_equal, normalize_dim};
use crate::slices::{
    outer_extent,
    inner_extent,
    strided_position,
    lemma_strided_cover,
    lemma_strided_decode,
    lemma_numel_around_axis,
    names_axis,
    chosen_axis,
};
use crate::tensor::{Tensor, operand_of};

verus! {

/// The sum of the first `k` extents: where block `k` starts.
pub open spec fn offset(exts: Seq<usize>, k: int) -> nat
    decreases k,
{
    if k <= 0 {
        0
    } else {
        offset(exts, k - 1) + (exts[k - 1] as nat)
    }
}

/// Blocks further along start no earlier.
pub proof fn lemma_offset_mono(exts: Seq<usize>, j: int, k: int)
    requires
        0 <= j <= k,
    ensures
        offset(exts, j) <= offset(exts, k),
    decreases k - j,
{
    if j < k {
        lemma_offset_mono(exts, j, k - 1);
    }
}

/// Lays the buffers `parts` (extent `exts[k]` along the joined axis, between
/// `outer` and `inner` elements) one after another along that axis, into a
/// buffer of extent `total` there; also returns, for each part, where each of
/// its elements went.
fn assemble<T: Copy + Default>(
    parts: &Vec<Operand<T>>,
    exts: &Vec<usize>,
    outer: usize,
    inner: usize,
    total: usize,
    n: usize,
) -> (r: (Vec<T>, Vec<Vec<usize>>))
    requires
        parts@.len() == exts@.len(),
        total == offset(exts@, exts@.len() as int),
        n == outer * total * inner,
        forall|k: int| 0 <= k < parts@.len() ==> #[trigger] parts@[k].values@.len() == outer * exts@[k] * inner,
    ensures
        r.0@.len() == outer * total * inner,
        r.1@.len() == parts@.len(),
        forall|k: int|
            0 <= k < parts@.len() ==> maps_into(
                #[trigger] r.1@[k]@,
                parts@[k].values@.len(),
                (outer * total * inner) as nat,
            ),
        forall|k: int, o: int, i: int, d: int|
            0 <= k < parts@.len() && 0 <= o < outer && 0 <= i < inner && 0 <= d < exts@[k] ==> #[trigger] parts@[k].values@[strided_position(
                exts@[k] as int,
                inner as int,
                o,
                i,
                d,
            )] == r.0@[strided_position(total as int, inner as int, o, i, offset(exts@, k) + d)],
        forall|k: int, o: int, i: int, d: int|
            0 <= k < parts@.len() && 0 <= o < outer && 0 <= i < inner && 0 <= d < exts@[k] ==> #[trigger] r.1@[k]@[strided_position(
                exts@[k] as int,
                inner as int,
                o,
                i,
                d,
            )] == strided_position(total as int, inner as int, o, i, offset(exts@, k) + d),
{
    let zero = produce(T::default);
    let mut out = fill(zero, n);
    let mut placements: Vec<Vec<usize>> = Vec::new();
    let count = parts.len();
    let mut k: usize = 0;
    let mut off: usize = 0;
    while k < count
        invariant
            count == parts@.len(),
            count == exts@.len(),
            k <= count,
            off == offset(exts@, k as int),
            total == offset(exts@, count as int),
            n == outer * total * inner,
            n <= usize::MAX,
            out@.len() == n,
            placements@.len() == k,
            forall|q: int| 0 <= q < parts@.len() ==> #[trigger] parts@[q].values@.len() == outer * exts@[q] * inner,
            forall|q: int|
                0 <= q < k ==> maps_into(#[trigger] placements@[q]@, parts@[q].values@.len(), n as nat),
            forall|q: int, o: int, i: int, d: int|
                0 <= q < k && 0 <= o < outer && 0 <= i < inner && 0 <= d < exts@[q] ==> #[trigger] placements@[q]@[strided_position(
                    exts@[q] as int,
                    inner as int,
                    o,
                    i,
                    d,
                )] == strided_position(total as int, inner as int, o, i, offset(exts@, q) + d),
            forall|q: int, o: int, i: int, d: int|
                0 <= q < k && 0 <= o < outer && 0 <= i < inner && 0 <= d < exts@[q] ==> #[trigger] parts@[q].values@[strided_position(
                    exts@[q] as int,
                    inner as int,
                    o,
                    i,
                    d,
                )] == out@[strided_position(total as int, inner as int, o, i, offset(exts@, q) + d)],
        decreases count - k,
    {
        let e = exts[k];
        proof {
            lemma_offset_mono(exts@, k + 1, count as int);
            assert(outer * e * inner <= n) by (nonlinear_arith)
                requires
                    n == outer * total * inner,
                    off + e <= total,
            ;
        }
        let map = window_map(outer, total, inner, off, e);
        let vals = &parts[k].values;
        let len = vals.len();
        let ghost before = out@;
        let mut p: usize = 0;
        while p < len
            invariant
                len == vals@.len(),
                len == outer * e * inner,
                placements@.len() == k,
                total == offset(exts@, count as int),
                parts@.len() == count,
                forall|q: int|
                    0 <= q < k ==> maps_into(#[trigger] placements@[q]@, parts@[q].values@.len(), n as nat),
                forall|q: int, o: int, i: int, d: int|
                    0 <= q < k && 0 <= o < outer && 0 <= i < inner && 0 <= d < exts@[q] ==> #[trigger] placements@[q]@[strided_position(
                        exts@[q] as int,
                        inner as int,
                        o,
                        i,
                        d,
                    )] == strided_position(total as int, inner as int, o, i, offset(exts@, q) + d),
                map@.len() == len,
                vals@ == parts@[k as int].values@,
                e == exts@[k as int],
                k < count,
                count == exts@.len(),
                off == offset(exts@, k as int),
                off + e <= total,
                n == outer * total * inner,
                out@.len() == n,
                p <= len,
                forall|q: int| 0 <= q < map@.len() ==> #[trigger] map@[q] < n,
                forall|o: int, i: int, d: int|
                    0 <= o < outer && 0 <= i < inner && 0 <= d < e ==> #[trigger] map@[strided_position(
                        e as int,
                        inner as int,
                        o,
                        i,
                        d,
                    )] == strided_position(total as int, inner as int, o, i, off + d),
                forall|q: int| 0 <= q < p ==> #[trigger] out@[map@[q] as int] == vals@[q],
                forall|q: int, o: int, i: int, d: int|
                    0 <= q < k && 0 <= o < outer && 0 <= i < inner && 0 <= d < exts@[q] ==> #[trigger] parts@[q].values@[strided_position(
                        exts@[q] as int,
                        inner as int,
                        o,
                        i,
                        d,
                    )] == out@[strided_position(total as int, inner as int, o, i, offset(exts@, q) + d)],
            decreases len - p,
        {
            let ghost prev = out@;
            proof {
                assert(e > 0 && inner > 0 && outer > 0) by (nonlinear_arith)
                    requires
                        p < len,
                        len == outer * e * inner,
                ;
                lemma_strided_cover(e as int, inner as int, outer as int, p as int);
            }
            let ghost po = (p as int / inner as int) / e as int;
            let ghost pi = p as int % inner as int;
            let ghost pd = (p as int / inner as int) % e as int;
            let target = map[p];
            out.set(target, vals[p]);
            proof {
                assert(target == strided_position(total as int, inner as int, po, pi, off + pd));
                assert forall|q: int| 0 <= q < p + 1 implies #[trigger] out@[map@[q] as int] == vals@[q] by {
                    if q < p {
                        lemma_strided_cover(e as int, inner as int, outer as int, q);
                        let qo = (q / inner as int) / e as int;
                        let qi = q % inner as int;
                        let qd = (q / inner as int) % e as int;
                        assert(map@[q] == strided_position(total as int, inner as int, qo, qi, off + qd));
                        lemma_strided_decode(total as int, inner as int, qo, qi, off + qd);
                        lemma_strided_decode(total as int, inner as int, po, pi, off + pd);
                        assert(map@[q] != target);
                        assert(out@[map@[q] as int] == prev[map@[q] as int]);
                    }
                }
                assert forall|q: int, o: int, i: int, d: int|
                    0 <= q < k && 0 <= o < outer && 0 <= i < inner && 0 <= d < exts@[q] implies #[trigger] parts@[q].values@[strided_position(
                        exts@[q] as int,
                        inner as int,
                        o,
                        i,
                        d,
                    )] == out@[strided_position(total as int, inner as int, o, i, offset(exts@, q) + d)] by {
                    lemma_offset_mono(exts@, q + 1, k as int);
                    assert(offset(exts@, q + 1) == offset(exts@, q) + exts@[q]);
                    let x = strided_position(total as int, inner as int, o, i, offset(exts@, q) + d);
                    assert(offset(exts@, q) + d < off);
                    lemma_strided_decode(total as int, inner as int, o, i, offset(exts@, q) + d);
                    lemma_strided_decode(total as int, inner as int, po, pi, off + pd);
                    crate::slices::lemma_strided_bound(
                        total as int,
                        inner as int,
                        outer as int,
                        o,
                        i,
                        offset(exts@, q) + d,
                    );
                    assert(x != target);
                    assert(out@[x] == prev[x]);
                }
            }
            p = p + 1;
        }
        proof {
            assert forall|o: int, i: int, d: int|
                0 <= o < outer && 0 <= i < inner && 0 <= d < exts@[k as int] implies #[trigger] parts@[k as int].values@[strided_position(
                    exts@[k as int] as int,
                    inner as int,
                    o,
                    i,
                    d,
                )] == out@[strided_position(total as int, inner as int, o, i, offset(exts@, k as int) + d)] by {
                crate::slices::lemma_strided_bound(e as int, inner as int, outer as int, o, i, d);
                let q = strided_position(e as int, inner as int, o, i, d);
                assert(out@[map@[q] as int] == vals@[q]);
            }
        }
        let ghost prev_placements = placements@;
        placements.push(map);
        proof {
            assert forall|q: int, o: int, i: int, d: int|
                0 <= q < k + 1 && 0 <= o < outer && 0 <= i < inner && 0 <= d < exts@[q] implies #[trigger] placements@[q]@[strided_position(
                    exts@[q] as int,
                    inner as int,
                    o,
                    i,
                    d,
                )] == strided_position(total as int, inner as int, o, i, offset(exts@, q) + d) by {
                if q < k {
                    assert(placements@[q] == prev_placements[q]);
                } else {
                    assert(placements@[q] == map);
                }
            }
        }
        off = off + e;
        k = k + 1;
    }
    (out, placements)
}

/// `t` records the concatenation of `ts` along `axis`: input `k` is the
/// tensor `ts[k]`, and each of its elements is recorded at the position of
/// the result it was written to, in the block of extent `exts[k]` that
/// starts at `offset(exts, k)`.
pub open spec fn records_concat<T>(t: Tensor<T>, ts: Seq<&Tensor<T>>, axis: int, exts: Seq<usize>) -> bool {
    match t.recorded_operation() {
        Some(Operation::Concat { inputs, placements, dim }) => {
            &&& dim == axis
            &&& inputs@.len() == ts.len()
            &&& placements@.len() == ts.len()
            &&& forall|k: int| 0 <= k < ts.len() ==> operand_of(#[trigger] inputs@[k], *ts[k])
            &&& forall|k: int|
                0 <= k < ts.len() ==> places_window(
                    #[trigger] placements@[k]@,
                    t.dims(),
                    axis,
                    offset(exts, k) as int,
                    exts[k] as int,
                )
        },
        _ => false,
    }
}

/// `t` records the stacking of `ts` along the new axis `axis`: input `k` is
/// the tensor `ts[k]`, and each of its elements is recorded at the position
/// of the result it was written to, at index `k` of the new axis.
pub open spec fn records_stack<T>(t: Tensor<T>, ts: Seq<Tensor<T>>, axis: int) -> bool {
    match t.recorded_operation() {
        Some(Operation::Stack { inputs, placements, dim }) => {
            &&& dim == axis
            &&& inputs@.len() == ts.len()
            &&& placements@.len() == ts.len()
            &&& forall|k: int| 0 <= k < ts.len() ==> operand_of(#[trigger] inputs@[k], ts[k])
            &&& forall|k: int| 0 <= k < ts.len() ==> places_window(#[trigger] placements@[k]@, t.dims(), axis, k, 1)
        },
        _ => false,
    }
}

/// `count` empty lists of positions.
fn empty_placements(count: usize) -> (r: Vec<Vec<usize>>)
    ensures
        r@.len() == count,
        forall|k: int| 0 <= k < count ==> (#[trigger] r@[k])@.len() == 0,
{
    let mut out: Vec<Vec<usize>> = Vec::new();
    let mut k: usize = 0;
    while k < count
        invariant
            k <= count,
            out@.len() == k,
            forall|q: int| 0 <= q < k ==> (#[trigger] out@[q])@.len() == 0,
        decreases count - k,
    {
        out.push(Vec::new());
        k = k + 1;
    }
    out
}

/// `b` has the rank of `a` and the same extents on every axis but `axis`.
pub open spec fn fits_along(a: Seq<usize>, b: Seq<usize>, axis: int) -> bool {
    &&& a.len() == b.len()
    &&& forall|j: int| 0 <= j < a.len() && j != axis ==> a[j] == b[j]
}

/// Every tensor of `ts` can be joined to the first along `axis`.
pub open spec fn joinable<T>(ts: Seq<&Tensor<T>>, axis: int) -> bool {
    forall|k: int| 0 <= k < ts.len() ==> fits_along(ts[0].dims(), #[trigger] ts[k].dims(), axis)
}

/// The extents of the tensors `ts` along `axis`.
pub open spec fn axis_extents<T>(ts: Seq<&Tensor<T>>, axis: int) -> Seq<usize> {
    Seq::new(ts.len(), |k: int| ts[k].dims()[axis])
}

/// Whether `b` has the rank of `a` and the same extents on every axis but
/// `axis`.
fn fits(a: &[usize], b: &[usize], axis: usize) -> (r: bool)
    ensures
        r == fits_along(a@, b@, axis as int),
{
    if a.len() != b.len() {
        return false;
    }
    let n = a.len();
    let mut j: usize = 0;
    while j < n
        invariant
            n == a@.len(),
            n == b@.len(),
            j <= n,
            forall|q: int| 0 <= q < j && q != axis ==> a@[q] == b@[q],
        decreases n - j,
    {
        if j != axis && a[j] != b[j] {
            return false;
        }
        j = j + 1;
    }
    true
}

/// The elements of a tensor split into those before an axis, the axis and
/// those after it, for the same axis of two shapes that fit along it.
proof fn lemma_fitting_sides(a: Seq<usize>, b: Seq<usize>, axis: int)
    requires
        0 <= axis < a.len(),
        fits_along(a, b, axis),
    ensures
        outer_extent(b, axis) == outer_extent(a, axis),
        inner_extent(b, axis) == inner_extent(a, axis),
        shape_numel(b) == outer_extent(a, axis) * (b[axis] as nat) * inner_extent(a, axis),
{
    assert(b.take(axis) =~= a.take(axis));
    assert(b.skip(axis + 1) =~= a.skip(axis + 1));
    lemma_numel_around_axis(b, axis);
}

impl<T: Copy + Default> Tensor<T> {
    /// Concatenates `tensors` along the axis named by `dim` (negative values
    /// count from the last axis of the first tensor): the result has the
    /// shape of the first tensor with that extent replaced by the sum of the
    /// tensors' extents there, and tensor `k` occupies the block that starts
    /// where the blocks of the tensors before it end.
    ///
    /// Fails with an invalid argument on an empty list, on a `dim` that names
    /// no axis, and where the result would have more elements than can be
    /// addressed; with a shape mismatch, reporting the first tensor's extents
    /// and those of a tensor that differs from it on another axis or in rank.
    pub fn cat(tensors: &[&Tensor<T>], dim: i32) -> (r: Result<Tensor<T>, TorshError>)
        ensures
            tensors@.len() == 0 ==> (r matches Err(e) && is_invalid_argument(e)),
            tensors@.len() > 0 && !names_axis(tensors@[0].dims(), dim as int) ==> (r matches Err(e)
                && is_invalid_argument(e)),
            tensors@.len() > 0 && names_axis(tensors@[0].dims(), dim as int) && !joinable(
                tensors@,
                chosen_axis(tensors@[0].dims(), dim as int),
            ) ==> (r matches Err(e) && exists|k: int|
                0 <= k < tensors@.len() && !fits_along(
                    tensors@[0].dims(),
                    tensors@[k].dims(),
                    chosen_axis(tensors@[0].dims(), dim as int),
                ) && is_shape_mismatch(e, tensors@[0].dims(), #[trigger] tensors@[k].dims())),
            r is Ok <==> (tensors@.len() > 0 && names_axis(tensors@[0].dims(), dim as int) && joinable(
                tensors@,
                chosen_axis(tensors@[0].dims(), dim as int),
            ) && offset(
                axis_extents(tensors@, chosen_axis(tensors@[0].dims(), dim as int)),
                tensors@.len() as int,
            ) <= usize::MAX && shape_numel(
                with_extent(
                    tensors@[0].dims(),
                    chosen_axis(tensors@[0].dims(), dim as int),
                    offset(
                        axis_extents(tensors@, chosen_axis(tensors@[0].dims(), dim as int)),
                        tensors@.len() as int,
                    ) as usize,
                ),
            ) <= usize::MAX),
            r matches Err(e) ==> (is_invalid_argument(e) || e is ShapeMismatch),
            r matches Ok(t) ==> {
                let ax = chosen_axis(tensors@[0].dims(), dim as int);
                let exts = axis_extents(tensors@, ax);
                &&& t.dims() == with_extent(
                    tensors@[0].dims(),
                    ax,
                    offset(exts, tensors@.len() as int) as usize,
                )
                &&& t.values().len() == shape_numel(t.dims())
                &&& forall|k: int|
                    0 <= k < tensors@.len() ==> holds_window(
                        #[trigger] tensors@[k].values(),
                        t.values(),
                        t.dims(),
                        ax,
                        offset(exts, k) as int,
                        exts[k] as int,
                    )
            },
            r matches Ok(t) ==> (t.tracks_gradient() ==> exists|k: int|
                0 <= k < tensors@.len() && (#[trigger] tensors@[k]).tracks_gradient()),
            r matches Ok(t) ==> ((exists|k: int|
                0 <= k < tensors@.len() && (#[trigger] tensors@[k]).tracks_gradient()) && (forall|k: int|
                0 <= k < tensors@.len() ==> (#[trigger] tensors@[k]).graph_depth() < usize::MAX)
                ==> t.tracks_gradient()),
            r matches Ok(t) ==> (t.tracks_gradient() ==> records_concat(
                t,
                tensors@,
                chosen_axis(tensors@[0].dims(), dim as int),
                axis_extents(tensors@, chosen_axis(tensors@[0].dims(), dim as int)),
            )),
    {
        let count = tensors.len();
        if count == 0 {
            return Err(TorshError::InvalidArgument(String::from_str("cat needs at least one tensor")));
        }
        let first = tensors[0];
        let rank = first.ndim();
        let axis = match normalize_dim(dim, rank) {
            Some(a) => a,
            None => {
                return Err(TorshError::InvalidArgument(String::from_str("dimension out of range")));
            },
        };
        let ghost ts = tensors@;
        let ghost d0 = first.dims();
        let ghost exts_spec = axis_extents(ts, axis as int);
        let mut exts: Vec<usize> = Vec::new();
        let mut parts: Vec<crate::graph::Operand<T>> = Vec::new();
        let mut total: usize = 0;
        let mut overflow = false;
        let mut any_grad = false;
        let mut below: usize = 0;
        let mut k: usize = 0;
        while k < count
            invariant
                count == ts.len(),
                ts == tensors@,
                d0 == ts[0].dims(),
                first.dims() == d0,
                axis < d0.len(),
                names_axis(d0, dim as int),
                axis == chosen_axis(d0, dim as int),
                exts_spec == axis_extents(ts, axis as int),
                k <= count,
                exts@.len() == k,
                parts@.len() == k,
                forall|q: int| 0 <= q < k ==> fits_along(d0, #[trigger] ts[q].dims(), axis as int),
                forall|q: int| 0 <= q < k ==> #[trigger] exts@[q] == exts_spec[q],
                !overflow ==> total == offset(exts_spec, k as int),
                overflow ==> offset(exts_spec, k as int) > usize::MAX,
                forall|q: int| 0 <= q < k ==> (#[trigger] parts@[q]).values@ == ts[q].values(),
                forall|q: int| 0 <= q < k ==> (#[trigger] parts@[q]).dims@ == ts[q].dims(),
                forall|q: int| 0 <= q < k ==> operand_of(#[trigger] parts@[q], *ts[q]),
                forall|q: int| 0 <= q < k ==> (#[trigger] parts@[q]).values@.len() == shape_numel(parts@[q].dims@),
                forall|q: int| 0 <= q < k ==> ((#[trigger] parts@[q]).node is Some <==> ts[q].tracks_gradient()),
                forall|q: int|
                    0 <= q < k ==> ((#[trigger] parts@[q]).node matches Some(n) ==> n.depth
                        == ts[q].graph_depth() && n.numel == ts[q].values().len()
                        && crate::graph::node_ok(*n)),
                forall|q: int| 0 <= q < k ==> ts[q].graph_depth() <= below,
                below == 0 || exists|q: int| 0 <= q < k && (#[trigger] ts[q]).graph_depth() == below,
                any_grad <==> exists|q: int| 0 <= q < k && (#[trigger] ts[q]).tracks_gradient(),
            decreases count - k,
        {
            let t = tensors[k];
            if !fits(first.dims_slice(), t.dims_slice(), axis) {
                proof {
                    assert(!fits_along(ts[0].dims(), ts[k as int].dims(), axis as int));
                }
                return Err(TorshError::ShapeMismatch { expected: first.shape_vec(), got: t.shape_vec() });
            }
            let e = t.dims_slice()[axis];
            exts.push(e);
            if !overflow {
                match total.checked_add(e) {
                    Some(v) => {
                        total = v;
                    },
                    None => {
                        overflow = true;
                    },
                }
            } else {
                proof {
                    assert(offset(exts_spec, k + 1) >= offset(exts_spec, k as int));
                }
            }
            if t.requires_grad() {
                any_grad = true;
            }
            let d = t.depth();
            if d > below {
                below = d;
            }
            parts.push(t.operand());
            k = k + 1;
        }
        proof {
            assert(joinable(ts, axis as int));
            assert(exts@ =~= exts_spec);
        }
        if overflow {
            return Err(TorshError::InvalidArgument(String::from_str("the joined extent is too large")));
        }
        let mut out_dims = copy_dims(first.dims_slice());
        out_dims.set(axis, total);
        proof {
            assert(out_dims@ =~= with_extent(d0, axis as int, total));
        }
        let numel = match checked_numel(out_dims.as_slice()) {
            Some(v) => v,
            None => {
                return Err(TorshError::InvalidArgument(String::from_str("the joined tensor is too large")));
            },
        };
        proof {
            crate::ops::lemma_update_keeps_sides(d0, axis as int, total);
            lemma_numel_around_axis(out_dims@, axis as int);
            assert(d0.take(axis as int) =~= d0.subrange(0, axis as int));
            assert(d0.skip(axis + 1) =~= d0.subrange(axis + 1, rank as int));
            assert forall|q: int| 0 <= q < count implies #[trigger] parts@[q].values@.len() == outer_extent(
                d0,
                axis as int,
            ) * exts@[q] * inner_extent(d0, axis as int) by {
                let _ = ts[q].values();
                lemma_fitting_sides(d0, ts[q].dims(), axis as int);
            }
        }
        let ghost outer_n = outer_extent(d0, axis as int);
        let ghost inner_n = inner_extent(d0, axis as int);
        if numel == 0 {
            proof {
                assert forall|q: int| 0 <= q < count implies holds_window(
                    #[trigger] ts[q].values(),
                    Seq::<T>::empty(),
                    out_dims@,
                    axis as int,
                    offset(exts_spec, q) as int,
                    exts_spec[q] as int,
                ) by {
                    lemma_offset_mono(exts_spec, q + 1, count as int);
                    assert forall|o: int, i: int, d: int|
                        #![trigger strided_position(exts_spec[q] as int, inner_n as int, o, i, d)]
                        0 <= o < outer_n && 0 <= i < inner_n && 0 <= d < exts_spec[q] implies false by {
                        assert(outer_n * (total as nat) * inner_n > 0) by (nonlinear_arith)
                            requires
                                0 <= o < outer_n,
                                0 <= i < inner_n,
                                0 <= d < total,
                        ;
                    }
                }
            }
            let placements = empty_placements(count);
            if any_grad && below < usize::MAX {
                proof {
                    assert forall|q: int| 0 <= q < count implies #[trigger] parts@[q].values@.len() == 0 by {
                        lemma_offset_mono(exts_spec, q + 1, count as int);
                        assert(outer_n * (exts@[q] as nat) * inner_n == 0) by (nonlinear_arith)
                            requires
                                outer_n * (total as nat) * inner_n == 0,
                                exts@[q] <= total,
                        ;
                    }
                    assert forall|q: int| 0 <= q < count implies crate::graph::operand_ok(
                        #[trigger] parts@[q],
                        (below + 1) as usize,
                    ) by {}
                    assert(crate::graph::placed_ok(parts@, placements@, 0, (below + 1) as usize));
                    assert forall|q: int| 0 <= q < count implies places_window(
                        #[trigger] placements@[q]@,
                        out_dims@,
                        axis as int,
                        offset(exts_spec, q) as int,
                        exts_spec[q] as int,
                    ) by {
                        lemma_offset_mono(exts_spec, q + 1, count as int);
                        assert(outer_n * (exts@[q] as nat) * inner_n == 0) by (nonlinear_arith)
                            requires
                                outer_n * (total as nat) * inner_n == 0,
                                exts@[q] <= total,
                        ;
                        assert forall|o: int, i: int, d: int|
                            #![trigger strided_position(exts_spec[q] as int, inner_n as int, o, i, d)]
                            0 <= o < outer_n && 0 <= i < inner_n && 0 <= d < exts_spec[q] implies false by {
                            assert(outer_n * (total as nat) * inner_n > 0) by (nonlinear_arith)
                                requires
                                    0 <= o < outer_n,
                                    0 <= i < inner_n,
                                    0 <= d < total,
                            ;
                        }
                    }
                }
                let t = Tensor::recorded(
                    Vec::new(),
                    out_dims,
                    Operation::Concat { inputs: parts, placements, dim: axis },
                    below,
                );
                return Ok(t);
            }
            return Ok(Tensor::from_parts(Vec::new(), out_dims));
        }
        proof {
            assert(1 <= inner_n && 1 <= outer_n && 1 <= total) by (nonlinear_arith)
                requires
                    outer_n * (total as nat) * inner_n == numel,
                    numel > 0,
            ;
            assert(outer_n <= numel && inner_n <= numel) by (nonlinear_arith)
                requires
                    outer_n * (total as nat) * inner_n == numel,
                    1 <= inner_n,
                    1 <= outer_n,
                    total >= 1,
            ;
        }
        let inner = match checked_numel(sub_dims(first.dims_slice(), axis + 1, rank).as_slice()) {
            Some(v) => v,
            None => {
                proof {
                    assert(false);
                }
                return Err(TorshError::InvalidArgument(String::from_str("the joined tensor is too large")));
            },
        };
        let outer = match checked_numel(sub_dims(first.dims_slice(), 0, axis).as_slice()) {
            Some(v) => v,
            None => {
                proof {
                    assert(false);
                }
                return Err(TorshError::InvalidArgument(String::from_str("the joined tensor is too large")));
            },
        };
        let (values, placements) = assemble(&parts, &exts, outer, inner, total, numel);
        proof {
            assert forall|q: int| 0 <= q < count implies holds_window(
                #[trigger] ts[q].values(),
                values@,
                out_dims@,
                axis as int,
                offset(exts_spec, q) as int,
                exts_spec[q] as int,
            ) by {
                assert(parts@[q].values@ == ts[q].values());
            }
        }
        if any_grad && below < usize::MAX {
            proof {
                assert forall|q: int| 0 <= q < count implies crate::graph::operand_ok(
                    #[trigger] parts@[q],
                    (below + 1) as usize,
                ) by {}
                assert(crate::graph::placed_ok(parts@, placements@, numel as nat, (below + 1) as usize));
            }
            proof {
                assert forall|q: int| 0 <= q < count implies places_window(
                    #[trigger] placements@[q]@,
                    out_dims@,
                    axis as int,
                    offset(exts_spec, q) as int,
                    exts_spec[q] as int,
                ) by {
                    assert(exts@[q] == exts_spec[q]);
                    assert(maps_into(placements@[q]@, parts@[q].values@.len(), numel as nat));
                }
            }
            Ok(Tensor::recorded(values, out_dims, Operation::Concat { inputs: parts, placements, dim: axis }, below))
        } else {
            Ok(Tensor::from_parts(values, out_dims))
        }
    }
}

/// Every tensor of `ts` has the shape of the first.
pub open spec fn same_shapes<T>(ts: Seq<Tensor<T>>) -> bool {
    forall|k: int| 0 <= k < ts.len() ==> #[trigger] ts[k].dims() == ts[0].dims()
}

/// Blocks of extent one start at their index.
proof fn lemma_offset_of_ones(exts: Seq<usize>, k: int)
    requires
        0 <= k <= exts.len(),
        forall|q: int| 0 <= q < exts.len() ==> #[trigger] exts[q] == 1,
    ensures
        offset(exts, k) == k,
    decreases k,
{
    if k > 0 {
        lemma_offset_of_ones(exts, k - 1);
    }
}

impl<T: Copy + Default> Tensor<T> {
    /// Stacks `tensors`, which must all have the same shape, along a new
    /// axis inserted at position `dim` (at most the tensors' rank): the
    /// result has that shape with an axis of extent `tensors.len()` inserted,
    /// and its slice at index `k` along the new axis is tensor `k`.
    ///
    /// Fails with an invalid argument on an empty list, on a `dim` past the
    /// rank, and where the result would have more elements than can be
    /// addressed; with a shape mismatch, reporting the first tensor's extents
    /// and those of a tensor of another shape.
    pub fn stack(tensors: &[Tensor<T>], dim: usize) -> (r: Result<Tensor<T>, TorshError>)
        ensures
            tensors@.len() == 0 ==> (r matches Err(e) && is_invalid_argument(e)),
            tensors@.len() > 0 && !same_shapes(tensors@) ==> (r matches Err(e) && exists|k: int|
                0 <= k < tensors@.len() && tensors@[k].dims() != tensors@[0].dims()
                    && is_shape_mismatch(e, tensors@[0].dims(), #[trigger] tensors@[k].dims())),
            tensors@.len() > 0 && same_shapes(tensors@) && dim > tensors@[0].dims().len() ==> (r matches Err(
                e,
            ) && is_invalid_argument(e)),
            r is Ok <==> (tensors@.len() > 0 && same_shapes(tensors@) && dim <= tensors@[0].dims().len()
                && shape_numel(tensors@[0].dims().insert(dim as int, tensors@.len() as usize))
                <= usize::MAX),
            r matches Err(e) ==> (is_invalid_argument(e) || e is ShapeMismatch),
            r matches Ok(t) ==> {
                &&& t.dims() == tensors@[0].dims().insert(dim as int, tensors@.len() as usize)
                &&& t.values().len() == shape_numel(t.dims())
                &&& forall|k: int|
                    0 <= k < tensors@.len() ==> holds_window(
                        #[trigger] tensors@[k].values(),
                        t.values(),
                        t.dims(),
                        dim as int,
                        k,
                        1,
                    )
            },
            r matches Ok(t) ==> (t.tracks_gradient() ==> exists|k: int|
                0 <= k < tensors@.len() && (#[trigger] tensors@[k]).tracks_gradient()),
            r matches Ok(t) ==> ((exists|k: int|
                0 <= k < tensors@.len() && (#[trigger] tensors@[k]).tracks_gradient()) && (forall|k: int|
                0 <= k < tensors@.len() ==> (#[trigger] tensors@[k]).graph_depth() < usize::MAX)
                ==> t.tracks_gradient()),
            r matches Ok(t) ==> (t.tracks_gradient() ==> records_stack(t, tensors@, dim as int)),
    {
        let count = tensors.len();
        if count == 0 {
            return Err(TorshError::InvalidArgument(String::from_str("stack needs at least one tensor")));
        }
        let first = &tensors[0];
        let ghost ts = tensors@;
        let ghost d0 = first.dims();
        let mut parts: Vec<crate::graph::Operand<T>> = Vec::new();
        let mut exts: Vec<usize> = Vec::new();
        let mut any_grad = false;
        let mut below: usize = 0;
        let mut k: usize = 0;
        while k < count
            invariant
                count == ts.len(),
                ts == tensors@,
                d0 == ts[0].dims(),
                first.dims() == d0,
                k <= count,
                parts@.len() == k,
                exts@.len() == k,
                forall|q: int| 0 <= q < k ==> #[trigger] ts[q].dims() == d0,
                forall|q: int| 0 <= q < k ==> #[trigger] exts@[q] == 1,
                forall|q: int| 0 <= q < k ==> (#[trigger] parts@[q]).values@ == ts[q].values(),
                forall|q: int| 0 <= q < k ==> (#[trigger] parts@[q]).dims@ == ts[q].dims(),
                forall|q: int| 0 <= q < k ==> (#[trigger] parts@[q]).values@.len() == shape_numel(parts@[q].dims@),
                forall|q: int|
                    0 <= q < k ==> ((#[trigger] parts@[q]).node matches Some(n) ==> n.depth
                        == ts[q].graph_depth() && n.numel == ts[q].values().len()
                        && crate::graph::node_ok(*n)),
                forall|q: int| 0 <= q < k ==> ts[q].graph_depth() <= below,
                below == 0 || exists|q: int| 0 <= q < k && (#[trigger] ts[q]).graph_depth() == below,
                any_grad <==> exists|q: int| 0 <= q < k && (#[trigger] ts[q]).tracks_gradient(),
                forall|q: int| 0 <= q < k ==> ((#[trigger] parts@[q]).node is Some <==> ts[q].tracks_gradient()),
                forall|q: int| 0 <= q < k ==> operand_of(#[trigger] parts@[q], ts[q]),
            decreases count - k,
        {
            let t = &tensors[k];
            if !dims_equal(first.dims_slice(), t.dims_slice()) {
                proof {
                    assert(!same_shapes(ts));
                }
                return Err(TorshError::ShapeMismatch { expected: first.shape_vec(), got: t.shape_vec() });
            }
            if t.requires_grad() {
                any_grad = true;
            }
            let d = t.depth();
            if d > below {
                below = d;
            }
            exts.push(1);
            parts.push(t.operand());
            k = k + 1;
        }
        proof {
            assert(same_shapes(ts));
        }
        let rank = first.ndim();
        if dim > rank {
            return Err(TorshError::InvalidArgument(String::from_str("dimension out of range")));
        }
        let mut out_dims = copy_dims(first.dims_slice());
        out_dims.insert(dim, count);
        let ghost od = out_dims@;
        let numel = match checked_numel(out_dims.as_slice()) {
            Some(v) => v,
            None => {
                return Err(TorshError::InvalidArgument(String::from_str("the stacked tensor is too large")));
            },
        };
        proof {
            lemma_offset_of_ones(exts@, count as int);
            lemma_numel_around_axis(od, dim as int);
            assert(od.take(dim as int) =~= d0.take(dim as int));
            assert(od.skip(dim + 1) =~= d0.skip(dim as int));
            crate::slices::lemma_numel_split(d0, dim as int);
            assert(d0.take(dim as int) =~= d0.subrange(0, dim as int));
            assert(d0.skip(dim as int) =~= d0.subrange(dim as int, rank as int));
            assert forall|q: int| 0 <= q < count implies #[trigger] parts@[q].values@.len() == outer_extent(
                od,
                dim as int,
            ) * exts@[q] * inner_extent(od, dim as int) by {
                let a = outer_extent(od, dim as int);
                let b = inner_extent(od, dim as int);
                assert(a * (1 as nat) * b == a * b) by (nonlinear_arith);
            }
        }
        let ghost outer_n = outer_extent(od, dim as int);
        let ghost inner_n = inner_extent(od, dim as int);
        if numel == 0 {
            proof {
                assert forall|q: int| 0 <= q < count implies holds_window(
                    #[trigger] ts[q].values(),
                    Seq::<T>::empty(),
                    od,
                    dim as int,
                    q,
                    1,
                ) by {
                    assert forall|o: int, i: int, d: int|
                        #![trigger strided_position(1, inner_n as int, o, i, d)]
                        0 <= o < outer_n && 0 <= i < inner_n && 0 <= d < 1 implies false by {
                        assert(outer_n * (count as nat) * inner_n > 0) by (nonlinear_arith)
                            requires
                                0 <= o < outer_n,
                                0 <= i < inner_n,
                                count >= 1,
                        ;
                    }
                }
            }
            let placements = empty_placements(count);
            if any_grad && below < usize::MAX {
                proof {
                    assert(outer_n * inner_n == 0) by (nonlinear_arith)
                        requires
                            outer_n * (count as nat) * inner_n == 0,
                            count >= 1,
                    ;
                    assert forall|q: int| 0 <= q < count implies crate::graph::operand_ok(
                        #[trigger] parts@[q],
                        (below + 1) as usize,
                    ) by {}
                    assert(crate::graph::placed_ok(parts@, placements@, 0, (below + 1) as usize));
                    assert forall|q: int| 0 <= q < count implies places_window(
                        #[trigger] placements@[q]@,
                        od,
                        dim as int,
                        q,
                        1,
                    ) by {
                        assert(outer_n * (1 as nat) * inner_n == 0) by (nonlinear_arith)
                            requires
                                outer_n * inner_n == 0,
                        ;
                        assert forall|o: int, i: int, d: int|
                            #![trigger strided_position(1, inner_n as int, o, i, d)]
                            0 <= o < outer_n && 0 <= i < inner_n && 0 <= d < 1 implies false by {
                            assert(outer_n * (count as nat) * inner_n > 0) by (nonlinear_arith)
                                requires
                                    0 <= o < outer_n,
                                    0 <= i < inner_n,
                                    count >= 1,
                            ;
                        }
                    }
                }
                let t = Tensor::recorded(
                    Vec::new(),
                    out_dims,
                    Operation::Stack { inputs: parts, placements, dim },
                    below,
                );
                return Ok(t);
            }
            return Ok(Tensor::from_parts(Vec::new(), out_dims));
        }
        proof {
            assert(1 <= inner_n && 1 <= outer_n) by (nonlinear_arith)
                requires
                    outer_n * (count as nat) * inner_n == numel,
                    numel > 0,
            ;
            assert(outer_n <= numel && inner_n <= numel) by (nonlinear_arith)
                requires
                    outer_n * (count as nat) * inner_n == numel,
                    1 <= inner_n,
                    1 <= outer_n,
                    count >= 1,
            ;
        }
        let inner = match checked_numel(sub_dims(first.dims_slice(), dim, rank).as_slice()) {
            Some(v) => v,
            None => {
                proof {
                    assert(false);
                }
                return Err(TorshError::InvalidArgument(String::from_str("the stacked tensor is too large")));
            },
        };
        let outer = match checked_numel(sub_dims(first.dims_slice(), 0, dim).as_slice()) {
            Some(v) => v,
            None => {
                proof {
                    assert(false);
                }
                return Err(TorshError::InvalidArgument(String::from_str("the stacked tensor is too large")));
            },
        };
        let (values, placements) = assemble(&parts, &exts, outer, inner, count, numel);
        proof {
            assert forall|q: int| 0 <= q < count implies holds_window(
                #[trigger] ts[q].values(),
                values@,
                od,
                dim as int,
                q,
                1,
            ) by {
                lemma_offset_of_ones(exts@, q);
                assert(parts@[q].values@ == ts[q].values());
            }
        }
        if any_grad && below < usize::MAX {
            proof {
                assert forall|q: int| 0 <= q < count implies crate::graph::operand_ok(
                    #[trigger] parts@[q],
                    (below + 1) as usize,
                ) by {}
                assert(crate::graph::placed_ok(parts@, placements@, numel as nat, (below + 1) as usize));
            }
            proof {
                assert forall|q: int| 0 <= q < count implies places_window(
                    #[trigger] placements@[q]@,
                    od,
                    dim as int,
                    q,
                    1,
                ) by {
                    lemma_offset_of_ones(exts@, q);
                    assert(exts@[q] == 1);
                    assert(maps_into(placements@[q]@, parts@[q].values@.len(), numel as nat));
                }
            }
            Ok(Tensor::recorded(values, out_dims, Operation::Stack { inputs: parts, placements, dim }, below))
        } else {
            Ok(Tensor::from_parts(values, out_dims))
        }
    }
}

} // verus!
