//! Swapping two axes of a tensor.

use vstd::prelude::*;

use crate::error::{TorshError, is_invalid_argument};
use crate::kernels::gather;
use crate::shape::{shape_numel, checked_numel, sub_dims, copy_dims};
use crate::slices::{
    strided_position,
    lemma_numel_around_axis,
    lemma_strided_cover,
    lemma_strided_decode,
    lemma_strided_bound,
};
use crate::tensor::{Tensor, operand_of};
use crate::graph::Operation;
use crate::ops::records_identity;

verus! {

/// Row-major position of the element at index `u` of the first chosen
/// axis and `v` of the second, for a tensor whose axes are grouped into five
/// blocks: those before the first chosen axis (index `p`), the first chosen
/// axis (extent `ue`), those between the two (extent `me`, index `m`), the
/// second chosen axis (extent `ve`) and those after it (extent `se`, index
/// `s`).
pub open spec fn grouped_position(ue: int, me: int, ve: int, se: int, p: int, u: int, m: int, v: int, s: int) -> int {
    strided_position(ve, se, strided_position(ue, me, p, m, u), s, v)
}

/// The extents `dims` with axes `a` and `b` exchanged.
pub open spec fn swapped_axes(dims: Seq<usize>, a: int, b: int) -> Seq<usize> {
    dims.update(a, dims[b]).update(b, dims[a])
}

/// Number of elements spanned by the axes strictly between `a` and `b`.
pub open spec fn between_extent(dims: Seq<usize>, a: int, b: int) -> nat {
    shape_numel(dims.subrange(a + 1, b))
}

/// `t` holds `x` (extents `dims`) with axes `a < b` exchanged: the element
/// at index `x_` of axis `a` and `y` of axis `b` moves to index `y` of axis
/// `a` and `x_` of axis `b`.
pub open spec fn holds_swap<T>(t: Seq<T>, x: Seq<T>, dims: Seq<usize>, a: int, b: int) -> bool {
    let pe = shape_numel(dims.take(a)) as int;
    let ae = dims[a] as int;
    let me = between_extent(dims, a, b) as int;
    let be = dims[b] as int;
    let se = shape_numel(dims.skip(b + 1)) as int;
    forall|p: int, u: int, m: int, v: int, s: int|
        0 <= p < pe && 0 <= u < ae && 0 <= m < me && 0 <= v < be && 0 <= s < se
            ==> #[trigger] t[grouped_position(be, me, ae, se, p, v, m, u, s)] == x[grouped_position(
            ae,
            me,
            be,
            se,
            p,
            u,
            m,
            v,
            s,
        )]
}

/// `map`, a list of positions of a tensor of extents `dims`, reads every
/// element of the tensor with axes `a < b` exchanged from the position it
/// came from: index `y` of axis `a` and `x_` of axis `b` from index `x_` of
/// axis `a` and `y` of axis `b`.
pub open spec fn places_swap(map: Seq<usize>, dims: Seq<usize>, a: int, b: int) -> bool {
    let pe = shape_numel(dims.take(a)) as int;
    let ae = dims[a] as int;
    let me = between_extent(dims, a, b) as int;
    let be = dims[b] as int;
    let se = shape_numel(dims.skip(b + 1)) as int;
    &&& map.len() == shape_numel(dims)
    &&& forall|p: int, u: int, m: int, v: int, s: int|
        0 <= p < pe && 0 <= u < ae && 0 <= m < me && 0 <= v < be && 0 <= s < se
            ==> #[trigger] map[grouped_position(be, me, ae, se, p, v, m, u, s)] == grouped_position(
            ae,
            me,
            be,
            se,
            p,
            u,
            m,
            v,
            s,
        )
}

/// `t` records a gather from `src` with axes `a < b` exchanged: each
/// element was read from the position it came from.
pub open spec fn records_swap<T>(t: Tensor<T>, src: Tensor<T>, a: int, b: int) -> bool {
    match t.recorded_operation() {
        Some(Operation::Gather { input, index_map }) => operand_of(input, src) && places_swap(
            index_map@,
            src.dims(),
            a,
            b,
        ),
        _ => false,
    }
}

/// The elements of a tensor split into five blocks around two axes.
pub(crate) proof fn lemma_numel_five_blocks(dims: Seq<usize>, a: int, b: int)
    requires
        0 <= a < b < dims.len(),
    ensures
        shape_numel(dims) == shape_numel(dims.take(a)) * (dims[a] as nat) * between_extent(dims, a, b)
            * (dims[b] as nat) * shape_numel(dims.skip(b + 1)),
{
    lemma_numel_around_axis(dims, a);
    let rest = dims.skip(a + 1);
    let k = b - a - 1;
    lemma_numel_around_axis(rest, k);
    assert(rest.take(k) =~= dims.subrange(a + 1, b));
    assert(rest.skip(k + 1) =~= dims.skip(b + 1));
    assert(rest[k] == dims[b]);
    let p = shape_numel(dims.take(a));
    let x = dims[a] as nat;
    let m = between_extent(dims, a, b);
    let y = dims[b] as nat;
    let s = shape_numel(dims.skip(b + 1));
    assert(p * x * (m * y * s) == p * x * m * y * s) by (nonlinear_arith);
}

/// Exchanging two axes keeps the blocks around them and swaps their extents.
proof fn lemma_swap_blocks(dims: Seq<usize>, a: int, b: int)
    requires
        0 <= a < b < dims.len(),
    ensures
        swapped_axes(dims, a, b).len() == dims.len(),
        swapped_axes(dims, a, b).take(a) == dims.take(a),
        swapped_axes(dims, a, b).skip(b + 1) == dims.skip(b + 1),
        between_extent(swapped_axes(dims, a, b), a, b) == between_extent(dims, a, b),
        swapped_axes(dims, a, b)[a] == dims[b],
        swapped_axes(dims, a, b)[b] == dims[a],
        shape_numel(swapped_axes(dims, a, b)) == shape_numel(dims),
{
    let w = swapped_axes(dims, a, b);
    assert(w.take(a) =~= dims.take(a));
    assert(w.skip(b + 1) =~= dims.skip(b + 1));
    assert(w.subrange(a + 1, b) =~= dims.subrange(a + 1, b));
    lemma_numel_five_blocks(dims, a, b);
    lemma_numel_five_blocks(w, a, b);
    let p = shape_numel(dims.take(a));
    let x = dims[a] as nat;
    let m = between_extent(dims, a, b);
    let y = dims[b] as nat;
    let s = shape_numel(dims.skip(b + 1));
    assert(p * y * m * x * s == p * x * m * y * s) by (nonlinear_arith);
}

/// Where the element at position `q` of the result of exchanging two axes
/// comes from, for blocks of extents `ae`, `me`, `be`, `se` (those before
/// the first axis need no extent): `q` decodes as
/// `grouped_position(be, me, ae, se, p, v, m, u, s)` and the element comes
/// from `grouped_position(ae, me, be, se, p, u, m, v, s)`.
pub open spec fn swap_source(q: int, ae: int, me: int, be: int, se: int) -> int {
    let s = q % se;
    let u = (q / se) % ae;
    let o = (q / se) / ae;
    let m = o % me;
    let v = (o / me) % be;
    let p = (o / me) / be;
    grouped_position(ae, me, be, se, p, u, m, v, s)
}

/// The positions read, in row-major order of the result, when two axes of
/// extents `ae` and `be`, separated by `me` elements and followed by `se`,
/// are exchanged in a tensor of `n` elements.
fn swap_map(pe: usize, ae: usize, me: usize, be: usize, se: usize, n: usize) -> (r: Vec<usize>)
    requires
        n == pe * ae * me * be * se,
    ensures
        r@.len() == n,
        forall|q: int| 0 <= q < n ==> #[trigger] r@[q] == swap_source(q, ae as int, me as int, be as int, se as int),
        forall|q: int| 0 <= q < n ==> #[trigger] r@[q] < n,
{
    let mut out: Vec<usize> = Vec::new();
    if n == 0 {
        return out;
    }
    proof {
        assert(pe > 0 && ae > 0 && me > 0 && be > 0 && se > 0) by (nonlinear_arith)
            requires
                n == pe * ae * me * be * se,
                n > 0,
        ;
        assert(n == (pe * be * me) * ae * se) by (nonlinear_arith)
            requires
                n == pe * ae * me * be * se,
        ;
        assert(n == (pe * ae * me) * be * se) by (nonlinear_arith)
            requires
                n == pe * ae * me * be * se,
        ;
    }
    let mut q: usize = 0;
    while q < n
        invariant
            n == pe * ae * me * be * se,
            n == (pe * be * me) * ae * se,
            n == (pe * ae * me) * be * se,
            pe > 0 && ae > 0 && me > 0 && be > 0 && se > 0,
            q <= n,
            out@.len() == q,
            forall|j: int| 0 <= j < q ==> #[trigger] out@[j] == swap_source(j, ae as int, me as int, be as int, se as int),
            forall|j: int| 0 <= j < q ==> #[trigger] out@[j] < n,
        decreases n - q,
    {
        let ghost qi = q as int;
        proof {
            lemma_strided_cover(ae as int, se as int, (pe * be * me) as int, qi);
            let o = (qi / se as int) / ae as int;
            lemma_strided_cover(be as int, me as int, pe as int, o);
            let p = (o / me as int) / be as int;
            let m = o % me as int;
            let u = (qi / se as int) % ae as int;
            lemma_strided_bound(ae as int, me as int, pe as int, p, m, u);
            let inner = strided_position(ae as int, me as int, p, m, u);
            let v = (o / me as int) % be as int;
            let s = qi % se as int;
            lemma_strided_bound(be as int, se as int, (pe * ae * me) as int, inner, s, v);
        }
        let s = q % se;
        let r1 = q / se;
        let u = r1 % ae;
        let o = r1 / ae;
        let m = o % me;
        let r3 = o / me;
        let v = r3 % be;
        let p = r3 / be;
        proof {
            let inner = strided_position(ae as int, me as int, p as int, m as int, u as int);
            assert(inner == (p * ae + u) * me + m);
            assert(strided_position(be as int, se as int, inner, s as int, v as int) < n);
            assert(p * ae + u <= (p * ae + u) * me + m) by (nonlinear_arith)
                requires
                    me >= 1,
            ;
            assert(inner * be + v <= (inner * be + v) * se + s) by (nonlinear_arith)
                requires
                    se >= 1,
                    inner >= 0,
            ;
            assert(inner <= inner * be) by (nonlinear_arith)
                requires
                    be >= 1,
                    inner >= 0,
            ;
            assert(p * ae <= p * ae + u);
        }
        let src = (((p * ae + u) * me + m) * be + v) * se + s;
        out.push(src);
        q = q + 1;
    }
    out
}

impl<T: Copy> Tensor<T> {
    /// The tensor with axes `dim0` and `dim1` exchanged, its elements in
    /// row-major order of the new shape; the same tensor's elements where
    /// the two axes are one. An invalid argument where either names no
    /// axis. The result takes part in differentiation where `self` does.
    pub fn transpose_view(&self, dim0: usize, dim1: usize) -> (r: Result<Self, TorshError>)
        ensures
            r is Ok <==> (dim0 < self.dims().len() && dim1 < self.dims().len()),
            r matches Err(e) ==> is_invalid_argument(e),
            r matches Ok(t) ==> t.dims() == swapped_axes(self.dims(), dim0 as int, dim1 as int)
                && t.values().len() == self.values().len(),
            r matches Ok(t) ==> (dim0 == dim1 ==> t.values() == self.values()),
            r matches Ok(t) ==> (dim0 < dim1 ==> holds_swap(t.values(), self.values(), self.dims(), dim0 as int, dim1 as int)),
            r matches Ok(t) ==> (dim1 < dim0 ==> holds_swap(t.values(), self.values(), self.dims(), dim1 as int, dim0 as int)),
            r matches Ok(t) ==> t.tracks_gradient() == (self.tracks_gradient() && self.graph_depth() < usize::MAX),
            r matches Ok(t) ==> (t.tracks_gradient() && dim0 == dim1 ==> records_identity(t, *self)),
            r matches Ok(t) ==> (t.tracks_gradient() && dim0 < dim1 ==> records_swap(t, *self, dim0 as int, dim1 as int)),
            r matches Ok(t) ==> (t.tracks_gradient() && dim1 < dim0 ==> records_swap(t, *self, dim1 as int, dim0 as int)),
    {
        let rank = self.ndim();
        if dim0 >= rank || dim1 >= rank {
            return Err(TorshError::InvalidArgument(String::from_str("dimension out of range")));
        }
        let n = self.numel();
        let data = self.data_slice();
        let dims = self.dims_slice();
        let ghost ds = dims@;
        if dim0 == dim1 {
            let map = crate::kernels::identity_map(n);
            let values = gather(data, map.as_slice());
            proof {
                assert(values@ =~= data@);
                assert(ds.update(dim0 as int, ds[dim1 as int]).update(dim1 as int, ds[dim0 as int]) =~= ds);
            }
            return Ok(self.record_gather(values, map, copy_dims(dims)));
        }
        let a = if dim0 < dim1 {
            dim0
        } else {
            dim1
        };
        let b = if dim0 < dim1 {
            dim1
        } else {
            dim0
        };
        let ae = dims[a];
        let be = dims[b];
        let mut out_dims = copy_dims(dims);
        out_dims.set(a, be);
        out_dims.set(b, ae);
        proof {
            lemma_numel_five_blocks(ds, a as int, b as int);
            lemma_swap_blocks(ds, a as int, b as int);
            assert(out_dims@ =~= swapped_axes(ds, a as int, b as int));
            assert(swapped_axes(ds, a as int, b as int) =~= swapped_axes(ds, dim0 as int, dim1 as int));
            assert(ds.take(a as int) =~= ds.subrange(0, a as int));
            assert(ds.skip(b + 1) =~= ds.subrange(b + 1, rank as int));
        }
        let ghost pn = shape_numel(ds.take(a as int));
        let ghost mn = between_extent(ds, a as int, b as int);
        let ghost sn = shape_numel(ds.skip(b + 1));
        if n == 0 {
            proof {
                assert forall|p: int, u: int, m: int, v: int, s: int|
                    #![trigger grouped_position(be as int, mn as int, ae as int, sn as int, p, v, m, u, s)]
                    0 <= p < pn && 0 <= u < ae && 0 <= m < mn && 0 <= v < be && 0 <= s < sn implies false by {
                    assert(pn * (ae as nat) * mn * (be as nat) * sn > 0) by (nonlinear_arith)
                        requires
                            0 <= p < pn,
                            0 <= u < ae,
                            0 <= m < mn,
                            0 <= v < be,
                            0 <= s < sn,
                    ;
                }
            }
            return Ok(self.record_gather(Vec::new(), Vec::new(), out_dims));
        }
        proof {
            assert(pn >= 1 && mn >= 1 && sn >= 1 && ae >= 1 && be >= 1) by (nonlinear_arith)
                requires
                    pn * (ae as nat) * mn * (be as nat) * sn == n,
                    n > 0,
            ;
            assert(pn <= n && mn <= n && sn <= n) by (nonlinear_arith)
                requires
                    pn * (ae as nat) * mn * (be as nat) * sn == n,
                    pn >= 1,
                    mn >= 1,
                    sn >= 1,
                    ae >= 1,
                    be >= 1,
            ;
        }
        let pe = match checked_numel(sub_dims(dims, 0, a).as_slice()) {
            Some(v) => v,
            None => {
                proof {
                    assert(false);
                }
                return Err(TorshError::InvalidArgument(String::from_str("dimension out of range")));
            },
        };
        let me = match checked_numel(sub_dims(dims, a + 1, b).as_slice()) {
            Some(v) => v,
            None => {
                proof {
                    assert(false);
                }
                return Err(TorshError::InvalidArgument(String::from_str("dimension out of range")));
            },
        };
        let se = match checked_numel(sub_dims(dims, b + 1, rank).as_slice()) {
            Some(v) => v,
            None => {
                proof {
                    assert(false);
                }
                return Err(TorshError::InvalidArgument(String::from_str("dimension out of range")));
            },
        };
        let map = swap_map(pe, ae, me, be, se, n);
        let values = gather(data, map.as_slice());
        proof {
            assert forall|p: int, u: int, m: int, v: int, s: int|
                0 <= p < pe && 0 <= u < ae && 0 <= m < me && 0 <= v < be && 0 <= s < se implies #[trigger] values@[grouped_position(
                    be as int,
                    me as int,
                    ae as int,
                    se as int,
                    p,
                    v,
                    m,
                    u,
                    s,
                )] == data@[grouped_position(ae as int, me as int, be as int, se as int, p, u, m, v, s)] by {
                let o = strided_position(be as int, me as int, p, m, v);
                let q = strided_position(ae as int, se as int, o, s, u);
                lemma_strided_decode(be as int, me as int, p, m, v);
                lemma_strided_decode(ae as int, se as int, o, s, u);
                lemma_strided_bound(be as int, me as int, pe as int, p, m, v);
                lemma_strided_bound(ae as int, se as int, (pe * be * me) as int, o, s, u);
                assert(n == (pe * be * me) * ae * se) by (nonlinear_arith)
                    requires
                        n == pe * ae * me * be * se,
                ;
                assert(map@[q] == swap_source(q, ae as int, me as int, be as int, se as int));
            }
            assert forall|p: int, u: int, m: int, v: int, s: int|
                0 <= p < pe && 0 <= u < ae && 0 <= m < me && 0 <= v < be && 0 <= s < se implies #[trigger] map@[grouped_position(
                    be as int,
                    me as int,
                    ae as int,
                    se as int,
                    p,
                    v,
                    m,
                    u,
                    s,
                )] == grouped_position(ae as int, me as int, be as int, se as int, p, u, m, v, s) by {
                let o = strided_position(be as int, me as int, p, m, v);
                let q = strided_position(ae as int, se as int, o, s, u);
                lemma_strided_decode(be as int, me as int, p, m, v);
                lemma_strided_decode(ae as int, se as int, o, s, u);
                lemma_strided_bound(be as int, me as int, pe as int, p, m, v);
                lemma_strided_bound(ae as int, se as int, (pe * be * me) as int, o, s, u);
                assert(n == (pe * be * me) * ae * se) by (nonlinear_arith)
                    requires
                        n == pe * ae * me * be * se,
                ;
                assert(map@[q] == swap_source(q, ae as int, me as int, be as int, se as int));
            }
        }
        Ok(self.record_gather(values, map, out_dims))
    }
}

/// Exchanging the same two axes twice gives back the tensor: where `t`
/// holds `x` (extents `dims`) with axes `a < b` exchanged and `u` holds `t`
/// (extents exchanged) with the same axes exchanged, `u` is `x`.
pub proof fn law_swap_twice<T>(x: Seq<T>, t: Seq<T>, u: Seq<T>, dims: Seq<usize>, a: int, b: int)
    requires
        0 <= a < b < dims.len(),
        x.len() == shape_numel(dims),
        u.len() == x.len(),
        holds_swap(t, x, dims, a, b),
        holds_swap(u, t, swapped_axes(dims, a, b), a, b),
    ensures
        u == x,
{
    lemma_numel_five_blocks(dims, a, b);
    lemma_swap_blocks(dims, a, b);
    let w = swapped_axes(dims, a, b);
    let pe = shape_numel(dims.take(a)) as int;
    let ae = dims[a] as int;
    let me = between_extent(dims, a, b) as int;
    let be = dims[b] as int;
    let se = shape_numel(dims.skip(b + 1)) as int;
    let n = x.len() as int;
    assert(n == pe * ae * me * be * se);
    assert forall|q: int| 0 <= q < n implies u[q] == x[q] by {
        assert(pe > 0 && ae > 0 && me > 0 && be > 0 && se > 0) by (nonlinear_arith)
            requires
                n == pe * ae * me * be * se,
                0 <= q < n,
                pe >= 0,
                ae >= 0,
                me >= 0,
                be >= 0,
                se >= 0,
        ;
        assert(n == (pe * ae * me) * be * se) by (nonlinear_arith)
            requires
                n == pe * ae * me * be * se,
        ;
        lemma_strided_cover(be, se, pe * ae * me, q);
        let o = (q / se) / be;
        let v = (q / se) % be;
        let s = q % se;
        lemma_strided_cover(ae, me, pe, o);
        let p = (o / me) / ae;
        let m = o % me;
        let uu = (o / me) % ae;
        assert(q == grouped_position(ae, me, be, se, p, uu, m, v, s));
        assert(u[grouped_position(ae, me, be, se, p, uu, m, v, s)] == t[grouped_position(
            be,
            me,
            ae,
            se,
            p,
            v,
            m,
            uu,
            s,
        )]);
        assert(t[grouped_position(be, me, ae, se, p, v, m, uu, s)] == x[grouped_position(
            ae,
            me,
            be,
            se,
            p,
            uu,
            m,
            v,
            s,
        )]);
    }
    assert(u =~= x);
}

} // verus!
