use vstd::prelude::*;
use vstd::arithmetic::div_mod::{lemma_fundamental_div_mod, lemma_multiply_divide_lt};

use vstd::std_specs::ops::{AddSpec, SubSpec, MulSpec, DivSpec};

use crate::error::{TorshError, is_shape_mismatch};
use crate::shape::{shape_numel, has_zero_extent, lemma_numel_zero, lemma_numel_prefix_le, checked_numel};
use crate::tensor::{Tensor, operand_of};
use crate::graph::{Operation, Operand};

verus! {

/// Extent of the axis `k` places before the last one; axes that a shorter
/// shape lacks count as extent 1.
pub open spec fn extent_from_end(s: Seq<usize>, k: int) -> usize {
    if 0 <= k < s.len() {
        s[s.len() - 1 - k]
    } else {
        1
    }
}

/// Number of axes of the broadcast of two shapes.
pub open spec fn broadcast_rank(a: Seq<usize>, b: Seq<usize>) -> nat {
    if a.len() >= b.len() {
        a.len()
    } else {
        b.len()
    }
}

/// Two shapes broadcast together: aligned at their last axes, each pair of
/// extents is equal or one of them is 1.
pub open spec fn broadcast_compatible(a: Seq<usize>, b: Seq<usize>) -> bool {
    forall|k: int|
        0 <= k < broadcast_rank(a, b) ==> {
            let x = #[trigger] extent_from_end(a, k);
            let y = extent_from_end(b, k);
            x == y || x == 1 || y == 1
        }
}

/// The shape two compatible shapes broadcast to: on each axis the extent that
/// is not a stretched 1.
pub open spec fn broadcast_shape(a: Seq<usize>, b: Seq<usize>) -> Seq<usize> {
    let r = broadcast_rank(a, b);
    Seq::new(
        r,
        |i: int|
            {
                let x = extent_from_end(a, r - 1 - i);
                let y = extent_from_end(b, r - 1 - i);
                if x == 1 {
                    y
                } else {
                    x
                }
            },
    )
}

/// `s` can be stretched to `o`: it has no more axes, and aligned at the last
/// axis each extent of `s` equals that of `o` or is 1.
pub open spec fn stretches_to(s: Seq<usize>, o: Seq<usize>) -> bool {
    &&& s.len() <= o.len()
    &&& forall|k: int|
        0 <= k < s.len() ==> #[trigger] extent_from_end(s, k) == extent_from_end(o, k)
            || extent_from_end(s, k) == 1
}

/// The row-major position in an operand of shape `s` that supplies position
/// `f` of a result of shape `o` when `s` is stretched to `o`: the coordinate
/// along each axis is kept where `s` has the full extent and dropped where `s`
/// has extent 1.
pub open spec fn source_index(o: Seq<usize>, s: Seq<usize>, f: nat) -> nat
    decreases o.len(),
{
    if o.len() == 0 {
        0
    } else {
        let oe = o.last() as nat;
        let se = extent_from_end(s, 0) as nat;
        let rest = if s.len() > 0 {
            s.drop_last()
        } else {
            s
        };
        let coord: nat = if se == 1 {
            0
        } else {
            f % oe
        };
        coord + se * source_index(o.drop_last(), rest, f / oe)
    }
}

/// Both operands stretch to the shape they broadcast to.
pub proof fn lemma_broadcast_stretches(a: Seq<usize>, b: Seq<usize>)
    requires
        broadcast_compatible(a, b),
    ensures
        stretches_to(a, broadcast_shape(a, b)),
        stretches_to(b, broadcast_shape(a, b)),
{
    let o = broadcast_shape(a, b);
    let r = broadcast_rank(a, b);
    assert forall|k: int| 0 <= k < r implies #[trigger] extent_from_end(o, k) == (if extent_from_end(
        a,
        k,
    ) == 1 {
        extent_from_end(b, k)
    } else {
        extent_from_end(a, k)
    }) by {
        assert(r - 1 - (r - 1 - k) == k);
    }
    assert forall|k: int| 0 <= k < a.len() implies #[trigger] extent_from_end(a, k)
        == extent_from_end(o, k) || extent_from_end(a, k) == 1 by {
        assert(extent_from_end(o, k) == extent_from_end(o, k));
    }
    assert forall|k: int| 0 <= k < b.len() implies #[trigger] extent_from_end(b, k)
        == extent_from_end(o, k) || extent_from_end(b, k) == 1 by {
        assert(extent_from_end(o, k) == extent_from_end(o, k));
        assert(extent_from_end(a, k) == extent_from_end(a, k));
    }
}

/// A shape with a positive number of elements has no zero extent.
pub proof fn lemma_positive_numel_no_zero(dims: Seq<usize>)
    requires
        shape_numel(dims) > 0,
    ensures
        !has_zero_extent(dims),
{
    if has_zero_extent(dims) {
        lemma_numel_zero(dims);
    }
}

/// An operand that stretches to a shape without zero extents has none either.
pub proof fn lemma_stretch_no_zero(s: Seq<usize>, o: Seq<usize>)
    requires
        stretches_to(s, o),
        !has_zero_extent(o),
    ensures
        !has_zero_extent(s),
{
    assert forall|i: int| 0 <= i < s.len() implies s[i] != 0 by {
        let k = s.len() - 1 - i;
        assert(extent_from_end(s, k) == s[i]);
        let j = o.len() - 1 - k;
        assert(extent_from_end(o, k) == o[j]);
    }
}

/// Stretching is inherited by the prefixes that drop the last axis of both.
pub proof fn lemma_stretch_drop_last(s: Seq<usize>, o: Seq<usize>)
    requires
        stretches_to(s, o),
        s.len() > 0,
    ensures
        stretches_to(s.drop_last(), o.drop_last()),
{
    let s2 = s.drop_last();
    let o2 = o.drop_last();
    assert forall|k: int| 0 <= k < s2.len() implies #[trigger] extent_from_end(s2, k)
        == extent_from_end(o2, k) || extent_from_end(s2, k) == 1 by {
        assert(extent_from_end(s2, k) == extent_from_end(s, k + 1));
        assert(extent_from_end(o2, k) == extent_from_end(o, k + 1));
    }
}

/// Computes [`source_index`] for the prefixes `o[..ol]` and `s[..sl]`, and
/// shows the position lies inside the operand.
pub fn source_position(o: &[usize], ol: usize, s: &[usize], sl: usize, f: usize) -> (r: usize)
    requires
        ol <= o@.len(),
        sl <= s@.len(),
        stretches_to(s@.take(sl as int), o@.take(ol as int)),
        f < shape_numel(o@.take(ol as int)),
        !has_zero_extent(s@),
        shape_numel(s@) <= usize::MAX,
    ensures
        r == source_index(o@.take(ol as int), s@.take(sl as int), f as nat),
        r < shape_numel(s@.take(sl as int)),
    decreases ol,
{
    let ghost op = o@.take(ol as int);
    let ghost sp = s@.take(sl as int);
    if ol == 0 {
        assert(sp.len() == 0);
        return 0;
    }
    let oe = o[ol - 1];
    let ghost n_rest = shape_numel(o@.take(ol - 1));
    proof {
        assert(op.drop_last() =~= o@.take(ol - 1));
        assert(op.last() == oe);
        assert(shape_numel(op) == n_rest * (oe as nat));
        if oe == 0 {
            assert(n_rest * 0 == 0) by (nonlinear_arith);
        }
        assert(f < (oe as nat) * n_rest) by (nonlinear_arith)
            requires
                f < n_rest * (oe as nat),
        ;
        lemma_multiply_divide_lt(f as int, oe as int, n_rest as int);
        lemma_fundamental_div_mod(f as int, oe as int);
        lemma_numel_prefix_le(s@, sl as int);
    }
    let q = f / oe;
    let c = f % oe;
    if sl == 0 {
        proof {
            assert(sp =~= Seq::<usize>::empty());
            assert(s@.take(0) =~= Seq::<usize>::empty());
            assert forall|k: int| 0 <= k < 0 implies #[trigger] extent_from_end(
                s@.take(0),
                k,
            ) == extent_from_end(o@.take(ol - 1), k) || extent_from_end(s@.take(0), k) == 1 by {}
        }
        let rest = source_position(o, ol - 1, s, 0, q);
        proof {
            assert(extent_from_end(sp, 0) == 1);
            assert(1 * (rest as nat) == rest);
        }
        rest
    } else {
        let se = s[sl - 1];
        proof {
            assert(sp.drop_last() =~= s@.take(sl - 1));
            assert(extent_from_end(sp, 0) == se);
            assert(extent_from_end(op, 0) == oe);
            lemma_stretch_drop_last(sp, op);
            assert(op.drop_last() =~= o@.take(ol - 1));
        }
        let rest = source_position(o, ol - 1, s, sl - 1, q);
        let ghost n_s = shape_numel(s@.take(sl - 1));
        proof {
            assert(shape_numel(sp) == n_s * (se as nat));
        }
        if se == 1 {
            proof {
                assert(1 * (rest as nat) == rest);
                assert(n_s * 1 == n_s);
            }
            rest
        } else {
            proof {
                assert(se == oe);
                assert((c as nat) + (se as nat) * (rest as nat) < n_s * (se as nat))
                    by (nonlinear_arith)
                    requires
                        rest < n_s,
                        c < se,
                ;
            }
            c + se * rest
        }
    }
}

/// Extent of the axis `k` places before the last one (1 where `s` has fewer axes).
fn extent_at_end(s: &[usize], k: usize) -> (e: usize)
    ensures
        e == extent_from_end(s@, k as int),
{
    if k < s.len() {
        s[s.len() - 1 - k]
    } else {
        1
    }
}

/// The shape two shapes broadcast to, or `None` where they do not broadcast.
pub fn broadcast_dims(a: &[usize], b: &[usize]) -> (r: Option<Vec<usize>>)
    ensures
        r is Some <==> broadcast_compatible(a@, b@),
        r matches Some(v) ==> v@ == broadcast_shape(a@, b@),
{
    let r: usize = if a.len() >= b.len() {
        a.len()
    } else {
        b.len()
    };
    let mut k: usize = 0;
    while k < r
        invariant
            r == broadcast_rank(a@, b@),
            k <= r,
            forall|j: int|
                0 <= j < k ==> {
                    let x = #[trigger] extent_from_end(a@, j);
                    let y = extent_from_end(b@, j);
                    x == y || x == 1 || y == 1
                },
        decreases r - k,
    {
        let x = extent_at_end(a, k);
        let y = extent_at_end(b, k);
        if !(x == y || x == 1 || y == 1) {
            return None;
        }
        k = k + 1;
    }
    let mut out: Vec<usize> = Vec::new();
    let mut i: usize = 0;
    while i < r
        invariant
            r == broadcast_rank(a@, b@),
            i <= r,
            out@ == broadcast_shape(a@, b@).take(i as int),
        decreases r - i,
    {
        let x = extent_at_end(a, r - 1 - i);
        let y = extent_at_end(b, r - 1 - i);
        if x == 1 {
            out.push(y);
        } else {
            out.push(x);
        }
        i = i + 1;
        assert(out@ =~= broadcast_shape(a@, b@).take(i as int));
    }
    assert(broadcast_shape(a@, b@).take(r as int) =~= broadcast_shape(a@, b@));
    Some(out)
}

/// Reading a result of the operand's own shape reads the operand in place.
pub proof fn lemma_source_index_same_shape(o: Seq<usize>, f: nat)
    requires
        f < shape_numel(o),
    ensures
        source_index(o, o, f) == f,
    decreases o.len(),
{
    if o.len() > 0 {
        let oe = o.last() as nat;
        let n_rest = shape_numel(o.drop_last());
        if oe == 0 {
            assert(n_rest * 0 == 0) by (nonlinear_arith);
        }
        assert(f < oe * n_rest) by (nonlinear_arith)
            requires
                f < n_rest * oe,
        ;
        lemma_multiply_divide_lt(f as int, oe as int, n_rest as int);
        lemma_fundamental_div_mod(f as int, oe as int);
        lemma_source_index_same_shape(o.drop_last(), f / oe);
        assert(extent_from_end(o, 0) == o.last());
        if oe == 1 {
            assert(f % oe == 0);
        }
    }
}

/// `p` holds of every pair of elements that a broadcasting operation on `a`
/// (extents `ad`) and `b` (extents `bd`) combines.
pub open spec fn broadcast_pairs<T>(
    a: Seq<T>,
    ad: Seq<usize>,
    b: Seq<T>,
    bd: Seq<usize>,
    p: spec_fn(T, T) -> bool,
) -> bool {
    let o = broadcast_shape(ad, bd);
    forall|f: int|
        #![trigger source_index(o, ad, f as nat)]
        0 <= f < shape_numel(o) ==> p(
            a[source_index(o, ad, f as nat) as int],
            b[source_index(o, bd, f as nat) as int],
        )
}

/// `v` combines, with `c`, the pairs of elements that broadcasting `a`
/// (extents `ad`) against `b` (extents `bd`) lines up.
pub open spec fn broadcast_combined<T>(
    v: Seq<T>,
    a: Seq<T>,
    ad: Seq<usize>,
    b: Seq<T>,
    bd: Seq<usize>,
    c: spec_fn(T, T) -> T,
) -> bool {
    let o = broadcast_shape(ad, bd);
    &&& v.len() == shape_numel(o)
    &&& forall|f: int|
        #![trigger v[f]]
        0 <= f < v.len() ==> v[f] == c(
            a[source_index(o, ad, f as nat) as int],
            b[source_index(o, bd, f as nat) as int],
        )
}

/// The broadcast of `a` (extents `ad`) against `b` (extents `bd`) combined
/// element by element with `op`, together with the extents of the result and,
/// for every result position, the positions of the two elements it combines.
fn broadcast_values<T: Copy, F: Fn(T, T) -> T>(
    a: &[T],
    ad: &[usize],
    b: &[T],
    bd: &[usize],
    op: F,
) -> (r: Option<(Vec<T>, Vec<usize>, Vec<usize>, Vec<usize>)>)
    requires
        a@.len() == shape_numel(ad@),
        b@.len() == shape_numel(bd@),
        broadcast_compatible(ad@, bd@) ==> shape_numel(broadcast_shape(ad@, bd@)) <= usize::MAX,
        broadcast_compatible(ad@, bd@) ==> broadcast_pairs(
            a@,
            ad@,
            b@,
            bd@,
            |x: T, y: T| call_requires(op, (x, y)),
        ),
    ensures
        r is Some <==> broadcast_compatible(ad@, bd@),
        r matches Some((v, o, ma, mb)) ==> {
            &&& o@ == broadcast_shape(ad@, bd@)
            &&& v@.len() == shape_numel(o@)
            &&& ma@.len() == v@.len()
            &&& mb@.len() == v@.len()
            &&& forall|f: int|
                0 <= f < v@.len() ==> {
                    &&& #[trigger] ma@[f] == source_index(o@, ad@, f as nat)
                    &&& mb@[f] == source_index(o@, bd@, f as nat)
                    &&& ma@[f] < a@.len()
                    &&& mb@[f] < b@.len()
                    &&& call_ensures(op, (a@[ma@[f] as int], b@[mb@[f] as int]), v@[f])
                }
        },
{
    let out_dims = match broadcast_dims(ad, bd) {
        Some(v) => v,
        None => {
            return None;
        },
    };
    let ghost o = out_dims@;
    proof {
        lemma_broadcast_stretches(ad@, bd@);
        assert(o.take(o.len() as int) =~= o);
        assert(ad@.take(ad@.len() as int) =~= ad@);
        assert(bd@.take(bd@.len() as int) =~= bd@);
    }
    let n = match checked_numel(out_dims.as_slice()) {
        Some(n) => n,
        None => {
            return None;
        },
    };
    let ol = out_dims.len();
    let alen = a.len();
    let blen = b.len();
    let mut out: Vec<T> = Vec::new();
    let mut ma: Vec<usize> = Vec::new();
    let mut mb: Vec<usize> = Vec::new();
    let mut f: usize = 0;
    while f < n
        invariant
            n == shape_numel(o),
            o == out_dims@,
            ol == o.len(),
            o == broadcast_shape(ad@, bd@),
            a@.len() == shape_numel(ad@),
            b@.len() == shape_numel(bd@),
            alen == a@.len(),
            blen == b@.len(),
            stretches_to(ad@, o),
            stretches_to(bd@, o),
            o.take(o.len() as int) == o,
            ad@.take(ad@.len() as int) == ad@,
            bd@.take(bd@.len() as int) == bd@,
            broadcast_pairs(a@, ad@, b@, bd@, |x: T, y: T| call_requires(op, (x, y))),
            f <= n,
            out@.len() == f,
            ma@.len() == f,
            mb@.len() == f,
            forall|g: int|
                0 <= g < f ==> {
                    &&& #[trigger] ma@[g] == source_index(o, ad@, g as nat)
                    &&& mb@[g] == source_index(o, bd@, g as nat)
                    &&& ma@[g] < a@.len()
                    &&& mb@[g] < b@.len()
                    &&& call_ensures(op, (a@[ma@[g] as int], b@[mb@[g] as int]), out@[g])
                },
        decreases n - f,
    {
        proof {
            lemma_positive_numel_no_zero(o);
            lemma_stretch_no_zero(ad@, o);
            lemma_stretch_no_zero(bd@, o);
        }
        let ia = source_position(out_dims.as_slice(), ol, ad, ad.len(), f);
        let ib = source_position(out_dims.as_slice(), ol, bd, bd.len(), f);
        proof {
            let fi: int = f as int;
            assert(call_requires(
                op,
                (a@[source_index(o, ad@, fi as nat) as int], b@[source_index(o, bd@, fi as nat) as int]),
            ));
        }
        let v = op(a[ia], b[ib]);
        out.push(v);
        ma.push(ia);
        mb.push(ib);
        f = f + 1;
    }
    Some((out, out_dims, ma, mb))
}

fn plus<T: core::ops::Add<Output = T>>(x: T, y: T) -> (r: T)
    requires
        x.add_req(y),
    ensures
        T::obeys_add_spec() ==> r == x.add_spec(y),
{
    x + y
}

fn minus<T: core::ops::Sub<Output = T>>(x: T, y: T) -> (r: T)
    requires
        x.sub_req(y),
    ensures
        T::obeys_sub_spec() ==> r == x.sub_spec(y),
{
    x - y
}

fn times<T: core::ops::Mul<Output = T>>(x: T, y: T) -> (r: T)
    requires
        x.mul_req(y),
    ensures
        T::obeys_mul_spec() ==> r == x.mul_spec(y),
{
    x * y
}

fn over<T: core::ops::Div<Output = T>>(x: T, y: T) -> (r: T)
    requires
        x.div_req(y),
    ensures
        T::obeys_div_spec() ==> r == x.div_spec(y),
{
    x / y
}

/// Which element-wise arithmetic a broadcasting operation applies.
enum Arith {
    Add,
    Sub,
    Mul,
    Div,
}

/// The recorded operands and index maps of a broadcasting operation.
pub open spec fn broadcast_parts<T>(op: Operation<T>) -> Option<(Operand<T>, Operand<T>, Seq<usize>, Seq<usize>)> {
    match op {
        Operation::Add { lhs, rhs, lhs_map, rhs_map } => Some((lhs, rhs, lhs_map@, rhs_map@)),
        Operation::Sub { lhs, rhs, lhs_map, rhs_map } => Some((lhs, rhs, lhs_map@, rhs_map@)),
        Operation::Mul { lhs, rhs, lhs_map, rhs_map } => Some((lhs, rhs, lhs_map@, rhs_map@)),
        Operation::Div { lhs, rhs, lhs_map, rhs_map } => Some((lhs, rhs, lhs_map@, rhs_map@)),
        _ => None,
    }
}

/// `t` records a broadcasting operation of `a` and `b`: its operands are `a`
/// and `b`, and its index maps send every position of `t` to the positions
/// of `a` and of `b` whose elements the value there was computed from.
pub open spec fn records_broadcast<T>(t: Tensor<T>, a: Tensor<T>, b: Tensor<T>) -> bool {
    match t.recorded_operation() {
        Some(op) => match broadcast_parts(op) {
            Some((l, r, lm, rm)) => {
                &&& operand_of(l, a)
                &&& operand_of(r, b)
                &&& lm.len() == shape_numel(t.dims())
                &&& rm.len() == shape_numel(t.dims())
                &&& forall|f: int|
                    0 <= f < shape_numel(t.dims()) ==> #[trigger] lm[f] == source_index(t.dims(), a.dims(), f as nat)
                &&& forall|f: int|
                    0 <= f < shape_numel(t.dims()) ==> #[trigger] rm[f] == source_index(t.dims(), b.dims(), f as nat)
            },
            None => false,
        },
        None => false,
    }
}

/// The operation `op` is of kind `kind`.
spec fn of_kind<T>(op: Operation<T>, kind: Arith) -> bool {
    match kind {
        Arith::Add => op is Add,
        Arith::Sub => op is Sub,
        Arith::Mul => op is Mul,
        Arith::Div => op is Div,
    }
}

/// `t` records an operation of kind `kind` on `a` and `b` with the index
/// maps `lm` and `rm`.
spec fn records_arith<T>(t: Tensor<T>, kind: Arith, a: Tensor<T>, b: Tensor<T>, lm: Seq<usize>, rm: Seq<usize>) -> bool {
    match t.recorded_operation() {
        Some(op) => of_kind(op, kind) && match broadcast_parts(op) {
            Some((l, r, m1, m2)) => operand_of(l, a) && operand_of(r, b) && m1 == lm && m2 == rm,
            None => false,
        },
        None => false,
    }
}

impl<T: Copy> Tensor<T> {
    /// The result of a broadcasting operation, recorded for differentiation
    /// where either operand takes part in it.
    fn record_arith(
        &self,
        other: &Self,
        kind: Arith,
        values: Vec<T>,
        dims: Vec<usize>,
        lhs_map: Vec<usize>,
        rhs_map: Vec<usize>,
    ) -> (t: Self)
        requires
            values@.len() == shape_numel(dims@),
            lhs_map@.len() == values@.len(),
            rhs_map@.len() == values@.len(),
            forall|p: int| 0 <= p < values@.len() ==> #[trigger] lhs_map@[p] < self.values().len(),
            forall|p: int| 0 <= p < values@.len() ==> #[trigger] rhs_map@[p] < other.values().len(),
        ensures
            t.values() == values@,
            t.dims() == dims@,
            t.tracks_gradient() ==> (self.tracks_gradient() || other.tracks_gradient()),
            (self.tracks_gradient() || other.tracks_gradient()) && self.graph_depth() < usize::MAX
                && other.graph_depth() < usize::MAX ==> t.tracks_gradient(),
            t.tracks_gradient() ==> records_arith(t, kind, *self, *other, lhs_map@, rhs_map@),
    {
        if !self.requires_grad() && !other.requires_grad() {
            return Tensor::from_parts(values, dims);
        }
        let da = self.depth();
        let db = other.depth();
        let below = if da >= db {
            da
        } else {
            db
        };
        let lhs = self.operand();
        let rhs = other.operand();
        let op = match kind {
            Arith::Add => Operation::Add { lhs, rhs, lhs_map, rhs_map },
            Arith::Sub => Operation::Sub { lhs, rhs, lhs_map, rhs_map },
            Arith::Mul => Operation::Mul { lhs, rhs, lhs_map, rhs_map },
            Arith::Div => Operation::Div { lhs, rhs, lhs_map, rhs_map },
        };
        Tensor::recorded(values, dims, op, below)
    }
}

impl<T: core::ops::Add<Output = T> + Copy> Tensor<T> {
    /// Element-wise sum with broadcasting: the shapes are aligned at their
    /// last axes, and an axis of extent 1 is stretched to the extent of the
    /// other operand. Fails with a shape mismatch where the shapes do not
    /// broadcast. The result takes part in differentiation where an operand
    /// does.
    pub fn add(&self, other: &Self) -> (r: Result<Self, TorshError>)
        requires
            broadcast_compatible(self.dims(), other.dims()) ==> shape_numel(
                broadcast_shape(self.dims(), other.dims()),
            ) <= usize::MAX,
            broadcast_compatible(self.dims(), other.dims()) ==> broadcast_pairs(
                self.values(),
                self.dims(),
                other.values(),
                other.dims(),
                |x: T, y: T| x.add_req(y),
            ),
        ensures
            r is Ok <==> broadcast_compatible(self.dims(), other.dims()),
            r matches Err(e) ==> is_shape_mismatch(e, self.dims(), other.dims()),
            r matches Ok(t) ==> t.dims() == broadcast_shape(self.dims(), other.dims()) && t.values().len()
                == shape_numel(t.dims()),
            r matches Ok(t) ==> T::obeys_add_spec() ==> broadcast_combined(
                t.values(),
                self.values(),
                self.dims(),
                other.values(),
                other.dims(),
                |x: T, y: T| x.add_spec(y),
            ),
            r matches Ok(t) ==> (t.tracks_gradient() ==> (self.tracks_gradient()
                || other.tracks_gradient())),
            r matches Ok(t) ==> ((self.tracks_gradient() || other.tracks_gradient())
                && self.graph_depth() < usize::MAX && other.graph_depth() < usize::MAX
                ==> t.tracks_gradient()),
            r matches Ok(t) ==> (t.tracks_gradient() ==> records_broadcast(t, *self, *other) && (
            t.recorded_operation() matches Some(Operation::Add { .. }))),
    {
        let a = self.data_slice();
        let ad = self.dims_slice();
        let b = other.data_slice();
        let bd = other.dims_slice();
        proof {
            if broadcast_compatible(ad@, bd@) {
                let o = broadcast_shape(ad@, bd@);
                assert forall|f: int| 0 <= f < shape_numel(o) implies #[trigger] call_requires(
                    plus::<T>,
                    (a@[source_index(o, ad@, f as nat) as int], b@[source_index(o, bd@, f as nat) as int]),
                ) by {
                    assert((|x: T, y: T| x.add_req(y))(
                        a@[source_index(o, ad@, f as nat) as int],
                        b@[source_index(o, bd@, f as nat) as int],
                    ));
                }
            }
        }
        match broadcast_values(a, ad, b, bd, plus::<T>) {
            None => Err(TorshError::ShapeMismatch { expected: self.shape_vec(), got: other.shape_vec() }),
            Some((values, dims, lhs_map, rhs_map)) => {
                proof {
                    if T::obeys_add_spec() {
                        let o = broadcast_shape(ad@, bd@);
                        assert forall|f: int| 0 <= f < values@.len() implies #[trigger] values@[f] == (|x: T, y: T| x.add_spec(y))(
                            a@[source_index(o, ad@, f as nat) as int],
                            b@[source_index(o, bd@, f as nat) as int],
                        ) by {
                            assert(lhs_map@[f] == source_index(o, ad@, f as nat));
                        }
                    }
                }
                proof {
                    assert forall|p: int| 0 <= p < values@.len() implies #[trigger] rhs_map@[p] < b@.len() by {
                        assert(lhs_map@[p] < a@.len());
                    }
                }
                proof {
                    let o = broadcast_shape(ad@, bd@);
                    assert forall|f: int| 0 <= f < shape_numel(o) implies #[trigger] rhs_map@[f] == source_index(
                        o,
                        bd@,
                        f as nat,
                    ) by {
                        assert(lhs_map@[f] == source_index(o, ad@, f as nat));
                    }
                }
                Ok(self.record_arith(other, Arith::Add, values, dims, lhs_map, rhs_map))
            },
        }
    }
}

impl<T: core::ops::Sub<Output = T> + Copy> Tensor<T> {
    /// Element-wise difference with broadcasting: the shapes are aligned at their
    /// last axes, and an axis of extent 1 is stretched to the extent of the
    /// other operand. Fails with a shape mismatch where the shapes do not
    /// broadcast. The result takes part in differentiation where an operand
    /// does.
    pub fn sub(&self, other: &Self) -> (r: Result<Self, TorshError>)
        requires
            broadcast_compatible(self.dims(), other.dims()) ==> shape_numel(
                broadcast_shape(self.dims(), other.dims()),
            ) <= usize::MAX,
            broadcast_compatible(self.dims(), other.dims()) ==> broadcast_pairs(
                self.values(),
                self.dims(),
                other.values(),
                other.dims(),
                |x: T, y: T| x.sub_req(y),
            ),
        ensures
            r is Ok <==> broadcast_compatible(self.dims(), other.dims()),
            r matches Err(e) ==> is_shape_mismatch(e, self.dims(), other.dims()),
            r matches Ok(t) ==> t.dims() == broadcast_shape(self.dims(), other.dims()) && t.values().len()
                == shape_numel(t.dims()),
            r matches Ok(t) ==> T::obeys_sub_spec() ==> broadcast_combined(
                t.values(),
                self.values(),
                self.dims(),
                other.values(),
                other.dims(),
                |x: T, y: T| x.sub_spec(y),
            ),
            r matches Ok(t) ==> (t.tracks_gradient() ==> (self.tracks_gradient()
                || other.tracks_gradient())),
            r matches Ok(t) ==> ((self.tracks_gradient() || other.tracks_gradient())
                && self.graph_depth() < usize::MAX && other.graph_depth() < usize::MAX
                ==> t.tracks_gradient()),
            r matches Ok(t) ==> (t.tracks_gradient() ==> records_broadcast(t, *self, *other) && (
            t.recorded_operation() matches Some(Operation::Sub { .. }))),
    {
        let a = self.data_slice();
        let ad = self.dims_slice();
        let b = other.data_slice();
        let bd = other.dims_slice();
        proof {
            if broadcast_compatible(ad@, bd@) {
                let o = broadcast_shape(ad@, bd@);
                assert forall|f: int| 0 <= f < shape_numel(o) implies #[trigger] call_requires(
                    minus::<T>,
                    (a@[source_index(o, ad@, f as nat) as int], b@[source_index(o, bd@, f as nat) as int]),
                ) by {
                    assert((|x: T, y: T| x.sub_req(y))(
                        a@[source_index(o, ad@, f as nat) as int],
                        b@[source_index(o, bd@, f as nat) as int],
                    ));
                }
            }
        }
        match broadcast_values(a, ad, b, bd, minus::<T>) {
            None => Err(TorshError::ShapeMismatch { expected: self.shape_vec(), got: other.shape_vec() }),
            Some((values, dims, lhs_map, rhs_map)) => {
                proof {
                    if T::obeys_sub_spec() {
                        let o = broadcast_shape(ad@, bd@);
                        assert forall|f: int| 0 <= f < values@.len() implies #[trigger] values@[f] == (|x: T, y: T| x.sub_spec(y))(
                            a@[source_index(o, ad@, f as nat) as int],
                            b@[source_index(o, bd@, f as nat) as int],
                        ) by {
                            assert(lhs_map@[f] == source_index(o, ad@, f as nat));
                        }
                    }
                }
                proof {
                    assert forall|p: int| 0 <= p < values@.len() implies #[trigger] rhs_map@[p] < b@.len() by {
                        assert(lhs_map@[p] < a@.len());
                    }
                }
                proof {
                    let o = broadcast_shape(ad@, bd@);
                    assert forall|f: int| 0 <= f < shape_numel(o) implies #[trigger] rhs_map@[f] == source_index(
                        o,
                        bd@,
                        f as nat,
                    ) by {
                        assert(lhs_map@[f] == source_index(o, ad@, f as nat));
                    }
                }
                Ok(self.record_arith(other, Arith::Sub, values, dims, lhs_map, rhs_map))
            },
        }
    }
}

impl<T: core::ops::Mul<Output = T> + Copy> Tensor<T> {
    /// Element-wise product with broadcasting: the shapes are aligned at their
    /// last axes, and an axis of extent 1 is stretched to the extent of the
    /// other operand. Fails with a shape mismatch where the shapes do not
    /// broadcast. The result takes part in differentiation where an operand
    /// does.
    pub fn mul(&self, other: &Self) -> (r: Result<Self, TorshError>)
        requires
            broadcast_compatible(self.dims(), other.dims()) ==> shape_numel(
                broadcast_shape(self.dims(), other.dims()),
            ) <= usize::MAX,
            broadcast_compatible(self.dims(), other.dims()) ==> broadcast_pairs(
                self.values(),
                self.dims(),
                other.values(),
                other.dims(),
                |x: T, y: T| x.mul_req(y),
            ),
        ensures
            r is Ok <==> broadcast_compatible(self.dims(), other.dims()),
            r matches Err(e) ==> is_shape_mismatch(e, self.dims(), other.dims()),
            r matches Ok(t) ==> t.dims() == broadcast_shape(self.dims(), other.dims()) && t.values().len()
                == shape_numel(t.dims()),
            r matches Ok(t) ==> T::obeys_mul_spec() ==> broadcast_combined(
                t.values(),
                self.values(),
                self.dims(),
                other.values(),
                other.dims(),
                |x: T, y: T| x.mul_spec(y),
            ),
            r matches Ok(t) ==> (t.tracks_gradient() ==> (self.tracks_gradient()
                || other.tracks_gradient())),
            r matches Ok(t) ==> ((self.tracks_gradient() || other.tracks_gradient())
                && self.graph_depth() < usize::MAX && other.graph_depth() < usize::MAX
                ==> t.tracks_gradient()),
            r matches Ok(t) ==> (t.tracks_gradient() ==> records_broadcast(t, *self, *other) && (
            t.recorded_operation() matches Some(Operation::Mul { .. }))),
    {
        let a = self.data_slice();
        let ad = self.dims_slice();
        let b = other.data_slice();
        let bd = other.dims_slice();
        proof {
            if broadcast_compatible(ad@, bd@) {
                let o = broadcast_shape(ad@, bd@);
                assert forall|f: int| 0 <= f < shape_numel(o) implies #[trigger] call_requires(
                    times::<T>,
                    (a@[source_index(o, ad@, f as nat) as int], b@[source_index(o, bd@, f as nat) as int]),
                ) by {
                    assert((|x: T, y: T| x.mul_req(y))(
                        a@[source_index(o, ad@, f as nat) as int],
                        b@[source_index(o, bd@, f as nat) as int],
                    ));
                }
            }
        }
        match broadcast_values(a, ad, b, bd, times::<T>) {
            None => Err(TorshError::ShapeMismatch { expected: self.shape_vec(), got: other.shape_vec() }),
            Some((values, dims, lhs_map, rhs_map)) => {
                proof {
                    if T::obeys_mul_spec() {
                        let o = broadcast_shape(ad@, bd@);
                        assert forall|f: int| 0 <= f < values@.len() implies #[trigger] values@[f] == (|x: T, y: T| x.mul_spec(y))(
                            a@[source_index(o, ad@, f as nat) as int],
                            b@[source_index(o, bd@, f as nat) as int],
                        ) by {
                            assert(lhs_map@[f] == source_index(o, ad@, f as nat));
                        }
                    }
                }
                proof {
                    assert forall|p: int| 0 <= p < values@.len() implies #[trigger] rhs_map@[p] < b@.len() by {
                        assert(lhs_map@[p] < a@.len());
                    }
                }
                proof {
                    let o = broadcast_shape(ad@, bd@);
                    assert forall|f: int| 0 <= f < shape_numel(o) implies #[trigger] rhs_map@[f] == source_index(
                        o,
                        bd@,
                        f as nat,
                    ) by {
                        assert(lhs_map@[f] == source_index(o, ad@, f as nat));
                    }
                }
                Ok(self.record_arith(other, Arith::Mul, values, dims, lhs_map, rhs_map))
            },
        }
    }
}

impl<T: core::ops::Div<Output = T> + Copy> Tensor<T> {
    /// Element-wise quotient with broadcasting: the shapes are aligned at their
    /// last axes, and an axis of extent 1 is stretched to the extent of the
    /// other operand. Fails with a shape mismatch where the shapes do not
    /// broadcast. The result takes part in differentiation where an operand
    /// does.
    pub fn div(&self, other: &Self) -> (r: Result<Self, TorshError>)
        requires
            broadcast_compatible(self.dims(), other.dims()) ==> shape_numel(
                broadcast_shape(self.dims(), other.dims()),
            ) <= usize::MAX,
            broadcast_compatible(self.dims(), other.dims()) ==> broadcast_pairs(
                self.values(),
                self.dims(),
                other.values(),
                other.dims(),
                |x: T, y: T| x.div_req(y),
            ),
        ensures
            r is Ok <==> broadcast_compatible(self.dims(), other.dims()),
            r matches Err(e) ==> is_shape_mismatch(e, self.dims(), other.dims()),
            r matches Ok(t) ==> t.dims() == broadcast_shape(self.dims(), other.dims()) && t.values().len()
                == shape_numel(t.dims()),
            r matches Ok(t) ==> T::obeys_div_spec() ==> broadcast_combined(
                t.values(),
                self.values(),
                self.dims(),
                other.values(),
                other.dims(),
                |x: T, y: T| x.div_spec(y),
            ),
            r matches Ok(t) ==> (t.tracks_gradient() ==> (self.tracks_gradient()
                || other.tracks_gradient())),
            r matches Ok(t) ==> ((self.tracks_gradient() || other.tracks_gradient())
                && self.graph_depth() < usize::MAX && other.graph_depth() < usize::MAX
                ==> t.tracks_gradient()),
            r matches Ok(t) ==> (t.tracks_gradient() ==> records_broadcast(t, *self, *other) && (
            t.recorded_operation() matches Some(Operation::Div { .. }))),
    {
        let a = self.data_slice();
        let ad = self.dims_slice();
        let b = other.data_slice();
        let bd = other.dims_slice();
        proof {
            if broadcast_compatible(ad@, bd@) {
                let o = broadcast_shape(ad@, bd@);
                assert forall|f: int| 0 <= f < shape_numel(o) implies #[trigger] call_requires(
                    over::<T>,
                    (a@[source_index(o, ad@, f as nat) as int], b@[source_index(o, bd@, f as nat) as int]),
                ) by {
                    assert((|x: T, y: T| x.div_req(y))(
                        a@[source_index(o, ad@, f as nat) as int],
                        b@[source_index(o, bd@, f as nat) as int],
                    ));
                }
            }
        }
        match broadcast_values(a, ad, b, bd, over::<T>) {
            None => Err(TorshError::ShapeMismatch { expected: self.shape_vec(), got: other.shape_vec() }),
            Some((values, dims, lhs_map, rhs_map)) => {
                proof {
                    if T::obeys_div_spec() {
                        let o = broadcast_shape(ad@, bd@);
                        assert forall|f: int| 0 <= f < values@.len() implies #[trigger] values@[f] == (|x: T, y: T| x.div_spec(y))(
                            a@[source_index(o, ad@, f as nat) as int],
                            b@[source_index(o, bd@, f as nat) as int],
                        ) by {
                            assert(lhs_map@[f] == source_index(o, ad@, f as nat));
                        }
                    }
                }
                proof {
                    assert forall|p: int| 0 <= p < values@.len() implies #[trigger] rhs_map@[p] < b@.len() by {
                        assert(lhs_map@[p] < a@.len());
                    }
                }
                proof {
                    let o = broadcast_shape(ad@, bd@);
                    assert forall|f: int| 0 <= f < shape_numel(o) implies #[trigger] rhs_map@[f] == source_index(
                        o,
                        bd@,
                        f as nat,
                    ) by {
                        assert(lhs_map@[f] == source_index(o, ad@, f as nat));
                    }
                }
                Ok(self.record_arith(other, Arith::Div, values, dims, lhs_map, rhs_map))
            },
        }
    }
}

impl<T: core::ops::Add<Output = T> + Copy> Tensor<T> {
    /// Adds a bias tensor, broadcasting it over the leading axes; the same
    /// operation as [`Tensor::add`].
    pub fn add_bias(&self, bias: &Self) -> (r: Result<Self, TorshError>)
        requires
            broadcast_compatible(self.dims(), bias.dims()) ==> shape_numel(
                broadcast_shape(self.dims(), bias.dims()),
            ) <= usize::MAX,
            broadcast_compatible(self.dims(), bias.dims()) ==> broadcast_pairs(
                self.values(),
                self.dims(),
                bias.values(),
                bias.dims(),
                |x: T, y: T| x.add_req(y),
            ),
        ensures
            r is Ok <==> broadcast_compatible(self.dims(), bias.dims()),
            r matches Err(e) ==> is_shape_mismatch(e, self.dims(), bias.dims()),
            r matches Ok(t) ==> t.dims() == broadcast_shape(self.dims(), bias.dims()) && t.values().len()
                == shape_numel(t.dims()),
            r matches Ok(t) ==> T::obeys_add_spec() ==> broadcast_combined(
                t.values(),
                self.values(),
                self.dims(),
                bias.values(),
                bias.dims(),
                |x: T, y: T| x.add_spec(y),
            ),
            r matches Ok(t) ==> (t.tracks_gradient() ==> (self.tracks_gradient()
                || bias.tracks_gradient())),
            r matches Ok(t) ==> ((self.tracks_gradient() || bias.tracks_gradient())
                && self.graph_depth() < usize::MAX && bias.graph_depth() < usize::MAX
                ==> t.tracks_gradient()),
            r matches Ok(t) ==> (t.tracks_gradient() ==> records_broadcast(t, *self, *bias) && (
            t.recorded_operation() matches Some(Operation::Add { .. }))),
    {
        self.add(bias)
    }
}

} // verus!
