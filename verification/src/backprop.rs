//! The gradient rules of the recorded operations: given the gradient of a
//! result, the gradient each input receives. Every rule is exact over the
//! element type's own arithmetic.

use vstd::prelude::*;
use vstd::std_specs::ops::{AddSpec, SubSpec, MulSpec, DivSpec};
use vstd::arithmetic::div_mod::lemma_fundamental_div_mod;

use crate::kernels::{addition_total, multiplication_total, matmul_kernel, matmul_defined, dot, gather, transpose_map};

verus! {

/// The element type's subtraction never fails.
pub open spec fn subtraction_total<T: core::ops::Sub<Output = T>>() -> bool {
    forall|x: T, y: T| #[trigger] x.sub_req(y)
}

/// The element type's division never fails.
pub open spec fn division_total<T: core::ops::Div<Output = T>>() -> bool {
    forall|x: T, y: T| #[trigger] x.div_req(y)
}

/// `zero - g[o]` at every position.
pub open spec fn negated<T: core::ops::Sub<Output = T>>(g: Seq<T>, zero: T) -> Seq<T> {
    Seq::new(g.len(), |o: int| zero.sub_spec(g[o]))
}

/// `g[o] * other[map[o]]` at every position: the gradient of a product with
/// respect to one factor.
pub open spec fn scaled_by<T: core::ops::Mul<Output = T>>(g: Seq<T>, other: Seq<T>, map: Seq<usize>) -> Seq<T> {
    Seq::new(g.len(), |o: int| g[o].mul_spec(other[map[o] as int]))
}

/// `g[o] / den[map[o]]` at every position: the gradient of a quotient with
/// respect to its numerator.
pub open spec fn divided_by<T: core::ops::Div<Output = T>>(g: Seq<T>, den: Seq<T>, map: Seq<usize>) -> Seq<T> {
    Seq::new(g.len(), |o: int| g[o].div_spec(den[map[o] as int]))
}

/// `zero - (g[o] * num[nmap[o]]) / (den[dmap[o]] * den[dmap[o]])` at every
/// position: the gradient of a quotient with respect to its denominator.
pub open spec fn denominator_gradient<T: core::ops::Sub<Output = T> + core::ops::Mul<Output = T> + core::ops::Div<Output = T>>(
    g: Seq<T>,
    num: Seq<T>,
    nmap: Seq<usize>,
    den: Seq<T>,
    dmap: Seq<usize>,
    zero: T,
) -> Seq<T> {
    Seq::new(
        g.len(),
        |o: int|
            zero.sub_spec(
                g[o].mul_spec(num[nmap[o] as int]).div_spec(
                    den[dmap[o] as int].mul_spec(den[dmap[o] as int]),
                ),
            ),
    )
}

/// The `rows x cols` row-major matrix `v` read as its `cols x rows`
/// transpose.
pub open spec fn transposed<T>(v: Seq<T>, rows: int, cols: int) -> Seq<T> {
    Seq::new((rows * cols) as nat, |q: int| v[(q % rows) * cols + q / rows])
}

/// `zero - g[o]` at every position.
pub fn negate<T: Copy + core::ops::Sub<Output = T>>(g: &[T], zero: T) -> (r: Vec<T>)
    requires
        forall|o: int| 0 <= o < g@.len() ==> zero.sub_req(#[trigger] g@[o]),
    ensures
        r@.len() == g@.len(),
        T::obeys_sub_spec() ==> r@ == negated(g@, zero),
{
    let n = g.len();
    let mut out: Vec<T> = Vec::new();
    let mut o: usize = 0;
    while o < n
        invariant
            n == g@.len(),
            o <= n,
            out@.len() == o,
            forall|q: int| 0 <= q < g@.len() ==> zero.sub_req(#[trigger] g@[q]),
            T::obeys_sub_spec() ==> forall|q: int| 0 <= q < o ==> #[trigger] out@[q] == zero.sub_spec(g@[q]),
        decreases n - o,
    {
        assert(zero.sub_req(g@[o as int]));
        out.push(zero - g[o]);
        o = o + 1;
    }
    proof {
        if T::obeys_sub_spec() {
            assert(out@ =~= negated(g@, zero));
        }
    }
    out
}

/// `g[o] * other[map[o]]` at every position.
pub fn scale_by<T: Copy + core::ops::Mul<Output = T>>(g: &[T], other: &[T], map: &[usize]) -> (r: Vec<T>)
    requires
        map@.len() == g@.len(),
        forall|o: int| 0 <= o < map@.len() ==> #[trigger] map@[o] < other@.len(),
        forall|o: int| 0 <= o < g@.len() ==> (#[trigger] g@[o]).mul_req(other@[map@[o] as int]),
    ensures
        r@.len() == g@.len(),
        T::obeys_mul_spec() ==> r@ == scaled_by(g@, other@, map@),
{
    let n = g.len();
    let mut out: Vec<T> = Vec::new();
    let mut o: usize = 0;
    while o < n
        invariant
            n == g@.len(),
            n == map@.len(),
            o <= n,
            out@.len() == o,
            forall|q: int| 0 <= q < map@.len() ==> #[trigger] map@[q] < other@.len(),
            forall|q: int| 0 <= q < g@.len() ==> (#[trigger] g@[q]).mul_req(other@[map@[q] as int]),
            T::obeys_mul_spec() ==> forall|q: int|
                0 <= q < o ==> #[trigger] out@[q] == g@[q].mul_spec(other@[map@[q] as int]),
        decreases n - o,
    {
        let x = other[map[o]];
        assert(g@[o as int].mul_req(x));
        out.push(g[o] * x);
        o = o + 1;
    }
    proof {
        if T::obeys_mul_spec() {
            assert(out@ =~= scaled_by(g@, other@, map@));
        }
    }
    out
}

/// `g[o] / den[map[o]]` at every position.
pub fn divide_by<T: Copy + core::ops::Div<Output = T>>(g: &[T], den: &[T], map: &[usize]) -> (r: Vec<T>)
    requires
        map@.len() == g@.len(),
        forall|o: int| 0 <= o < map@.len() ==> #[trigger] map@[o] < den@.len(),
        forall|o: int| 0 <= o < g@.len() ==> (#[trigger] g@[o]).div_req(den@[map@[o] as int]),
    ensures
        r@.len() == g@.len(),
        T::obeys_div_spec() ==> r@ == divided_by(g@, den@, map@),
{
    let n = g.len();
    let mut out: Vec<T> = Vec::new();
    let mut o: usize = 0;
    while o < n
        invariant
            n == g@.len(),
            n == map@.len(),
            o <= n,
            out@.len() == o,
            forall|q: int| 0 <= q < map@.len() ==> #[trigger] map@[q] < den@.len(),
            forall|q: int| 0 <= q < g@.len() ==> (#[trigger] g@[q]).div_req(den@[map@[q] as int]),
            T::obeys_div_spec() ==> forall|q: int|
                0 <= q < o ==> #[trigger] out@[q] == g@[q].div_spec(den@[map@[q] as int]),
        decreases n - o,
    {
        let x = den[map[o]];
        assert(g@[o as int].div_req(x));
        out.push(g[o] / x);
        o = o + 1;
    }
    proof {
        if T::obeys_div_spec() {
            assert(out@ =~= divided_by(g@, den@, map@));
        }
    }
    out
}

/// Each operation of [`denominator_rule`] at position `o`, over the
/// specified results of the ones before it, can be carried out.
pub open spec fn denominator_step_defined<T: core::ops::Sub<Output = T> + core::ops::Mul<Output = T> + core::ops::Div<Output = T>>(
    g: Seq<T>,
    num: Seq<T>,
    nmap: Seq<usize>,
    den: Seq<T>,
    dmap: Seq<usize>,
    zero: T,
    o: int,
) -> bool {
    let x = num[nmap[o] as int];
    let d = den[dmap[o] as int];
    &&& g[o].mul_req(x)
    &&& d.mul_req(d)
    &&& g[o].mul_spec(x).div_req(d.mul_spec(d))
    &&& zero.sub_req(g[o].mul_spec(x).div_spec(d.mul_spec(d)))
}

/// Every operation of [`denominator_rule`] can be carried out: the element
/// type's subtraction, multiplication and division never fail, or they
/// follow their specifications and each step can be carried out.
pub open spec fn denominator_rule_defined<T: core::ops::Sub<Output = T> + core::ops::Mul<Output = T> + core::ops::Div<Output = T>>(
    g: Seq<T>,
    num: Seq<T>,
    nmap: Seq<usize>,
    den: Seq<T>,
    dmap: Seq<usize>,
    zero: T,
) -> bool {
    ||| subtraction_total::<T>() && multiplication_total::<T>() && division_total::<T>()
    ||| T::obeys_sub_spec() && T::obeys_mul_spec() && T::obeys_div_spec() && forall|o: int|
        0 <= o < g.len() ==> #[trigger] denominator_step_defined(g, num, nmap, den, dmap, zero, o)
}

/// The gradient of a quotient with respect to its denominator:
/// `zero - (g[o] * num[nmap[o]]) / (den[dmap[o]] * den[dmap[o]])`.
pub fn denominator_rule<T: Copy + core::ops::Sub<Output = T> + core::ops::Mul<Output = T> + core::ops::Div<Output = T>>(
    g: &[T],
    num: &[T],
    nmap: &[usize],
    den: &[T],
    dmap: &[usize],
    zero: T,
) -> (r: Vec<T>)
    requires
        nmap@.len() == g@.len(),
        dmap@.len() == g@.len(),
        forall|o: int| 0 <= o < nmap@.len() ==> #[trigger] nmap@[o] < num@.len(),
        forall|o: int| 0 <= o < dmap@.len() ==> #[trigger] dmap@[o] < den@.len(),
        denominator_rule_defined(g@, num@, nmap@, den@, dmap@, zero),
    ensures
        r@.len() == g@.len(),
        T::obeys_sub_spec() && T::obeys_mul_spec() && T::obeys_div_spec() ==> r@ == denominator_gradient(
            g@,
            num@,
            nmap@,
            den@,
            dmap@,
            zero,
        ),
{
    let n = g.len();
    let mut out: Vec<T> = Vec::new();
    let mut o: usize = 0;
    while o < n
        invariant
            n == g@.len(),
            n == nmap@.len(),
            n == dmap@.len(),
            o <= n,
            out@.len() == o,
            forall|q: int| 0 <= q < nmap@.len() ==> #[trigger] nmap@[q] < num@.len(),
            forall|q: int| 0 <= q < dmap@.len() ==> #[trigger] dmap@[q] < den@.len(),
            denominator_rule_defined(g@, num@, nmap@, den@, dmap@, zero),
            T::obeys_sub_spec() && T::obeys_mul_spec() && T::obeys_div_spec() ==> forall|q: int|
                0 <= q < o ==> #[trigger] out@[q] == zero.sub_spec(
                    g@[q].mul_spec(num@[nmap@[q] as int]).div_spec(
                        den@[dmap@[q] as int].mul_spec(den@[dmap@[q] as int]),
                    ),
                ),
        decreases n - o,
    {
        let x = num[nmap[o]];
        let d = den[dmap[o]];
        proof {
            if !(subtraction_total::<T>() && multiplication_total::<T>() && division_total::<T>()) {
                assert(denominator_step_defined(g@, num@, nmap@, den@, dmap@, zero, o as int));
            }
        }
        assert(g@[o as int].mul_req(x));
        let top = g[o] * x;
        assert(d.mul_req(d));
        let square = d * d;
        assert(top.div_req(square));
        let q = top / square;
        assert(zero.sub_req(q));
        out.push(zero - q);
        o = o + 1;
    }
    proof {
        if T::obeys_sub_spec() && T::obeys_mul_spec() && T::obeys_div_spec() {
            assert(out@ =~= denominator_gradient(g@, num@, nmap@, den@, dmap@, zero));
        }
    }
    out
}

/// `count` copies of `value`: the gradient every element of a summed tensor
/// receives.
pub fn fill<T: Copy>(value: T, count: usize) -> (r: Vec<T>)
    ensures
        r@ == Seq::new(count as nat, |j: int| value),
{
    let mut out: Vec<T> = Vec::new();
    let mut j: usize = 0;
    while j < count
        invariant
            j <= count,
            out@ == Seq::new(j as nat, |q: int| value),
        decreases count - j,
    {
        out.push(value);
        j = j + 1;
        assert(out@ =~= Seq::new(j as nat, |q: int| value));
    }
    out
}

/// The `rows x cols` row-major matrix `v` rewritten as its `cols x rows`
/// transpose.
pub fn transpose<T: Copy>(v: &[T], rows: usize, cols: usize) -> (r: Vec<T>)
    requires
        v@.len() == rows * cols,
    ensures
        r@ == transposed(v@, rows as int, cols as int),
{
    let len = v.len();
    let map = transpose_map(rows, cols);
    let out = gather(v, map.as_slice());
    proof {
        assert forall|q: int| 0 <= q < rows * cols implies #[trigger] out@[q] == v@[(q % (rows as int)) * (
        cols as int) + q / (rows as int)] by {
            let rr = q % (rows as int);
            let c = q / (rows as int);
            assert(rows > 0) by (nonlinear_arith)
                requires
                    0 <= q < rows * cols,
            ;
            lemma_fundamental_div_mod(q, rows as int);
            assert(q == c * rows + rr) by (nonlinear_arith)
                requires
                    q == (rows as int) * c + rr,
            ;
            assert(0 <= c < cols) by (nonlinear_arith)
                requires
                    0 <= q < rows * cols,
                    q == c * rows + rr,
                    0 <= rr < rows,
            ;
            assert(out@[c * rows + rr] == v@[rr * cols + c]);
        }
        assert(out@ =~= transposed(v@, rows as int, cols as int));
    }
    out
}

/// The gradients of a matrix product `a x b` (`m x k` by `k x n`) with
/// respect to its operands, given the gradient `g` (`m x n`) of the
/// product: `g x b^T` for `a` and `a^T x g` for `b`.
pub fn matmul_gradients<T: Copy + core::ops::Add<Output = T> + core::ops::Mul<Output = T>>(
    a: &[T],
    b: &[T],
    g: &[T],
    m: usize,
    k: usize,
    n: usize,
    zero: T,
) -> (r: (Vec<T>, Vec<T>))
    requires
        a@.len() == m * k,
        b@.len() == k * n,
        g@.len() == m * n,
        matmul_defined(g@, transposed(b@, k as int, n as int), zero, m as int, n as int, k as int),
        matmul_defined(transposed(a@, m as int, k as int), g@, zero, k as int, m as int, n as int),
    ensures
        r.0@.len() == m * k,
        r.1@.len() == k * n,
        T::obeys_add_spec() && T::obeys_mul_spec() ==> forall|i: int, p: int|
            0 <= i < m && 0 <= p < k ==> #[trigger] r.0@[i * k + p] == dot(
                g@,
                transposed(b@, k as int, n as int),
                zero,
                n as int,
                k as int,
                i,
                p,
                n as int,
            ),
        T::obeys_add_spec() && T::obeys_mul_spec() ==> forall|p: int, j: int|
            0 <= p < k && 0 <= j < n ==> #[trigger] r.1@[p * n + j] == dot(
                transposed(a@, m as int, k as int),
                g@,
                zero,
                m as int,
                n as int,
                p,
                j,
                m as int,
            ),
{
    let la = a.len();
    let lb = b.len();
    let bt = transpose(b, k, n);
    let at = transpose(a, m, k);
    proof {
        assert(n * k == k * n) by (nonlinear_arith);
        assert(k * m == m * k) by (nonlinear_arith);
    }
    let da = matmul_kernel(g, bt.as_slice(), m, n, k, zero);
    let db = matmul_kernel(at.as_slice(), g, k, m, n, zero);
    (da, db)
}

} // verus!
