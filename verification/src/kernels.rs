//! Index maps and buffer kernels shared by the tensor operations and by the
//! propagation of gradients.

use vstd::prelude::*;
use vstd::std_specs::ops::{AddSpec, MulSpec};
use vstd::arithmetic::div_mod::{lemma_fundamental_div_mod, lemma_fundamental_div_mod_converse};

use crate::slices::{strided_position, lemma_strided_cover, lemma_strided_decode, lemma_strided_bound};

verus! {

/// Reads `v` at the positions listed in `map`: element `o` of the result is
/// `v[map[o]]`.
pub fn gather<T: Copy>(v: &[T], map: &[usize]) -> (r: Vec<T>)
    requires
        forall|o: int| 0 <= o < map@.len() ==> map@[o] < v@.len(),
    ensures
        r@.len() == map@.len(),
        forall|o: int| 0 <= o < map@.len() ==> #[trigger] r@[o] == v@[map@[o] as int],
{
    let n = map.len();
    let mut out: Vec<T> = Vec::new();
    let mut o: usize = 0;
    while o < n
        invariant
            n == map@.len(),
            o <= n,
            out@.len() == o,
            forall|q: int| 0 <= q < map@.len() ==> map@[q] < v@.len(),
            forall|q: int| 0 <= q < o ==> #[trigger] out@[q] == v@[map@[q] as int],
        decreases n - o,
    {
        out.push(v[map[o]]);
        o = o + 1;
    }
    out
}

/// The result of adding each `g[o]`, for `o < k`, onto position `map[o]` of a
/// buffer of `n` copies of `zero`.
pub open spec fn scatter_sum<T: core::ops::Add<Output = T>>(
    g: Seq<T>,
    map: Seq<usize>,
    zero: T,
    n: nat,
    k: int,
) -> Seq<T>
    decreases k,
{
    if k <= 0 {
        Seq::new(n, |j: int| zero)
    } else {
        let prev = scatter_sum(g, map, zero, n, k - 1);
        let j = map[k - 1] as int;
        prev.update(j, prev[j].add_spec(g[k - 1]))
    }
}

/// The element type's addition never fails.
pub open spec fn addition_total<T: core::ops::Add<Output = T>>() -> bool {
    forall|x: T, y: T| #[trigger] x.add_req(y)
}

/// The element type's multiplication never fails.
pub open spec fn multiplication_total<T: core::ops::Mul<Output = T>>() -> bool {
    forall|x: T, y: T| #[trigger] x.mul_req(y)
}

/// Every addition of a scatter-add of `g` onto `map` can be carried out:
/// the element type's addition never fails, or it follows its specification
/// and each partial sum it forms can be added to.
pub open spec fn scatter_defined<T: core::ops::Add<Output = T>>(
    g: Seq<T>,
    map: Seq<usize>,
    zero: T,
    n: nat,
) -> bool {
    ||| addition_total::<T>()
    ||| T::obeys_add_spec() && forall|o: int|
        0 <= o < g.len() ==> #[trigger] scatter_sum(g, map, zero, n, o)[map[o] as int].add_req(g[o])
}

/// Every product and partial sum of the matrix product of `a` (`m x k`) and
/// `b` (`k x n`), accumulated from `zero`, can be formed: the element type's
/// addition and multiplication never fail, or they follow their
/// specifications and each step of each entry's sum can be carried out.
pub open spec fn matmul_defined<T: core::ops::Add<Output = T> + core::ops::Mul<Output = T>>(
    a: Seq<T>,
    b: Seq<T>,
    zero: T,
    m: int,
    k: int,
    n: int,
) -> bool {
    ||| addition_total::<T>() && multiplication_total::<T>()
    ||| T::obeys_add_spec() && T::obeys_mul_spec() && forall|i: int, j: int, p: int|
        0 <= i < m && 0 <= j < n && 0 <= p < k ==> a[i * k + p].mul_req(b[p * n + j])
            && #[trigger] dot(a, b, zero, k, n, i, j, p).add_req(a[i * k + p].mul_spec(b[p * n + j]))
}

/// Adds each `g[o]` onto position `map[o]` of a buffer of `n` copies of
/// `zero`; positions read several times accumulate.
pub fn scatter_add<T: Copy + core::ops::Add<Output = T>>(
    g: &[T],
    map: &[usize],
    n: usize,
    zero: T,
) -> (r: Vec<T>)
    requires
        map@.len() == g@.len(),
        forall|o: int| 0 <= o < map@.len() ==> map@[o] < n,
        scatter_defined(g@, map@, zero, n as nat),
    ensures
        r@.len() == n,
        T::obeys_add_spec() ==> r@ == scatter_sum(g@, map@, zero, n as nat, g@.len() as int),
{
    let mut out: Vec<T> = Vec::new();
    let mut j: usize = 0;
    while j < n
        invariant
            j <= n,
            out@ == Seq::new(j as nat, |q: int| zero),
        decreases n - j,
    {
        out.push(zero);
        j = j + 1;
        assert(out@ =~= Seq::new(j as nat, |q: int| zero));
    }
    let m = g.len();
    let mut o: usize = 0;
    while o < m
        invariant
            m == g@.len(),
            m == map@.len(),
            o <= m,
            out@.len() == n,
            forall|q: int| 0 <= q < map@.len() ==> map@[q] < n,
            scatter_defined(g@, map@, zero, n as nat),
            T::obeys_add_spec() ==> out@ == scatter_sum(g@, map@, zero, n as nat, o as int),
        decreases m - o,
    {
        let t = map[o];
        let cur = out[t];
        proof {
            if !addition_total::<T>() {
                assert(scatter_sum(g@, map@, zero, n as nat, o as int)[map@[o as int] as int].add_req(
                    g@[o as int],
                ));
            }
        }
        assert(cur.add_req(g@[o as int]));
        let v = cur + g[o];
        out.set(t, v);
        o = o + 1;
    }
    out
}

/// For an axis of extent `e`, between axes spanning `outer` elements before
/// and `inner` after, the positions of the window `start .. start + len`
/// along it: element `(o, d, i)` of the window, at row-major position
/// `strided_position(len, inner, o, i, d)`, lies at
/// `strided_position(e, inner, o, i, start + d)`.
pub fn window_map(outer: usize, e: usize, inner: usize, start: usize, len: usize) -> (r: Vec<usize>)
    requires
        start + len <= e,
        outer * e * inner <= usize::MAX,
    ensures
        r@.len() == outer * len * inner,
        forall|p: int| 0 <= p < r@.len() ==> #[trigger] r@[p] < outer * e * inner,
        forall|o: int, i: int, d: int|
            0 <= o < outer && 0 <= i < inner && 0 <= d < len ==> #[trigger] r@[strided_position(
                len as int,
                inner as int,
                o,
                i,
                d,
            )] == strided_position(e as int, inner as int, o, i, start + d),
{
    proof {
        assert(outer * len * inner <= outer * e * inner) by (nonlinear_arith)
            requires
                len <= e,
        ;
    }
    let mut out: Vec<usize> = Vec::new();
    if len == 0 || inner == 0 {
        proof {
            assert(outer * len * inner == 0) by (nonlinear_arith)
                requires
                    len == 0 || inner == 0,
            ;
        }
        return out;
    }
    proof {
        assert(outer * len <= outer * len * inner) by (nonlinear_arith)
            requires
                inner >= 1,
        ;
    }
    let total = outer * len * inner;
    let mut p: usize = 0;
    while p < total
        invariant
            total == outer * len * inner,
            outer * len * inner <= outer * e * inner,
            outer * e * inner <= usize::MAX,
            start + len <= e,
            len > 0,
            inner > 0,
            p <= total,
            out@.len() == p,
            forall|q: int| 0 <= q < p ==> #[trigger] out@[q] < outer * e * inner,
            forall|q: int|
                0 <= q < p ==> #[trigger] out@[q] == strided_position(
                    e as int,
                    inner as int,
                    (q / (inner as int)) / (len as int),
                    q % (inner as int),
                    start + (q / (inner as int)) % (len as int),
                ),
        decreases total - p,
    {
        proof {
            lemma_strided_cover(len as int, inner as int, outer as int, p as int);
        }
        let a = p / inner;
        let i = p % inner;
        let d = a % len;
        let o = a / len;
        proof {
            lemma_strided_bound(e as int, inner as int, outer as int, o as int, i as int, (start + d) as int);
            assert((o as int) * (e as int) + (start + d) < (outer as int) * (e as int)) by (nonlinear_arith)
                requires
                    o < outer,
                    start + d < e,
            ;
            assert((outer as int) * (e as int) <= (outer as int) * (e as int) * (inner as int)) by (nonlinear_arith)
                requires
                    inner >= 1,
            ;
            assert(((o as int) * (e as int) + (start + d)) * (inner as int) <= ((o as int) * (e as int) + (start + d)) * (inner as int) + i);
        }
        let pos = (o * e + start + d) * inner + i;
        out.push(pos);
        p = p + 1;
    }
    proof {
        assert forall|o: int, i: int, d: int|
            0 <= o < outer && 0 <= i < inner && 0 <= d < len implies #[trigger] out@[strided_position(
                len as int,
                inner as int,
                o,
                i,
                d,
            )] == strided_position(e as int, inner as int, o, i, start + d) by {
            lemma_strided_decode(len as int, inner as int, o, i, d);
            lemma_strided_bound(len as int, inner as int, outer as int, o, i, d);
        }
    }
    out
}

/// Positions of a `rows x cols` matrix read in the order of its transpose:
/// element `(c, r)` of the transpose, at position `c * rows + r`, is element
/// `(r, c)` of the matrix, at position `r * cols + c`.
pub fn transpose_map(rows: usize, cols: usize) -> (r: Vec<usize>)
    requires
        rows * cols <= usize::MAX,
    ensures
        r@.len() == rows * cols,
        forall|p: int| 0 <= p < r@.len() ==> #[trigger] r@[p] < rows * cols,
        forall|rr: int, c: int|
            0 <= rr < rows && 0 <= c < cols ==> #[trigger] r@[c * rows + rr] == rr * cols + c,
{
    let total = rows * cols;
    let mut out: Vec<usize> = Vec::new();
    if rows == 0 || cols == 0 {
        proof {
            assert(rows * cols == 0) by (nonlinear_arith)
                requires
                    rows == 0 || cols == 0,
            ;
        }
        return out;
    }
    let mut p: usize = 0;
    while p < total
        invariant
            total == rows * cols,
            rows > 0,
            cols > 0,
            p <= total,
            out@.len() == p,
            forall|q: int| 0 <= q < p ==> #[trigger] out@[q] < rows * cols,
            forall|q: int|
                0 <= q < p ==> #[trigger] out@[q] == (q % (rows as int)) * (cols as int) + q / (
                rows as int),
        decreases total - p,
    {
        proof {
            assert((cols as int) * 1 * (rows as int) == (rows as int) * (cols as int)) by (nonlinear_arith);
            lemma_strided_cover(1, rows as int, cols as int, p as int);
        }
        let c = p / rows;
        let rr = p % rows;
        proof {
            assert((rr as int) * (cols as int) + (c as int) < (rows as int) * (cols as int)) by (nonlinear_arith)
                requires
                    rr < rows,
                    c < cols,
            ;
        }
        out.push(rr * cols + c);
        p = p + 1;
    }
    proof {
        assert forall|rr: int, c: int| 0 <= rr < rows && 0 <= c < cols implies #[trigger] out@[c
            * rows + rr] == rr * cols + c by {
            lemma_strided_decode(1, rows as int, c, rr, 0);
            lemma_strided_bound(1, rows as int, cols as int, c, rr, 0);
            assert((cols as int) * 1 * (rows as int) == (rows as int) * (cols as int)) by (nonlinear_arith);
            assert(strided_position(1, rows as int, c, rr, 0) == c * rows + rr);
        }
    }
    out
}

/// The sum over `p < upto` of `a[i * k + p] * b[p * n + j]`, accumulated from
/// `zero` in increasing `p`: entry `(i, j)` of the product of the row-major
/// matrices `a` (`k` columns) and `b` (`n` columns), over the first `upto`
/// terms.
pub open spec fn dot<T: core::ops::Add<Output = T> + core::ops::Mul<Output = T>>(
    a: Seq<T>,
    b: Seq<T>,
    zero: T,
    k: int,
    n: int,
    i: int,
    j: int,
    upto: int,
) -> T
    decreases upto,
{
    if upto <= 0 {
        zero
    } else {
        dot(a, b, zero, k, n, i, j, upto - 1).add_spec(
            a[i * k + upto - 1].mul_spec(b[(upto - 1) * n + j]),
        )
    }
}

/// Product of the row-major matrices `a` (`m x k`) and `b` (`k x n`).
pub fn matmul_kernel<T: Copy + core::ops::Add<Output = T> + core::ops::Mul<Output = T>>(
    a: &[T],
    b: &[T],
    m: usize,
    k: usize,
    n: usize,
    zero: T,
) -> (r: Vec<T>)
    requires
        a@.len() == m * k,
        b@.len() == k * n,
        m * n <= usize::MAX,
        matmul_defined(a@, b@, zero, m as int, k as int, n as int),
    ensures
        r@.len() == m * n,
        T::obeys_add_spec() && T::obeys_mul_spec() ==> forall|i: int, j: int|
            0 <= i < m && 0 <= j < n ==> #[trigger] r@[i * n + j] == dot(
                a@,
                b@,
                zero,
                k as int,
                n as int,
                i,
                j,
                k as int,
            ),
{
    let mut out: Vec<T> = Vec::new();
    if m == 0 || n == 0 {
        proof {
            assert(m * n == 0) by (nonlinear_arith)
                requires
                    m == 0 || n == 0,
            ;
        }
        return out;
    }
    let total = m * n;
    let alen = a.len();
    let blen = b.len();
    let mut q: usize = 0;
    while q < total
        invariant
            total == m * n,
            alen == a@.len(),
            blen == b@.len(),
            m > 0,
            n > 0,
            a@.len() == m * k,
            b@.len() == k * n,
            matmul_defined(a@, b@, zero, m as int, k as int, n as int),
            q <= total,
            out@.len() == q,
            T::obeys_add_spec() && T::obeys_mul_spec() ==> forall|x: int|
                0 <= x < q ==> #[trigger] out@[x] == dot(
                    a@,
                    b@,
                    zero,
                    k as int,
                    n as int,
                    x / (n as int),
                    x % (n as int),
                    k as int,
                ),
        decreases total - q,
    {
        proof {
            lemma_fundamental_div_mod(q as int, n as int);
        }
        let i = q / n;
        let j = q % n;
        proof {
            assert(i < m) by (nonlinear_arith)
                requires
                    q < m * n,
                    q == n * i + j,
                    j >= 0,
                    n > 0,
            ;
        }
        let mut acc = zero;
        let mut p: usize = 0;
        while p < k
            invariant
                alen == a@.len(),
                blen == b@.len(),
                i < m,
                j < n,
                a@.len() == m * k,
                b@.len() == k * n,
                matmul_defined(a@, b@, zero, m as int, k as int, n as int),
                p <= k,
                T::obeys_add_spec() && T::obeys_mul_spec() ==> acc == dot(
                    a@,
                    b@,
                    zero,
                    k as int,
                    n as int,
                    i as int,
                    j as int,
                    p as int,
                ),
            decreases k - p,
        {
            proof {
                assert((i as int) * (k as int) + (p as int) < (m as int) * (k as int)) by (nonlinear_arith)
                    requires
                        i < m,
                        p < k,
                ;
                assert((p as int) * (n as int) + (j as int) < (k as int) * (n as int)) by (nonlinear_arith)
                    requires
                        p < k,
                        j < n,
                ;
            }
            let x = a[i * k + p];
            let y = b[p * n + j];
            proof {
                if !(addition_total::<T>() && multiplication_total::<T>()) {
                    assert(dot(a@, b@, zero, k as int, n as int, i as int, j as int, p as int).add_req(
                        a@[i * k + p].mul_spec(b@[p * n + j]),
                    ));
                }
            }
            assert(x.mul_req(y));
            let prod = x * y;
            assert(acc.add_req(prod));
            acc = acc + prod;
            p = p + 1;
        }
        out.push(acc);
        q = q + 1;
    }
    proof {
        if T::obeys_add_spec() && T::obeys_mul_spec() {
        assert forall|i: int, j: int| 0 <= i < m && 0 <= j < n implies #[trigger] out@[i * n + j]
            == dot(a@, b@, zero, k as int, n as int, i, j, k as int) by {
            lemma_fundamental_div_mod_converse(i * n + j, n as int, i, j);
            assert(i * n + j < m * n) by (nonlinear_arith)
                requires
                    0 <= i < m,
                    0 <= j < n,
            ;
        }
        }
    }
    out
}

/// The positions `0 .. n` in order.
pub fn identity_map(n: usize) -> (r: Vec<usize>)
    ensures
        r@.len() == n,
        forall|p: int| 0 <= p < n ==> #[trigger] r@[p] == p,
{
    let mut map: Vec<usize> = Vec::new();
    let mut q: usize = 0;
    while q < n
        invariant
            q <= n,
            map@.len() == q,
            forall|j: int| 0 <= j < q ==> #[trigger] map@[j] == j,
        decreases n - q,
    {
        map.push(q);
        q = q + 1;
    }
    map
}

} // verus!
