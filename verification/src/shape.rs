use vstd::prelude::*;

verus! {

/// Number of elements described by a shape: the product of its extents
/// (a shape with no extents describes a single scalar).
pub open spec fn shape_numel(dims: Seq<usize>) -> nat
    decreases dims.len(),
{
    if dims.len() == 0 {
        1
    } else {
        shape_numel(dims.drop_last()) * (dims.last() as nat)
    }
}

/// A one-axis shape describes as many elements as its single extent.
pub proof fn lemma_numel_single(n: usize)
    ensures
        shape_numel(seq![n]) == n,
{
    let s = seq![n];
    assert(s.drop_last() =~= Seq::<usize>::empty());
    assert(shape_numel(s.drop_last()) == 1);
    assert(s.last() == n);
    assert(shape_numel(s) == shape_numel(s.drop_last()) * (s.last() as nat));
}

/// Some extent of the shape is zero.
pub open spec fn has_zero_extent(dims: Seq<usize>) -> bool {
    exists|i: int| 0 <= i < dims.len() && dims[i] == 0
}

/// A shape with a zero extent describes no elements.
pub proof fn lemma_numel_zero(dims: Seq<usize>)
    requires
        has_zero_extent(dims),
    ensures
        shape_numel(dims) == 0,
    decreases dims.len(),
{
    let i = choose|i: int| 0 <= i < dims.len() && dims[i] == 0;
    let p = shape_numel(dims.drop_last());
    let d = dims.last() as nat;
    if i == dims.len() - 1 {
        assert(d == 0);
        assert(p * d == 0) by (nonlinear_arith)
            requires
                d == 0,
        ;
    } else {
        assert(dims.drop_last()[i] == 0);
        lemma_numel_zero(dims.drop_last());
        assert(p * d == 0) by (nonlinear_arith)
            requires
                p == 0,
        ;
    }
}

/// Without zero extents the product of a prefix never exceeds the product of
/// the whole shape.
pub proof fn lemma_numel_prefix_le(dims: Seq<usize>, k: int)
    requires
        0 <= k <= dims.len(),
        !has_zero_extent(dims),
    ensures
        shape_numel(dims.take(k)) <= shape_numel(dims),
    decreases dims.len() - k,
{
    if k == dims.len() {
        assert(dims.take(k) =~= dims);
    } else {
        lemma_numel_prefix_le(dims, k + 1);
        assert(dims.take(k + 1).drop_last() =~= dims.take(k));
        let p = shape_numel(dims.take(k));
        let d = dims[k] as nat;
        assert(d >= 1);
        assert(p <= p * d) by (nonlinear_arith)
            requires
                d >= 1,
        ;
    }
}

/// Extending a prefix by one extent multiplies its element count by that extent.
pub proof fn lemma_numel_take_step(dims: Seq<usize>, k: int)
    requires
        0 <= k < dims.len(),
    ensures
        shape_numel(dims.take(k + 1)) == shape_numel(dims.take(k)) * (dims[k] as nat),
{
    assert(dims.take(k + 1).drop_last() =~= dims.take(k));
}

/// The number of elements of `dims`, or `None` where it exceeds `usize::MAX`.
pub fn checked_numel(dims: &[usize]) -> (r: Option<usize>)
    ensures
        match r {
            Some(n) => n == shape_numel(dims@),
            None => shape_numel(dims@) > usize::MAX,
        },
{
    let n = dims.len();
    let mut k: usize = 0;
    while k < n
        invariant
            n == dims@.len(),
            k <= n,
            forall|j: int| 0 <= j < k ==> dims@[j] != 0,
        decreases n - k,
    {
        if dims[k] == 0 {
            proof {
                assert(has_zero_extent(dims@));
                lemma_numel_zero(dims@);
            }
            return Some(0);
        }
        k = k + 1;
    }
    assert(!has_zero_extent(dims@));
    let mut acc: usize = 1;
    let mut i: usize = 0;
    assert(dims@.take(0) =~= Seq::<usize>::empty());
    while i < n
        invariant
            n == dims@.len(),
            i <= n,
            !has_zero_extent(dims@),
            acc as nat == shape_numel(dims@.take(i as int)),
        decreases n - i,
    {
        proof {
            lemma_numel_take_step(dims@, i as int);
        }
        match acc.checked_mul(dims[i]) {
            Some(next) => {
                acc = next;
            },
            None => {
                proof {
                    lemma_numel_prefix_le(dims@, i + 1);
                }
                return None;
            },
        }
        i = i + 1;
    }
    assert(dims@.take(n as int) =~= dims@);
    Some(acc)
}

/// Whether two shapes are identical.
pub fn dims_equal(a: &[usize], b: &[usize]) -> (r: bool)
    ensures
        r == (a@ == b@),
{
    if a.len() != b.len() {
        return false;
    }
    let n = a.len();
    let mut i: usize = 0;
    while i < n
        invariant
            n == a@.len(),
            n == b@.len(),
            i <= n,
            forall|j: int| 0 <= j < i ==> a@[j] == b@[j],
        decreases n - i,
    {
        if a[i] != b[i] {
            return false;
        }
        i = i + 1;
    }
    assert(a@ =~= b@);
    true
}

/// Copy of the extents `a[lo..hi]`.
pub fn sub_dims(a: &[usize], lo: usize, hi: usize) -> (r: Vec<usize>)
    requires
        lo <= hi <= a@.len(),
    ensures
        r@ == a@.subrange(lo as int, hi as int),
{
    let mut out: Vec<usize> = Vec::new();
    let mut i: usize = lo;
    while i < hi
        invariant
            lo <= i <= hi,
            hi <= a@.len(),
            out@ == a@.subrange(lo as int, i as int),
        decreases hi - i,
    {
        out.push(a[i]);
        i = i + 1;
        assert(out@ =~= a@.subrange(lo as int, i as int));
    }
    out
}

/// Copy of a shape.
pub fn copy_dims(a: &[usize]) -> (r: Vec<usize>)
    ensures
        r@ == a@,
{
    let mut out: Vec<usize> = Vec::new();
    let n = a.len();
    let mut i: usize = 0;
    while i < n
        invariant
            n == a@.len(),
            i <= n,
            out@ == a@.take(i as int),
        decreases n - i,
    {
        out.push(a[i]);
        i = i + 1;
        assert(out@ =~= a@.take(i as int));
    }
    assert(a@.take(n as int) =~= a@);
    out
}

/// The axis that a possibly negative axis index names in a tensor of rank
/// `rank`: a negative `dim` counts from the end, as in `dim + rank`.
pub open spec fn resolved_dim(dim: int, rank: int) -> int {
    if dim < 0 {
        rank + dim
    } else {
        dim
    }
}

/// Resolves an axis index that may count from the end; `None` where it
/// names no axis of a tensor of rank `rank`.
pub fn normalize_dim(dim: i32, rank: usize) -> (r: Option<usize>)
    ensures
        match r {
            Some(d) => d == resolved_dim(dim as int, rank as int) && d < rank,
            None => !(0 <= resolved_dim(dim as int, rank as int) < rank),
        },
{
    if dim < 0 {
        let back: i64 = -(dim as i64);
        let back: usize = back as usize;
        if back <= rank {
            Some(rank - back)
        } else {
            None
        }
    } else {
        let d: usize = dim as usize;
        if d < rank {
            Some(d)
        } else {
            None
        }
    }
}

} // verus!
