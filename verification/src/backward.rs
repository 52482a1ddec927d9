//! Reverse-mode differentiation: seeding a result with a gradient and
//! carrying it back, operation by operation, to every tensor the result was
//! computed from.
//!
//! [`trace_gradients`] walks the graph once: a depth-first pass lists every
//! node the result depends on after the nodes it was computed from, the
//! result last, and matches every input of every listed node with the
//! position of its node; a node already listed is recognised by its mark,
//! which names its position. The gradient of every listed node is then
//! computed by `gradients::propagate_gradients`, whose result is exactly
//! `gradients::gradient_at`. Gradients of tensors created directly (leaves)
//! are added to what they hold and accumulate over backward passes; those
//! of computed tensors are used up.

use vstd::prelude::*;
use vstd::std_specs::ops::AddSpec;
use std::rc::Rc;

use crate::activation::produce;
use crate::backprop::{subtraction_total, division_total};
use crate::error::{TorshError, is_invalid_operation, is_shape_mismatch};
use crate::graph::{Node, Operation, GradientLength, share, same_allocation, node_ok, feeds, reaches};
use crate::gradients::{
    slot_count, slot_operand, slot_count_of, slot_operand_of, edges_complete, used_at, slot_operand_ok,
    lemma_slot_feeds, propagate_gradients, arithmetic_total, arithmetic_specified, held, gradient_at,
    law_listed_nodes_cover_what_the_result_depends_on, law_every_listed_node_receives_a_gradient,
};
use crate::kernels::{addition_total, multiplication_total};
use crate::shape::dims_equal;
use crate::tensor::{Tensor, copy_values};

verus! {

/// `a[j] + b[j]` at every position.
pub open spec fn summed<T: core::ops::Add<Output = T>>(a: Seq<T>, b: Seq<T>) -> Seq<T> {
    Seq::new(a.len(), |j: int| a[j].add_spec(b[j]))
}

/// Element-wise sum of two buffers of the same length.
pub fn add_buffers<T: Copy + core::ops::Add<Output = T>>(a: &[T], b: &[T]) -> (r: Vec<T>)
    requires
        a@.len() == b@.len(),
        forall|j: int| 0 <= j < a@.len() ==> (#[trigger] a@[j]).add_req(b@[j]),
    ensures
        r@.len() == a@.len(),
        T::obeys_add_spec() ==> r@ == summed(a@, b@),
{
    let n = a.len();
    let mut out: Vec<T> = Vec::new();
    let mut j: usize = 0;
    while j < n
        invariant
            n == a@.len(),
            n == b@.len(),
            j <= n,
            out@.len() == j,
            forall|q: int| 0 <= q < a@.len() ==> (#[trigger] a@[q]).add_req(b@[q]),
            T::obeys_add_spec() ==> forall|q: int| 0 <= q < j ==> #[trigger] out@[q] == a@[q].add_spec(b@[q]),
        decreases n - j,
    {
        assert(a@[j as int].add_req(b@[j as int]));
        out.push(a[j] + b[j]);
        j = j + 1;
    }
    proof {
        if T::obeys_add_spec() {
            assert(out@ =~= summed(a@, b@));
        }
    }
    out
}

/// Adds `part` onto the gradient accumulated at `target` (or stores it
/// where none is yet).
fn accumulate<T: Copy + core::ops::Add<Output = T>>(target: &Node<T>, part: Vec<T>)
    requires
        target.grad.predicate() == (GradientLength { len: target.numel }),
        part@.len() == target.numel,
        addition_total::<T>(),
{
    let current = target.grad.replace(None);
    let next = match current {
        None => part,
        Some(c) => add_buffers(c.as_slice(), part.as_slice()),
    };
    let _ = target.grad.replace(Some(next));
}

/// Extending a list whose new entries all come from `n` with entries that
/// come from an input `m` of `n` keeps the list's start and adds only
/// entries that come from `n`.
proof fn lemma_extended<T>(
    n: &Node<T>,
    m: &Node<T>,
    start: Seq<Rc<Node<T>>>,
    before: Seq<Rc<Node<T>>>,
    after: Seq<Rc<Node<T>>>,
)
    requires
        before.len() >= start.len(),
        before.take(start.len() as int) == start,
        forall|j: int| start.len() <= j < before.len() ==> reaches(*n, *#[trigger] before[j]),
        after.len() >= before.len(),
        after.take(before.len() as int) == before,
        forall|j: int| before.len() <= j < after.len() ==> reaches(*m, *#[trigger] after[j]),
        feeds(n.op, *m),
        m.depth < n.depth,
    ensures
        after.len() >= start.len(),
        after.take(start.len() as int) == start,
        forall|j: int| start.len() <= j < after.len() ==> reaches(*n, *#[trigger] after[j]),
{
    assert(after.take(start.len() as int) =~= start) by {
        assert forall|j: int| 0 <= j < start.len() implies after[j] == start[j] by {
            assert(after.take(before.len() as int)[j] == after[j]);
            assert(before.take(start.len() as int)[j] == before[j]);
        }
    }
    assert forall|j: int| start.len() <= j < after.len() implies reaches(*n, *#[trigger] after[j]) by {
        if j < before.len() {
            assert(after.take(before.len() as int)[j] == after[j]);
        } else {
            assert(reaches(*m, *after[j]));
        }
    }
}

/// `j` is named by one of the first `s` entries of `row`.
spec fn named_in(row: Seq<Option<usize>>, s: int, j: int) -> bool {
    exists|t: int| 0 <= t < s && #[trigger] row[t] == Some(j as usize)
}

/// Lists every node reachable from `n` that is not listed yet, each after
/// the nodes it was computed from and together with the positions of the
/// nodes behind its inputs, and returns the position of `n`. Where `n`'s
/// mark names a position that holds `n`, nothing is listed; otherwise `n`
/// is listed last, and every other node listed here is behind an input of
/// a node listed after it.
fn collect<T>(n: &Rc<Node<T>>, order: &mut Vec<Rc<Node<T>>>, edges: &mut Vec<Vec<Option<usize>>>) -> (pos: usize)
    requires
        node_ok(**n),
        forall|j: int| 0 <= j < old(order)@.len() ==> node_ok(*#[trigger] old(order)@[j]),
        old(edges)@.len() == old(order)@.len(),
        edges_complete(old(order)@, old(edges)@),
    ensures
        forall|j: int| 0 <= j < final(order)@.len() ==> node_ok(*#[trigger] final(order)@[j]),
        final(edges)@.len() == final(order)@.len(),
        edges_complete(final(order)@, final(edges)@),
        final(order)@.len() >= old(order)@.len(),
        final(order)@.take(old(order)@.len() as int) == old(order)@,
        final(edges)@.take(old(order)@.len() as int) == old(edges)@,
        forall|j: int|
            old(order)@.len() <= j < final(order)@.len() ==> reaches(**n, *#[trigger] final(order)@[j]),
        pos < final(order)@.len(),
        *final(order)@[pos as int] == **n,
        pos < old(order)@.len() ==> final(order)@ == old(order)@ && final(edges)@ == old(edges)@,
        pos >= old(order)@.len() ==> pos == final(order)@.len() - 1,
        forall|j: int|
            old(order)@.len() <= j < final(order)@.len() - 1 ==> #[trigger] used_at(
                final(edges)@,
                final(order)@.len() as int,
                j,
            ),
    decreases n.depth,
{
    let ghost start = order@;
    let ghost start_edges = edges@;
    match n.mark.get() {
        Some(j) => {
            if j < order.len() && same_allocation(&order[j], n) {
                proof {
                    assert(order@.take(start.len() as int) =~= start);
                    assert(edges@.take(start.len() as int) =~= start_edges);
                }
                return j;
            }
        },
        None => {},
    }
    let depth = n.depth;
    let slots = slot_count_of(&n.op);
    let mut row: Vec<Option<usize>> = Vec::new();
    let mut s: usize = 0;
    proof {
        assert(order@.take(start.len() as int) =~= start);
        assert(edges@.take(start.len() as int) =~= start_edges);
    }
    while s < slots
        invariant
            node_ok(**n),
            depth == n.depth,
            slots == slot_count(n.op),
            s <= slots,
            row@.len() == s,
            forall|j: int| 0 <= j < order@.len() ==> node_ok(*#[trigger] order@[j]),
            edges@.len() == order@.len(),
            edges_complete(order@, edges@),
            order@.len() >= start.len(),
            order@.take(start.len() as int) == start,
            edges@.take(start.len() as int) == start_edges,
            forall|j: int| start.len() <= j < order@.len() ==> reaches(**n, *#[trigger] order@[j]),
            forall|t: int|
                0 <= t < s ==> match #[trigger] row@[t] {
                    Some(j) => j < order@.len() && (slot_operand(n.op, t).node matches Some(m) && *m
                        == *order@[j as int]),
                    None => slot_operand(n.op, t).node is None,
                },
            forall|j: int|
                start.len() <= j < order@.len() ==> #[trigger] used_at(edges@, order@.len() as int, j)
                    || named_in(row@, s as int, j),
        decreases slots - s,
    {
        let a = slot_operand_of(&n.op, s);
        proof {
            slot_operand_ok(&**n, s as int);
        }
        match &a.node {
            Some(m) => {
                let ghost before = order@;
                let ghost before_edges = edges@;
                let ghost row_before = row@;
                let p = collect(m, order, edges);
                proof {
                    lemma_slot_feeds(&n.op, s as int, &**m);
                    lemma_extended(&**n, &**m, start, before, order@);
                    assert forall|j: int| 0 <= j < before.len() implies order@[j] == before[j] by {
                        assert(order@.take(before.len() as int)[j] == order@[j]);
                    }
                    assert forall|q: int| 0 <= q < before.len() implies edges@[q] == before_edges[q] by {
                        assert(edges@.take(before.len() as int)[q] == edges@[q]);
                    }
                    assert(edges@.take(start.len() as int) =~= start_edges) by {
                        assert forall|q: int| 0 <= q < start.len() implies edges@[q] == start_edges[q] by {
                            assert(before_edges.take(start.len() as int)[q] == before_edges[q]);
                        }
                    }
                }
                row.push(Some(p));
                proof {
                    assert forall|t: int| 0 <= t < s + 1 implies match #[trigger] row@[t] {
                        Some(j) => j < order@.len() && (slot_operand(n.op, t).node matches Some(mm)
                            && *mm == *order@[j as int]),
                        None => slot_operand(n.op, t).node is None,
                    } by {
                        if t < s {
                            assert(row@[t] == row_before[t]);
                        }
                    }
                    assert forall|j: int|
                        start.len() <= j < order@.len() implies #[trigger] used_at(
                        edges@,
                        order@.len() as int,
                        j,
                    ) || named_in(row@, s + 1, j) by {
                        if j < before.len() {
                            if used_at(before_edges, before.len() as int, j) {
                                let (c, t) = choose|c: int, t: int|
                                    #![trigger before_edges[c]@[t]]
                                    j < c < before.len() && 0 <= t < before_edges[c]@.len()
                                        && before_edges[c]@[t] == Some(j as usize);
                                assert(edges@[c] == before_edges[c]);
                                assert(edges@[c]@[t] == Some(j as usize));
                            } else {
                                assert(named_in(row_before, s as int, j));
                                let t = choose|t: int| 0 <= t < s && #[trigger] row_before[t] == Some(j as usize);
                                assert(row@[t] == Some(j as usize));
                            }
                        } else if j < order@.len() - 1 {
                            assert(used_at(edges@, order@.len() as int, j));
                        } else {
                            assert(row@[s as int] == Some(j as usize));
                        }
                    }
                }
            },
            None => {
                let ghost row_before = row@;
                row.push(None);
                proof {
                    assert forall|t: int| 0 <= t < s + 1 implies match #[trigger] row@[t] {
                        Some(j) => j < order@.len() && (slot_operand(n.op, t).node matches Some(mm)
                            && *mm == *order@[j as int]),
                        None => slot_operand(n.op, t).node is None,
                    } by {
                        if t < s {
                            assert(row@[t] == row_before[t]);
                        }
                    }
                    assert forall|j: int|
                        start.len() <= j < order@.len() implies #[trigger] used_at(
                        edges@,
                        order@.len() as int,
                        j,
                    ) || named_in(row@, s + 1, j) by {
                        if !used_at(edges@, order@.len() as int, j) {
                            assert(named_in(row_before, s as int, j));
                            let t = choose|t: int| 0 <= t < s && #[trigger] row_before[t] == Some(j as usize);
                            assert(row@[t] == Some(j as usize));
                        }
                    }
                }
            },
        }
        s = s + 1;
    }
    let ghost before = order@;
    let ghost before_edges = edges@;
    let c = order.len();
    order.push(share(n));
    edges.push(row);
    n.mark.set(Some(c));
    proof {
        assert(order@.take(before.len() as int) =~= before);
        assert(edges@.take(before.len() as int) =~= before_edges);
        assert forall|j: int| 0 <= j < before.len() implies order@[j] == before[j] by {
            assert(order@.take(before.len() as int)[j] == order@[j]);
        }
        assert(order@.take(start.len() as int) =~= start) by {
            assert forall|j: int| 0 <= j < start.len() implies order@[j] == start[j] by {
                assert(before.take(start.len() as int)[j] == before[j]);
            }
        }
        assert(edges@.take(start.len() as int) =~= start_edges) by {
            assert forall|q: int| 0 <= q < start.len() implies edges@[q] == start_edges[q] by {
                assert(before_edges.take(start.len() as int)[q] == before_edges[q]);
            }
        }
        assert(reaches(**n, *order@.last()));
        assert(edges_complete(order@, edges@)) by {
            assert forall|q: int| 0 <= q < order@.len() implies (#[trigger] edges@[q])@.len() == slot_count(
                order@[q].op,
            ) by {
                if q < c {
                    assert(edges@[q] == before_edges[q]);
                }
            }
            assert forall|q: int, t: int| 0 <= q < order@.len() && 0 <= t < edges@[q]@.len() implies match #[trigger] edges@[q]@[t] {
                Some(j) => j < q && (slot_operand(order@[q].op, t).node matches Some(mm) && *mm
                    == *order@[j as int]),
                None => true,
            } && ((edges@[q]@[t] is Some) <==> slot_operand(order@[q].op, t).node is Some) by {
                if q < c {
                    assert(edges@[q] == before_edges[q]);
                    assert(before_edges[q]@[t] == edges@[q]@[t]);
                } else {
                    assert(edges@[q]@ == row@);
                    assert(row@[t] == edges@[q]@[t]);
                }
            }
        }
        assert forall|j: int| start.len() <= j < order@.len() - 1 implies #[trigger] used_at(
            edges@,
            order@.len() as int,
            j,
        ) by {
            if used_at(before_edges, before.len() as int, j) {
                let (q, t) = choose|q: int, t: int|
                    #![trigger before_edges[q]@[t]]
                    j < q < before.len() && 0 <= t < before_edges[q]@.len()
                        && before_edges[q]@[t] == Some(j as usize);
                assert(edges@[q] == before_edges[q]);
                assert(edges@[q]@[t] == Some(j as usize));
            } else {
                assert(named_in(row@, slots as int, j));
                let t = choose|t: int| 0 <= t < slots && #[trigger] row@[t] == Some(j as usize);
                assert(edges@[c as int]@[t] == Some(j as usize));
            }
        }
    }
    c
}

/// The nodes `root` was computed from, each listed after the nodes it was
/// computed from and `root` last, the positions of the nodes behind the
/// inputs of each, and the gradient of each once `root` is seeded with
/// `seed`: exactly [`gradient_at`] for element types whose arithmetic
/// follows its specification. Every node `root` depends on is listed, every
/// listed node is one `root` depends on, and every listed node receives a
/// gradient.
pub fn trace_gradients<
    T: Copy + core::ops::Add<Output = T> + core::ops::Sub<Output = T> + core::ops::Mul<Output = T>
        + core::ops::Div<Output = T>,
>(root: &Rc<Node<T>>, seed: Vec<T>, zero: T) -> (r: (
    Vec<Rc<Node<T>>>,
    Vec<Vec<Option<usize>>>,
    Vec<Option<Vec<T>>>,
))
    requires
        node_ok(**root),
        seed@.len() == root.numel,
        arithmetic_total::<T>(),
    ensures
        r.0@.len() > 0,
        *r.0@.last() == **root,
        forall|j: int| 0 <= j < r.0@.len() ==> node_ok(*#[trigger] r.0@[j]),
        edges_complete(r.0@, r.1@),
        forall|j: int| 0 <= j < r.0@.len() - 1 ==> #[trigger] used_at(r.1@, r.0@.len() as int, j),
        forall|j: int| 0 <= j < r.0@.len() ==> reaches(**root, *#[trigger] r.0@[j]),
        forall|x: Node<T>| #[trigger] reaches(**root, x) ==> exists|j: int| 0 <= j < r.0@.len() && *#[trigger] r.0@[j] == x,
        r.2@.len() == r.0@.len(),
        forall|k: int| 0 <= k < r.2@.len() ==> ((#[trigger] r.2@[k]) matches Some(v) ==> v@.len() == r.0@[k].numel),
        arithmetic_specified::<T>() ==> forall|k: int|
            0 <= k < r.2@.len() ==> held(#[trigger] r.2@[k]) == gradient_at(r.0@, r.1@, seed@, zero, k),
        forall|k: int| 0 <= k < r.2@.len() ==> (#[trigger] gradient_at(r.0@, r.1@, seed@, zero, k)) is Some,
{
    let mut order: Vec<Rc<Node<T>>> = Vec::new();
    let mut edges: Vec<Vec<Option<usize>>> = Vec::new();
    proof {
        assert(edges_complete(order@, edges@));
    }
    let _ = collect(root, &mut order, &mut edges);
    let ghost sd = seed@;
    let grads = propagate_gradients(&order, &edges, seed, zero);
    let count = order.len();
    let mut k: usize = 0;
    while k < count
        invariant
            count == order@.len(),
            k <= count,
        decreases count - k,
    {
        order[k].mark.set(None);
        k = k + 1;
    }
    proof {
        assert(order@.len() <= usize::MAX);
        assert forall|x: Node<T>| #[trigger] reaches(**root, x) implies exists|j: int|
            0 <= j < order@.len() && *#[trigger] order@[j] == x by {
            law_listed_nodes_cover_what_the_result_depends_on(order@, edges@, x);
        }
        assert forall|q: int| 0 <= q < grads@.len() implies (#[trigger] gradient_at(order@, edges@, sd, zero, q)) is Some by {
            law_every_listed_node_receives_a_gradient(order@, edges@, sd, zero, q);
        }
    }
    (order, edges, grads)
}

impl<
    T: Copy + Default + From<u8> + core::ops::Add<Output = T> + core::ops::Sub<Output = T>
        + core::ops::Mul<Output = T> + core::ops::Div<Output = T>,
> Tensor<T> {
    /// Back-propagates from this tensor, seeded with `grad` (which must have
    /// this tensor's shape) or, where `grad` is `None`, with one (only for a
    /// tensor of one element). Every tensor this one was computed from that
    /// takes part in differentiation receives the gradient of this tensor
    /// with respect to it, added to the gradient it already holds.
    ///
    /// Fails, without writing any gradient, on a tensor that takes no part
    /// in differentiation (invalid operation), on a seed of another shape
    /// (shape mismatch, reporting this tensor's and the seed's extents), and
    /// on a missing seed for a tensor of more than one element (invalid
    /// operation).
    pub fn backward_with_grad(&self, grad: Option<&Tensor<T>>) -> (r: Result<(), TorshError>)
        requires
            addition_total::<T>(),
            subtraction_total::<T>(),
            multiplication_total::<T>(),
            division_total::<T>(),
        ensures
            r is Ok <==> (self.tracks_gradient() && match grad {
                Some(g) => g.dims() == self.dims(),
                None => self.values().len() == 1,
            }),
            !self.tracks_gradient() ==> (r matches Err(e) && is_invalid_operation(e)),
            self.tracks_gradient() ==> match grad {
                Some(g) => g.dims() != self.dims() ==> (r matches Err(e) && is_shape_mismatch(
                    e,
                    self.dims(),
                    g.dims(),
                )),
                None => self.values().len() != 1 ==> (r matches Err(e) && is_invalid_operation(e)),
            },
    {
        let root = match self.node_handle() {
            Some(n) => n,
            None => {
                return Err(
                    TorshError::InvalidOperation(
                        String::from_str("backward requires a tensor that requires grad"),
                    ),
                );
            },
        };
        let seed: Vec<T> = match grad {
            Some(g) => {
                if !dims_equal(self.dims_slice(), g.dims_slice()) {
                    return Err(
                        TorshError::ShapeMismatch { expected: self.shape_vec(), got: g.shape_vec() },
                    );
                }
                let _ = g.numel();
                let _ = self.numel();
                copy_values(g.data_slice())
            },
            None => {
                if self.numel() != 1 {
                    return Err(
                        TorshError::InvalidOperation(
                            String::from_str(
                                "backward() only accepts scalar outputs; pass a gradient to backward_with_grad",
                            ),
                        ),
                    );
                }
                let one = T::from(1u8);
                let mut v: Vec<T> = Vec::new();
                v.push(one);
                v
            },
        };
        let zero = produce(T::default);
        let (order, _edges, grads) = trace_gradients(&root, seed, zero);
        let count = order.len();
        let mut k: usize = 0;
        while k < count
            invariant
                count == order@.len(),
                count == grads@.len(),
                k <= count,
                forall|j: int| 0 <= j < order@.len() ==> node_ok(*#[trigger] order@[j]),
                forall|j: int| 0 <= j < grads@.len() ==> ((#[trigger] grads@[j]) matches Some(v) ==> v@.len() == order@[j].numel),
                addition_total::<T>(),
            decreases count - k,
        {
            let node = &order[k];
            proof {
                assert(node_ok(**node));
            }
            if is_leaf(node) {
                match &grads[k] {
                    Some(g) => accumulate(node, copy_values(g.as_slice())),
                    None => {},
                }
            } else {
                let _ = node.grad.replace(None);
            }
            k = k + 1;
        }
        Ok(())
    }

    /// Back-propagates from this tensor, which must hold one element, seeded
    /// with one; [`Tensor::backward_with_grad`] without a seed.
    pub fn backward(&self) -> (r: Result<(), TorshError>)
        requires
            addition_total::<T>(),
            subtraction_total::<T>(),
            multiplication_total::<T>(),
            division_total::<T>(),
        ensures
            r is Ok <==> (self.tracks_gradient() && self.values().len() == 1),
            !self.tracks_gradient() ==> (r matches Err(e) && is_invalid_operation(e)),
            self.tracks_gradient() && self.values().len() != 1 ==> (r matches Err(e)
                && is_invalid_operation(e)),
    {
        self.backward_with_grad(None)
    }
}

/// Whether `n` is a leaf of the graph.
fn is_leaf<T>(n: &Node<T>) -> (b: bool)
    ensures
        b == (n.op is Leaf),
{
    match &n.op {
        Operation::Leaf => true,
        _ => false,
    }
}

} // verus!
