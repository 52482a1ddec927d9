//! The gradients a backward pass computes, over an explicit description of
//! the part of the computation graph it walks.
//!
//! The nodes are listed so that every node comes after the nodes it was
//! computed from, the seeded result last; `edges[c][s]` names the position of
//! the node behind input `s` of node `c`. The gradient of a node is the seed
//! for the result, plus, for each node after it taken from the last one
//! down, what that node passes back through each of its inputs that leads to
//! it, in the order of the inputs.

use vstd::prelude::*;
use vstd::std_specs::ops::{AddSpec, SubSpec, MulSpec, DivSpec};
use vstd::arithmetic::div_mod::{lemma_fundamental_div_mod, lemma_fundamental_div_mod_converse};
use std::rc::Rc;

use crate::backprop::{
    subtraction_total,
    division_total,
    negated,
    scaled_by,
    divided_by,
    denominator_gradient,
    transposed,
    negate,
    scale_by,
    divide_by,
    denominator_rule,
    fill,
    matmul_gradients,
};
use crate::backward::{summed, add_buffers};
use crate::graph::{Node, Operation, Operand, feeds, operand_feeds, reaches, node_ok, op_ok, operand_ok, pair_ok, placed_ok, maps_into};
use crate::kernels::{addition_total, multiplication_total, scatter_sum, scatter_add, gather, dot};
use crate::tensor::{Tensor, copy_values};
use crate::joins::{offset, records_concat, records_stack};
use crate::ops::{holds_window, places_window, records_window, records_identity, records_sum, records_matmul};
use crate::broadcast::{records_broadcast, broadcast_parts, source_index, lemma_source_index_same_shape};
use crate::shape::shape_numel;
use crate::slices::{outer_extent, inner_extent, strided_position, lemma_strided_bound, lemma_strided_cover, lemma_strided_decode, lemma_numel_around_axis};
use crate::laws::law_scatter_distinct_positions;
use crate::permute::{records_swap, places_swap, grouped_position, between_extent, lemma_numel_five_blocks};

verus! {

/// The element type's four operations follow their specifications.
pub open spec fn arithmetic_specified<
    T: core::ops::Add<Output = T> + core::ops::Sub<Output = T> + core::ops::Mul<Output = T>
        + core::ops::Div<Output = T>,
>() -> bool {
    T::obeys_add_spec() && T::obeys_sub_spec() && T::obeys_mul_spec() && T::obeys_div_spec()
}

/// The element type's four operations never fail.
pub open spec fn arithmetic_total<
    T: core::ops::Add<Output = T> + core::ops::Sub<Output = T> + core::ops::Mul<Output = T>
        + core::ops::Div<Output = T>,
>() -> bool {
    addition_total::<T>() && subtraction_total::<T>() && multiplication_total::<T>()
        && division_total::<T>()
}

/// Number of inputs of `op` a gradient can flow back through.
pub open spec fn slot_count<T>(op: Operation<T>) -> nat {
    match op {
        Operation::Leaf => 0,
        Operation::Add { .. } => 2,
        Operation::Sub { .. } => 2,
        Operation::Mul { .. } => 2,
        Operation::Div { .. } => 2,
        Operation::MatMul { .. } => 2,
        Operation::Sum { .. } => 1,
        Operation::Gather { .. } => 1,
        Operation::Concat { inputs, .. } => inputs@.len(),
        Operation::Stack { inputs, .. } => inputs@.len(),
    }
}

/// Input `s` of `op`: for a binary operation `0` is the left operand and `1`
/// the right one.
pub open spec fn slot_operand<T>(op: Operation<T>, s: int) -> Operand<T> {
    match op {
        Operation::Add { lhs, rhs, .. } => if s == 0 { lhs } else { rhs },
        Operation::Sub { lhs, rhs, .. } => if s == 0 { lhs } else { rhs },
        Operation::Mul { lhs, rhs, .. } => if s == 0 { lhs } else { rhs },
        Operation::Div { lhs, rhs, .. } => if s == 0 { lhs } else { rhs },
        Operation::MatMul { lhs, rhs, .. } => if s == 0 { lhs } else { rhs },
        Operation::Sum { input } => input,
        Operation::Gather { input, .. } => input,
        Operation::Concat { inputs, .. } => inputs@[s],
        Operation::Stack { inputs, .. } => inputs@[s],
        Operation::Leaf => arbitrary(),
    }
}

/// The gradient input `s` of `op` receives when the result of `op` has
/// gradient `g`, `zero` being the element every sum starts from.
pub open spec fn contribution<
    T: core::ops::Add<Output = T> + core::ops::Sub<Output = T> + core::ops::Mul<Output = T>
        + core::ops::Div<Output = T>,
>(op: Operation<T>, g: Seq<T>, s: int, zero: T) -> Seq<T> {
    match op {
        Operation::Leaf => Seq::empty(),
        Operation::Add { lhs, rhs, lhs_map, rhs_map } => if s == 0 {
            scatter_sum(g, lhs_map@, zero, lhs.values@.len(), g.len() as int)
        } else {
            scatter_sum(g, rhs_map@, zero, rhs.values@.len(), g.len() as int)
        },
        Operation::Sub { lhs, rhs, lhs_map, rhs_map } => if s == 0 {
            scatter_sum(g, lhs_map@, zero, lhs.values@.len(), g.len() as int)
        } else {
            scatter_sum(negated(g, zero), rhs_map@, zero, rhs.values@.len(), g.len() as int)
        },
        Operation::Mul { lhs, rhs, lhs_map, rhs_map } => if s == 0 {
            scatter_sum(scaled_by(g, rhs.values@, rhs_map@), lhs_map@, zero, lhs.values@.len(), g.len() as int)
        } else {
            scatter_sum(scaled_by(g, lhs.values@, lhs_map@), rhs_map@, zero, rhs.values@.len(), g.len() as int)
        },
        Operation::Div { lhs, rhs, lhs_map, rhs_map } => if s == 0 {
            scatter_sum(divided_by(g, rhs.values@, rhs_map@), lhs_map@, zero, lhs.values@.len(), g.len() as int)
        } else {
            scatter_sum(
                denominator_gradient(g, lhs.values@, lhs_map@, rhs.values@, rhs_map@, zero),
                rhs_map@,
                zero,
                rhs.values@.len(),
                g.len() as int,
            )
        },
        Operation::Sum { input } => Seq::new(input.values@.len(), |j: int| g[0]),
        Operation::MatMul { lhs, rhs, m, k, n } => if s == 0 {
            Seq::new(
                (m * k) as nat,
                |q: int|
                    dot(g, transposed(rhs.values@, k as int, n as int), zero, n as int, k as int, q / (k as int), q % (k as int), n as int),
            )
        } else {
            Seq::new(
                (k * n) as nat,
                |q: int|
                    dot(transposed(lhs.values@, m as int, k as int), g, zero, m as int, n as int, q / (n as int), q % (n as int), m as int),
            )
        },
        Operation::Concat { placements, .. } => Seq::new(
            placements@[s]@.len(),
            |p: int| g[placements@[s]@[p] as int],
        ),
        Operation::Stack { placements, .. } => Seq::new(
            placements@[s]@.len(),
            |p: int| g[placements@[s]@[p] as int],
        ),
        Operation::Gather { input, index_map } => scatter_sum(g, index_map@, zero, input.values@.len(), g.len() as int),
    }
}

/// Input `s` of `op`.
pub(crate) fn slot_operand_of<T>(op: &Operation<T>, s: usize) -> (a: &Operand<T>)
    requires
        s < slot_count(*op),
    ensures
        *a == slot_operand(*op, s as int),
{
    match op {
        Operation::Add { lhs, rhs, .. } => if s == 0 { lhs } else { rhs },
        Operation::Sub { lhs, rhs, .. } => if s == 0 { lhs } else { rhs },
        Operation::Mul { lhs, rhs, .. } => if s == 0 { lhs } else { rhs },
        Operation::Div { lhs, rhs, .. } => if s == 0 { lhs } else { rhs },
        Operation::MatMul { lhs, rhs, .. } => if s == 0 { lhs } else { rhs },
        Operation::Sum { input } => input,
        Operation::Gather { input, .. } => input,
        Operation::Concat { inputs, .. } => &inputs[s],
        Operation::Stack { inputs, .. } => &inputs[s],
        Operation::Leaf => vstd::pervasive::unreached(),
    }
}

/// Number of inputs of `op` a gradient can flow back through.
pub(crate) fn slot_count_of<T>(op: &Operation<T>) -> (c: usize)
    ensures
        c == slot_count(*op),
{
    match op {
        Operation::Leaf => 0,
        Operation::Add { .. } => 2,
        Operation::Sub { .. } => 2,
        Operation::Mul { .. } => 2,
        Operation::Div { .. } => 2,
        Operation::MatMul { .. } => 2,
        Operation::Sum { .. } => 1,
        Operation::Gather { .. } => 1,
        Operation::Concat { inputs, .. } => inputs.len(),
        Operation::Stack { inputs, .. } => inputs.len(),
    }
}

/// The gradient input `s` of `node` receives when `node`'s result has
/// gradient `g`.
pub(crate) fn contribution_of<
    T: Copy + core::ops::Add<Output = T> + core::ops::Sub<Output = T> + core::ops::Mul<Output = T>
        + core::ops::Div<Output = T>,
>(node: &Node<T>, g: &[T], s: usize, zero: T) -> (r: Vec<T>)
    requires
        node_ok(*node),
        g@.len() == node.numel,
        s < slot_count(node.op),
        arithmetic_total::<T>(),
    ensures
        r@.len() == slot_operand(node.op, s as int).values@.len(),
        arithmetic_specified::<T>() ==> r@ == contribution(node.op, g@, s as int, zero),
{
    let depth = node.depth;
    proof {
        assert(op_ok(node.op, node.numel as nat, depth));
    }
    match &node.op {
        Operation::Leaf => Vec::new(),
        Operation::Add { lhs, rhs, lhs_map, rhs_map } => {
            proof {
                assert(pair_ok(*lhs, *rhs, lhs_map@, rhs_map@, node.numel as nat, depth));
            }
            if s == 0 {
                scatter_add(g, lhs_map.as_slice(), lhs.values.len(), zero)
            } else {
                scatter_add(g, rhs_map.as_slice(), rhs.values.len(), zero)
            }
        },
        Operation::Sub { lhs, rhs, lhs_map, rhs_map } => {
            proof {
                assert(pair_ok(*lhs, *rhs, lhs_map@, rhs_map@, node.numel as nat, depth));
            }
            if s == 0 {
                scatter_add(g, lhs_map.as_slice(), lhs.values.len(), zero)
            } else {
                let neg = negate(g, zero);
                scatter_add(neg.as_slice(), rhs_map.as_slice(), rhs.values.len(), zero)
            }
        },
        Operation::Mul { lhs, rhs, lhs_map, rhs_map } => {
            proof {
                assert(pair_ok(*lhs, *rhs, lhs_map@, rhs_map@, node.numel as nat, depth));
            }
            if s == 0 {
                let part = scale_by(g, rhs.values.as_slice(), rhs_map.as_slice());
                scatter_add(part.as_slice(), lhs_map.as_slice(), lhs.values.len(), zero)
            } else {
                let part = scale_by(g, lhs.values.as_slice(), lhs_map.as_slice());
                scatter_add(part.as_slice(), rhs_map.as_slice(), rhs.values.len(), zero)
            }
        },
        Operation::Div { lhs, rhs, lhs_map, rhs_map } => {
            proof {
                assert(pair_ok(*lhs, *rhs, lhs_map@, rhs_map@, node.numel as nat, depth));
            }
            if s == 0 {
                let part = divide_by(g, rhs.values.as_slice(), rhs_map.as_slice());
                scatter_add(part.as_slice(), lhs_map.as_slice(), lhs.values.len(), zero)
            } else {
                let part = denominator_rule(
                    g,
                    lhs.values.as_slice(),
                    lhs_map.as_slice(),
                    rhs.values.as_slice(),
                    rhs_map.as_slice(),
                    zero,
                );
                scatter_add(part.as_slice(), rhs_map.as_slice(), rhs.values.len(), zero)
            }
        },
        Operation::Sum { input } => fill(g[0], input.values.len()),
        Operation::MatMul { lhs, rhs, m, k, n } => {
            let (da, db) = matmul_gradients(
                lhs.values.as_slice(),
                rhs.values.as_slice(),
                g,
                *m,
                *k,
                *n,
                zero,
            );
            proof {
                if arithmetic_specified::<T>() {
                    let mm = *m as int;
                    let kk = *k as int;
                    let nn = *n as int;
                    assert forall|q: int| 0 <= q < da@.len() implies da@[q] == dot(
                        g@,
                        transposed(rhs.values@, kk, nn),
                        zero,
                        nn,
                        kk,
                        q / kk,
                        q % kk,
                        nn,
                    ) by {
                        assert(kk > 0) by (nonlinear_arith)
                            requires
                                0 <= q < mm * kk,
                                mm >= 0,
                                kk >= 0,
                        ;
                        lemma_fundamental_div_mod(q, kk);
                        assert(q / kk < mm) by (nonlinear_arith)
                            requires
                                0 <= q < mm * kk,
                                q == kk * (q / kk) + q % kk,
                                0 <= q % kk < kk,
                        ;
                        assert(q == (q / kk) * kk + q % kk) by (nonlinear_arith)
                            requires
                                q == kk * (q / kk) + q % kk,
                        ;
                        assert(q / kk >= 0) by (nonlinear_arith)
                            requires
                                q >= 0,
                                kk > 0,
                        ;
                        assert(da@[(q / kk) * kk + q % kk] == dot(
                            g@,
                            transposed(rhs.values@, kk, nn),
                            zero,
                            nn,
                            kk,
                            q / kk,
                            q % kk,
                            nn,
                        ));
                    }
                    assert(da@ =~= contribution(node.op, g@, 0, zero));
                    assert forall|q: int| 0 <= q < db@.len() implies db@[q] == dot(
                        transposed(lhs.values@, mm, kk),
                        g@,
                        zero,
                        mm,
                        nn,
                        q / nn,
                        q % nn,
                        mm,
                    ) by {
                        assert(nn > 0) by (nonlinear_arith)
                            requires
                                0 <= q < kk * nn,
                                nn >= 0,
                                kk >= 0,
                        ;
                        lemma_fundamental_div_mod(q, nn);
                        assert(q / nn < kk) by (nonlinear_arith)
                            requires
                                0 <= q < kk * nn,
                                q == nn * (q / nn) + q % nn,
                                0 <= q % nn < nn,
                        ;
                        assert(q == (q / nn) * nn + q % nn) by (nonlinear_arith)
                            requires
                                q == nn * (q / nn) + q % nn,
                        ;
                        assert(q / nn >= 0) by (nonlinear_arith)
                            requires
                                q >= 0,
                                nn > 0,
                        ;
                        assert(db@[(q / nn) * nn + q % nn] == dot(
                            transposed(lhs.values@, mm, kk),
                            g@,
                            zero,
                            mm,
                            nn,
                            q / nn,
                            q % nn,
                            mm,
                        ));
                    }
                    assert(db@ =~= contribution(node.op, g@, 1, zero));
                }
            }
            if s == 0 {
                da
            } else {
                db
            }
        },
        Operation::Concat { inputs, placements, .. } => {
            proof {
                assert(placed_ok(inputs@, placements@, node.numel as nat, depth));
                assert(maps_into(placements@[s as int]@, inputs@[s as int].values@.len(), node.numel as nat));
            }
            let r = gather(g, placements[s].as_slice());
            proof {
                assert(r@ =~= contribution(node.op, g@, s as int, zero));
            }
            r
        },
        Operation::Stack { inputs, placements, .. } => {
            proof {
                assert(placed_ok(inputs@, placements@, node.numel as nat, depth));
                assert(maps_into(placements@[s as int]@, inputs@[s as int].values@.len(), node.numel as nat));
            }
            let r = gather(g, placements[s].as_slice());
            proof {
                assert(r@ =~= contribution(node.op, g@, s as int, zero));
            }
            r
        },
        Operation::Gather { input, index_map } => scatter_add(g, index_map.as_slice(), input.values.len(), zero),
    }
}

/// The gradient a buffer holds, as a sequence.
pub open spec fn held<T>(o: Option<Vec<T>>) -> Option<Seq<T>> {
    match o {
        Some(v) => Some(v@),
        None => None,
    }
}

/// `part` added onto the gradient `prev` (element by element), or `part`
/// where there is none yet.
pub open spec fn accumulated<T: core::ops::Add<Output = T>>(prev: Option<Seq<T>>, part: Seq<T>) -> Seq<T> {
    match prev {
        Some(p) => summed(p, part),
        None => part,
    }
}

/// The gradient `prev` of node `k` after node `c` (operation `op`, result
/// gradient `g`, input positions `edges`) has passed back what its first `s`
/// inputs lead to `k`.
pub open spec fn through_slots<
    T: core::ops::Add<Output = T> + core::ops::Sub<Output = T> + core::ops::Mul<Output = T>
        + core::ops::Div<Output = T>,
>(prev: Option<Seq<T>>, op: Operation<T>, g: Seq<T>, edges: Seq<Option<usize>>, k: int, zero: T, s: int) -> Option<Seq<T>>
    decreases s,
{
    if s <= 0 {
        prev
    } else {
        let p = through_slots(prev, op, g, edges, k, zero, s - 1);
        if edges[s - 1] == Some(k as usize) {
            Some(accumulated(p, contribution(op, g, s - 1, zero)))
        } else {
            p
        }
    }
}

/// The gradient of node `k` once every node from position `c` on has passed
/// its gradient back: the seed for the last node, plus what each later node,
/// taken from the last one down, passes back to `k`.
pub open spec fn received<
    T: core::ops::Add<Output = T> + core::ops::Sub<Output = T> + core::ops::Mul<Output = T>
        + core::ops::Div<Output = T>,
>(order: Seq<Rc<Node<T>>>, edges: Seq<Vec<Option<usize>>>, seed: Seq<T>, zero: T, k: int, c: int) -> Option<Seq<T>>
    decreases order.len() - c,
{
    if c >= order.len() {
        if k == order.len() - 1 {
            Some(seed)
        } else {
            None
        }
    } else if c <= k {
        None
    } else {
        let prev = received(order, edges, seed, zero, k, c + 1);
        match received(order, edges, seed, zero, c, c + 1) {
            None => prev,
            Some(g) => through_slots(prev, order[c].op, g, edges[c]@, k, zero, edges[c]@.len() as int),
        }
    }
}

/// The gradient of node `k` at the end of the pass.
pub open spec fn gradient_at<
    T: core::ops::Add<Output = T> + core::ops::Sub<Output = T> + core::ops::Mul<Output = T>
        + core::ops::Div<Output = T>,
>(order: Seq<Rc<Node<T>>>, edges: Seq<Vec<Option<usize>>>, seed: Seq<T>, zero: T, k: int) -> Option<Seq<T>> {
    received(order, edges, seed, zero, k, k + 1)
}

/// `edges` describes the inputs of the listed nodes: one entry per input a
/// gradient can flow through, naming, where it names one, an earlier
/// position whose node is that input's node.
pub open spec fn edges_ok<T>(order: Seq<Rc<Node<T>>>, edges: Seq<Vec<Option<usize>>>) -> bool {
    &&& edges.len() == order.len()
    &&& forall|c: int| 0 <= c < order.len() ==> (#[trigger] edges[c])@.len() == slot_count(order[c].op)
    &&& forall|c: int, s: int|
        0 <= c < order.len() && 0 <= s < edges[c]@.len() ==> match #[trigger] edges[c]@[s] {
            Some(j) => j < c && (slot_operand(order[c].op, s).node matches Some(m) && *m == *order[j as int]),
            None => true,
        }
}

/// `edges` describes every input of the listed nodes: an input that takes
/// part in differentiation is matched with an earlier position holding its
/// node, and no other input is matched.
pub open spec fn edges_complete<T>(order: Seq<Rc<Node<T>>>, edges: Seq<Vec<Option<usize>>>) -> bool {
    &&& edges_ok(order, edges)
    &&& forall|c: int, s: int|
        0 <= c < order.len() && 0 <= s < edges[c]@.len() ==> ((#[trigger] edges[c]@[s]) is Some
            <==> slot_operand(order[c].op, s).node is Some)
}

/// Position `j` is named behind an input of a node at a later position
/// below `hi`.
pub open spec fn used_at(edges: Seq<Vec<Option<usize>>>, hi: int, j: int) -> bool {
    exists|c: int, s: int|
        #![trigger edges[c]@[s]]
        j < c < hi && 0 <= s < edges[c]@.len() && edges[c]@[s] == Some(j as usize)
}

/// The gradient of every listed node: the seed is the gradient of the last
/// node, and each node, from the last one down, passes its gradient back
/// through its inputs, in their order, onto the nodes `edges` names.
/// Element types whose arithmetic follows its specification get exactly
/// [`gradient_at`]; every gradient has its node's number of elements.
pub fn propagate_gradients<
    T: Copy + core::ops::Add<Output = T> + core::ops::Sub<Output = T> + core::ops::Mul<Output = T>
        + core::ops::Div<Output = T>,
>(order: &Vec<Rc<Node<T>>>, edges: &Vec<Vec<Option<usize>>>, seed: Vec<T>, zero: T) -> (r: Vec<
    Option<Vec<T>>,
>)
    requires
        order@.len() > 0,
        forall|j: int| 0 <= j < order@.len() ==> node_ok(*#[trigger] order@[j]),
        seed@.len() == order@.last().numel,
        edges_ok(order@, edges@),
        arithmetic_total::<T>(),
    ensures
        r@.len() == order@.len(),
        forall|k: int| 0 <= k < r@.len() ==> ((#[trigger] r@[k]) matches Some(v) ==> v@.len() == order@[k].numel),
        arithmetic_specified::<T>() ==> forall|k: int|
            0 <= k < r@.len() ==> held(#[trigger] r@[k]) == gradient_at(order@, edges@, seed@, zero, k),
{
    let count = order.len();
    let ghost sd = seed@;
    let mut state: Vec<Option<Vec<T>>> = Vec::new();
    let mut i: usize = 0;
    while i + 1 < count
        invariant
            count == order@.len(),
            count > 0,
            i + 1 <= count,
            state@.len() == i,
            forall|q: int| 0 <= q < i ==> (#[trigger] state@[q]) is None,
        decreases count - i,
    {
        state.push(None);
        i = i + 1;
    }
    state.push(Some(seed));
    let mut c: usize = count;
    while c > 0
        invariant
            count == order@.len(),
            count > 0,
            c <= count,
            state@.len() == count,
            forall|j: int| 0 <= j < order@.len() ==> node_ok(*#[trigger] order@[j]),
            edges_ok(order@, edges@),
            arithmetic_total::<T>(),
            forall|k: int| 0 <= k < count ==> ((#[trigger] state@[k]) matches Some(v) ==> v@.len() == order@[k].numel),
            arithmetic_specified::<T>() ==> forall|k: int|
                0 <= k < count ==> held(#[trigger] state@[k]) == (if k >= c {
                    received(order@, edges@, sd, zero, k, k + 1)
                } else {
                    received(order@, edges@, sd, zero, k, c as int)
                }),
        decreases c,
    {
        c = c - 1;
        let node = &order[c];
        let current: Option<Vec<T>> = match &state[c] {
            Some(v) => Some(copy_values(v.as_slice())),
            None => None,
        };
        proof {
            assert(node_ok(**node));
            assert(held(current) == held(state@[c as int]));
        }
        match current {
            None => {
                proof {
                    if arithmetic_specified::<T>() {
                        assert forall|k: int| 0 <= k < count implies held(#[trigger] state@[k]) == (if k >= c {
                            received(order@, edges@, sd, zero, k, k + 1)
                        } else {
                            received(order@, edges@, sd, zero, k, c as int)
                        }) by {
                            if k < c {
                                assert(received(order@, edges@, sd, zero, k, c as int) == received(
                                    order@,
                                    edges@,
                                    sd,
                                    zero,
                                    k,
                                    c + 1,
                                ));
                            }
                        }
                    }
                }
            },
            Some(g) => {
                let slots = edges[c].len();
                let ghost before = state@;
                let mut s: usize = 0;
                while s < slots
                    invariant
                        count == order@.len(),
                        c < count,
                        slots == edges@[c as int]@.len(),
                        slots == slot_count(order@[c as int].op),
                        s <= slots,
                        state@.len() == count,
                        node == &order@[c as int],
                        node_ok(*order@[c as int]),
                        g@.len() == order@[c as int].numel,
                        edges_ok(order@, edges@),
                        arithmetic_total::<T>(),
                        forall|j: int| 0 <= j < order@.len() ==> node_ok(*#[trigger] order@[j]),
                        forall|k: int| 0 <= k < count ==> ((#[trigger] state@[k]) matches Some(v) ==> v@.len() == order@[k].numel),
                        forall|k: int| c <= k < count ==> #[trigger] state@[k] == before[k],
                        arithmetic_specified::<T>() ==> forall|k: int|
                            0 <= k < c ==> held(#[trigger] state@[k]) == through_slots(
                                held(before[k]),
                                order@[c as int].op,
                                g@,
                                edges@[c as int]@,
                                k,
                                zero,
                                s as int,
                            ),
                    decreases slots - s,
                {
                    match edges[c][s] {
                        Some(j) => {
                            proof {
                                assert(j < c);
                                assert(slot_operand(order@[c as int].op, s as int).node matches Some(m) && *m == *order@[j as int]);
                                assert(operand_ok(slot_operand(order@[c as int].op, s as int), order@[c as int].depth)) by {
                                    slot_operand_ok(&*order@[c as int], s as int);
                                }
                            }
                            let part = contribution_of(node, g.as_slice(), s, zero);
                            let next: Vec<T> = match &state[j] {
                                Some(p) => add_buffers(p.as_slice(), part.as_slice()),
                                None => part,
                            };
                            let ghost mid = state@;
                            state.set(j, Some(next));
                            proof {
                                if arithmetic_specified::<T>() {
                                    assert forall|k: int| 0 <= k < c implies held(#[trigger] state@[k]) == through_slots(
                                        held(before[k]),
                                        order@[c as int].op,
                                        g@,
                                        edges@[c as int]@,
                                        k,
                                        zero,
                                        s + 1,
                                    ) by {
                                        if k == j {
                                            assert(held(state@[k]) == Some(accumulated(held(mid[k]), part@)));
                                        } else {
                                            assert(state@[k] == mid[k]);
                                        }
                                    }
                                }
                            }
                        },
                        None => {},
                    }
                    s = s + 1;
                }
                proof {
                    if arithmetic_specified::<T>() {
                        assert forall|k: int| 0 <= k < count implies held(#[trigger] state@[k]) == (if k >= c {
                            received(order@, edges@, sd, zero, k, k + 1)
                        } else {
                            received(order@, edges@, sd, zero, k, c as int)
                        }) by {
                            if k < c {
                                assert(held(before[c as int]) == Some(g@));
                                assert(received(order@, edges@, sd, zero, c as int, c + 1) == Some(g@));
                            } else {
                                assert(state@[k] == before[k]);
                            }
                        }
                    }
                }
            },
        }
    }
    state
}

/// The seeded result keeps the seed as its gradient: nothing computed after
/// it passes anything back to it.
pub proof fn law_result_keeps_seed<
    T: core::ops::Add<Output = T> + core::ops::Sub<Output = T> + core::ops::Mul<Output = T>
        + core::ops::Div<Output = T>,
>(order: Seq<Rc<Node<T>>>, edges: Seq<Vec<Option<usize>>>, seed: Seq<T>, zero: T)
    requires
        order.len() > 0,
    ensures
        gradient_at(order, edges, seed, zero, order.len() - 1) == Some(seed),
{
}

/// A listed node other than the seeded result receives a gradient only
/// through an input of a later node that is computed from it and received a
/// gradient itself: gradients flow back along the inputs of the graph only.
pub proof fn law_gradient_flows_along_inputs<
    T: core::ops::Add<Output = T> + core::ops::Sub<Output = T> + core::ops::Mul<Output = T>
        + core::ops::Div<Output = T>,
>(order: Seq<Rc<Node<T>>>, edges: Seq<Vec<Option<usize>>>, seed: Seq<T>, zero: T, k: int)
    requires
        edges_ok(order, edges),
        order.len() <= usize::MAX,
        0 <= k < order.len() - 1,
        gradient_at(order, edges, seed, zero, k) is Some,
    ensures
        exists|c: int, s: int|
            #![trigger edges[c]@[s]]
            k < c < order.len() && 0 <= s < edges[c]@.len() && edges[c]@[s] == Some(k as usize)
                && feeds(order[c].op, *order[k]) && gradient_at(order, edges, seed, zero, c) is Some,
{
    lemma_received_source(order, edges, seed, zero, k, k + 1);
    let (c, s) = choose|c: int, s: int|
        #![trigger edges[c]@[s]]
        k + 1 <= c < order.len() && 0 <= s < edges[c]@.len() && edges[c]@[s] == Some(k as usize)
            && received(order, edges, seed, zero, c, c + 1) is Some;
    assert(edges[c]@[s] == Some(k as usize));
    assert(slot_operand(order[c].op, s).node matches Some(m) && *m == *order[k]);
    lemma_slot_feeds(&order[c].op, s, &*order[k]);
}

/// Every listed node that receives a gradient is the seeded result or a node
/// the result was computed from, directly or not.
pub proof fn law_gradients_reach_only_what_the_result_depends_on<
    T: core::ops::Add<Output = T> + core::ops::Sub<Output = T> + core::ops::Mul<Output = T>
        + core::ops::Div<Output = T>,
>(order: Seq<Rc<Node<T>>>, edges: Seq<Vec<Option<usize>>>, seed: Seq<T>, zero: T, k: int)
    requires
        edges_ok(order, edges),
        order.len() <= usize::MAX,
        forall|j: int| 0 <= j < order.len() ==> node_ok(*#[trigger] order[j]),
        0 <= k < order.len(),
        gradient_at(order, edges, seed, zero, k) is Some,
    ensures
        reaches(*order[order.len() - 1], *order[k]),
    decreases order.len() - k,
{
    if k < order.len() - 1 {
        law_gradient_flows_along_inputs(order, edges, seed, zero, k);
        let (c, s) = choose|c: int, s: int|
            #![trigger edges[c]@[s]]
            k < c < order.len() && 0 <= s < edges[c]@.len() && edges[c]@[s] == Some(k as usize)
                && feeds(order[c].op, *order[k]) && gradient_at(order, edges, seed, zero, c) is Some;
        law_gradients_reach_only_what_the_result_depends_on(order, edges, seed, zero, c);
        assert(edges[c]@[s] == Some(k as usize));
        assert(node_ok(*order[c]));
        assert(edges[c]@.len() == slot_count(order[c].op));
        slot_operand_ok(&*order[c], s);
        lemma_reaches_through(&*order[order.len() - 1], &*order[c], &*order[k]);
    }
}

/// Where every listed node but the seeded result is an input of a later
/// listed node, every listed node receives a gradient.
pub proof fn law_every_listed_node_receives_a_gradient<
    T: core::ops::Add<Output = T> + core::ops::Sub<Output = T> + core::ops::Mul<Output = T>
        + core::ops::Div<Output = T>,
>(order: Seq<Rc<Node<T>>>, edges: Seq<Vec<Option<usize>>>, seed: Seq<T>, zero: T, k: int)
    requires
        edges.len() == order.len(),
        forall|j: int| 0 <= j < order.len() - 1 ==> #[trigger] used_at(edges, order.len() as int, j),
        0 <= k < order.len(),
    ensures
        gradient_at(order, edges, seed, zero, k) is Some,
    decreases order.len() - k,
{
    if k < order.len() - 1 {
        assert(used_at(edges, order.len() as int, k));
        let (c, s) = choose|c: int, s: int|
            #![trigger edges[c]@[s]]
            k < c < order.len() && 0 <= s < edges[c]@.len() && edges[c]@[s] == Some(k as usize);
        law_every_listed_node_receives_a_gradient(order, edges, seed, zero, c);
        let g = received(order, edges, seed, zero, c, c + 1)->0;
        lemma_through_slots_named(
            received(order, edges, seed, zero, k, c + 1),
            &order[c].op,
            g,
            edges[c]@,
            k,
            zero,
            edges[c]@.len() as int,
            s,
        );
        lemma_received_keeps(order, edges, seed, zero, k, k + 1, c);
    }
}

/// Where every input of every listed node is matched and the seeded result
/// is listed last, every node the result was computed from, directly or
/// not, is listed.
pub proof fn law_listed_nodes_cover_what_the_result_depends_on<T>(
    order: Seq<Rc<Node<T>>>,
    edges: Seq<Vec<Option<usize>>>,
    x: Node<T>,
)
    requires
        edges_complete(order, edges),
        order.len() > 0,
        order.len() <= usize::MAX,
        reaches(*order[order.len() - 1], x),
    ensures
        exists|j: int| 0 <= j < order.len() && *#[trigger] order[j] == x,
{
    lemma_listed_inputs(order, edges, order.len() - 1, &*order[order.len() - 1], &x);
}

/// A node reached from the node `n` at position `c` of a list whose inputs
/// are all matched is listed at or before `c`.
proof fn lemma_listed_inputs<T>(order: Seq<Rc<Node<T>>>, edges: Seq<Vec<Option<usize>>>, c: int, n: &Node<T>, x: &Node<T>)
    requires
        edges_complete(order, edges),
        order.len() <= usize::MAX,
        0 <= c < order.len(),
        *order[c] == *n,
        reaches(*n, *x),
    ensures
        exists|j: int| 0 <= j <= c && *#[trigger] order[j] == *x,
    decreases n.depth,
{
    if *x == *n {
        assert(*order[c] == *x);
    } else {
        let m = choose|m: Node<T>| #[trigger] feeds(n.op, m) && m.depth < n.depth && reaches(m, *x);
        lemma_feeds_slot(&n.op, &m);
        let s = choose|s: int| 0 <= s < slot_count(n.op) && operand_feeds(#[trigger] slot_operand(n.op, s), m);
        assert(edges[c]@.len() == slot_count(order[c].op));
        assert(edges[c]@[s] is Some);
        let j = edges[c]@[s]->0 as int;
        assert(j < c && *order[j] == m);
        lemma_listed_inputs(order, edges, j, &m, x);
    }
}

/// A node `op` is computed from sits behind one of its inputs.
proof fn lemma_feeds_slot<T>(op: &Operation<T>, m: &Node<T>)
    requires
        feeds(*op, *m),
    ensures
        exists|s: int|
            0 <= s < slot_count(*op) && operand_feeds(#[trigger] slot_operand(*op, s), *m),
{
    match op {
        Operation::Add { lhs, .. } | Operation::Sub { lhs, .. } | Operation::Mul { lhs, .. }
        | Operation::Div { lhs, .. } | Operation::MatMul { lhs, .. } => {
            if operand_feeds(*lhs, *m) {
                assert(operand_feeds(slot_operand(*op, 0), *m));
            } else {
                assert(operand_feeds(slot_operand(*op, 1), *m));
            }
        },
        Operation::Sum { .. } | Operation::Gather { .. } => {
            assert(operand_feeds(slot_operand(*op, 0), *m));
        },
        Operation::Concat { inputs, .. } | Operation::Stack { inputs, .. } => {
            let i = choose|i: int| 0 <= i < inputs@.len() && operand_feeds(#[trigger] inputs@[i], *m);
            assert(operand_feeds(slot_operand(*op, i), *m));
        },
        Operation::Leaf => {},
    }
}

/// Once node `k` holds a gradient, the nodes before position `hi` that pass
/// theirs back later leave it holding one.
proof fn lemma_received_keeps<
    T: core::ops::Add<Output = T> + core::ops::Sub<Output = T> + core::ops::Mul<Output = T>
        + core::ops::Div<Output = T>,
>(order: Seq<Rc<Node<T>>>, edges: Seq<Vec<Option<usize>>>, seed: Seq<T>, zero: T, k: int, d: int, hi: int)
    requires
        0 <= k < d <= hi < order.len(),
        received(order, edges, seed, zero, k, hi) is Some,
    ensures
        received(order, edges, seed, zero, k, d) is Some,
    decreases hi - d,
{
    if d < hi {
        lemma_received_keeps(order, edges, seed, zero, k, d + 1, hi);
        match received(order, edges, seed, zero, d, d + 1) {
            None => {},
            Some(h) => {
                lemma_through_slots_keeps(
                    received(order, edges, seed, zero, k, d + 1),
                    &order[d].op,
                    h,
                    edges[d]@,
                    k,
                    zero,
                    edges[d]@.len() as int,
                );
            },
        }
    }
}

/// Passing a gradient back leaves a node that holds one holding one.
proof fn lemma_through_slots_keeps<
    T: core::ops::Add<Output = T> + core::ops::Sub<Output = T> + core::ops::Mul<Output = T>
        + core::ops::Div<Output = T>,
>(prev: Option<Seq<T>>, op: &Operation<T>, g: Seq<T>, edges: Seq<Option<usize>>, k: int, zero: T, s: int)
    requires
        prev is Some,
    ensures
        through_slots(prev, *op, g, edges, k, zero, s) is Some,
    decreases s,
{
    if s > 0 {
        lemma_through_slots_keeps(prev, op, g, edges, k, zero, s - 1);
    }
}

/// Passing a gradient back through inputs one of which, `u`, names `k`
/// gives `k` a gradient.
proof fn lemma_through_slots_named<
    T: core::ops::Add<Output = T> + core::ops::Sub<Output = T> + core::ops::Mul<Output = T>
        + core::ops::Div<Output = T>,
>(prev: Option<Seq<T>>, op: &Operation<T>, g: Seq<T>, edges: Seq<Option<usize>>, k: int, zero: T, s: int, u: int)
    requires
        0 <= u < s <= edges.len(),
        edges[u] == Some(k as usize),
    ensures
        through_slots(prev, *op, g, edges, k, zero, s) is Some,
    decreases s,
{
    if s - 1 != u {
        lemma_through_slots_named(prev, op, g, edges, k, zero, s - 1, u);
    }
}

/// A listed node that only input `s` of the later node `c` names receives
/// exactly what that input passes back of `c`'s gradient `g`: the
/// vector-Jacobian product of that one operation.
pub proof fn law_single_use_receives_its_share<
    T: core::ops::Add<Output = T> + core::ops::Sub<Output = T> + core::ops::Mul<Output = T>
        + core::ops::Div<Output = T>,
>(order: Seq<Rc<Node<T>>>, edges: Seq<Vec<Option<usize>>>, seed: Seq<T>, zero: T, k: int, c: int, s: int, g: Seq<T>)
    requires
        edges.len() == order.len(),
        0 <= k < c < order.len(),
        0 <= s < edges[c]@.len(),
        edges[c]@[s] == Some(k as usize),
        forall|d: int, t: int|
            k < d < order.len() && 0 <= t < edges[d]@.len() && #[trigger] edges[d]@[t] == Some(k as usize)
                ==> d == c && t == s,
        gradient_at(order, edges, seed, zero, c) == Some(g),
    ensures
        gradient_at(order, edges, seed, zero, k) == Some(contribution(order[c].op, g, s, zero)),
{
    lemma_nothing_after(order, edges, seed, zero, k, c);
    lemma_through_slots_once(None, &order[c].op, g, edges[c]@, k, zero, edges[c]@.len() as int, s);
    lemma_received_unnamed(order, edges, seed, zero, k, k + 1, c);
}

/// A listed node that exactly two inputs name, input `s1` of node `c1` and
/// input `s2` of node `c2` (the one passed back first, from the later node
/// or, within one node, from the earlier input, named first), receives the
/// sum of both shares: each use counts once, whether two operations use the
/// node or one operation uses it twice.
pub proof fn law_two_uses_sum_their_shares<
    T: core::ops::Add<Output = T> + core::ops::Sub<Output = T> + core::ops::Mul<Output = T>
        + core::ops::Div<Output = T>,
>(
    order: Seq<Rc<Node<T>>>,
    edges: Seq<Vec<Option<usize>>>,
    seed: Seq<T>,
    zero: T,
    k: int,
    c1: int,
    s1: int,
    g1: Seq<T>,
    c2: int,
    s2: int,
    g2: Seq<T>,
)
    requires
        edges.len() == order.len(),
        0 <= k < c2 <= c1 < order.len(),
        c1 == c2 ==> s1 < s2,
        0 <= s1 < edges[c1]@.len(),
        0 <= s2 < edges[c2]@.len(),
        edges[c1]@[s1] == Some(k as usize),
        edges[c2]@[s2] == Some(k as usize),
        forall|d: int, t: int|
            k < d < order.len() && 0 <= t < edges[d]@.len() && #[trigger] edges[d]@[t] == Some(k as usize)
                ==> (d == c1 && t == s1) || (d == c2 && t == s2),
        gradient_at(order, edges, seed, zero, c1) == Some(g1),
        gradient_at(order, edges, seed, zero, c2) == Some(g2),
    ensures
        gradient_at(order, edges, seed, zero, k) == Some(
            summed(contribution(order[c1].op, g1, s1, zero), contribution(order[c2].op, g2, s2, zero)),
        ),
{
    lemma_nothing_after(order, edges, seed, zero, k, c1);
    if c1 == c2 {
        lemma_through_slots_twice(&order[c1].op, g1, edges[c1]@, k, zero, edges[c1]@.len() as int, s1, s2);
    } else {
        lemma_through_slots_once(None, &order[c1].op, g1, edges[c1]@, k, zero, edges[c1]@.len() as int, s1);
        lemma_received_unnamed(order, edges, seed, zero, k, c2 + 1, c1);
        lemma_through_slots_once(
            received(order, edges, seed, zero, k, c2 + 1),
            &order[c2].op,
            g2,
            edges[c2]@,
            k,
            zero,
            edges[c2]@.len() as int,
            s2,
        );
    }
    lemma_received_unnamed(order, edges, seed, zero, k, k + 1, c2);
}

/// Node `k` holds no gradient yet once the nodes after `c` have passed
/// theirs back, where none of them names it.
proof fn lemma_nothing_after<
    T: core::ops::Add<Output = T> + core::ops::Sub<Output = T> + core::ops::Mul<Output = T>
        + core::ops::Div<Output = T>,
>(order: Seq<Rc<Node<T>>>, edges: Seq<Vec<Option<usize>>>, seed: Seq<T>, zero: T, k: int, c: int)
    requires
        0 <= k < c < order.len(),
        forall|d: int, t: int|
            c < d < order.len() && 0 <= t < edges[d]@.len() ==> #[trigger] edges[d]@[t] != Some(k as usize),
    ensures
        received(order, edges, seed, zero, k, c + 1) is None,
{
    if received(order, edges, seed, zero, k, c + 1) is Some {
        lemma_received_source(order, edges, seed, zero, k, c + 1);
    }
}

/// Where no node from `d` up to `hi` names `k` behind an input, those
/// nodes leave `k`'s gradient as it was.
proof fn lemma_received_unnamed<
    T: core::ops::Add<Output = T> + core::ops::Sub<Output = T> + core::ops::Mul<Output = T>
        + core::ops::Div<Output = T>,
>(order: Seq<Rc<Node<T>>>, edges: Seq<Vec<Option<usize>>>, seed: Seq<T>, zero: T, k: int, d: int, hi: int)
    requires
        0 <= k < d <= hi < order.len(),
        forall|e: int, t: int|
            d <= e < hi && 0 <= t < edges[e]@.len() ==> #[trigger] edges[e]@[t] != Some(k as usize),
    ensures
        received(order, edges, seed, zero, k, d) == received(order, edges, seed, zero, k, hi),
    decreases hi - d,
{
    if d < hi {
        lemma_received_unnamed(order, edges, seed, zero, k, d + 1, hi);
        match received(order, edges, seed, zero, d, d + 1) {
            None => {},
            Some(h) => {
                assert forall|t: int| 0 <= t < edges[d]@.len() implies #[trigger] edges[d]@[t] != Some(
                    k as usize,
                ) by {
                    assert(edges[d]@[t] != Some(k as usize));
                }
                lemma_through_slots_unnamed(
                    received(order, edges, seed, zero, k, d + 1),
                    &order[d].op,
                    h,
                    edges[d]@,
                    k,
                    zero,
                    edges[d]@.len() as int,
                );
            },
        }
    }
}

/// Passing a gradient back through inputs none of which names `k` leaves
/// `k`'s gradient as it was.
proof fn lemma_through_slots_unnamed<
    T: core::ops::Add<Output = T> + core::ops::Sub<Output = T> + core::ops::Mul<Output = T>
        + core::ops::Div<Output = T>,
>(prev: Option<Seq<T>>, op: &Operation<T>, g: Seq<T>, edges: Seq<Option<usize>>, k: int, zero: T, s: int)
    requires
        s <= edges.len(),
        forall|t: int| 0 <= t < s ==> #[trigger] edges[t] != Some(k as usize),
    ensures
        through_slots(prev, *op, g, edges, k, zero, s) == prev,
    decreases s,
{
    if s > 0 {
        assert(edges[s - 1] != Some(k as usize));
        lemma_through_slots_unnamed(prev, op, g, edges, k, zero, s - 1);
    }
}

/// Passing a gradient back through inputs of which only input `u` names
/// `k` adds that input's share to what `k` held.
proof fn lemma_through_slots_once<
    T: core::ops::Add<Output = T> + core::ops::Sub<Output = T> + core::ops::Mul<Output = T>
        + core::ops::Div<Output = T>,
>(prev: Option<Seq<T>>, op: &Operation<T>, g: Seq<T>, edges: Seq<Option<usize>>, k: int, zero: T, s: int, u: int)
    requires
        0 <= u < s <= edges.len(),
        edges[u] == Some(k as usize),
        forall|t: int| 0 <= t < s && t != u ==> #[trigger] edges[t] != Some(k as usize),
    ensures
        through_slots(prev, *op, g, edges, k, zero, s) == Some(accumulated(prev, contribution(*op, g, u, zero))),
    decreases s,
{
    if s - 1 == u {
        lemma_through_slots_unnamed(prev, op, g, edges, k, zero, u);
    } else {
        assert(edges[s - 1] != Some(k as usize));
        lemma_through_slots_once(prev, op, g, edges, k, zero, s - 1, u);
    }
}

/// Passing a gradient back through inputs of which exactly inputs `u1` and
/// `u2` name `k`, where `k` had none, gives `k` the sum of both shares.
proof fn lemma_through_slots_twice<
    T: core::ops::Add<Output = T> + core::ops::Sub<Output = T> + core::ops::Mul<Output = T>
        + core::ops::Div<Output = T>,
>(op: &Operation<T>, g: Seq<T>, edges: Seq<Option<usize>>, k: int, zero: T, s: int, u1: int, u2: int)
    requires
        0 <= u1 < u2 < s <= edges.len(),
        edges[u1] == Some(k as usize),
        edges[u2] == Some(k as usize),
        forall|t: int| 0 <= t < s && t != u1 && t != u2 ==> #[trigger] edges[t] != Some(k as usize),
    ensures
        through_slots(None, *op, g, edges, k, zero, s) == Some(
            summed(contribution(*op, g, u1, zero), contribution(*op, g, u2, zero)),
        ),
    decreases s,
{
    if s - 1 == u2 {
        lemma_through_slots_once(None, op, g, edges, k, zero, u2, u1);
    } else {
        assert(edges[s - 1] != Some(k as usize));
        lemma_through_slots_twice(op, g, edges, k, zero, s - 1, u1, u2);
    }
}

/// Each input of a recorded concatenation receives, as its gradient, the
/// block of the result's gradient `g` that the input itself occupies in the
/// result: input `k`'s gradient stands to `g` as input `k`'s values stand to
/// the result's values.
pub proof fn law_concat_input_receives_its_block<
    T: core::ops::Add<Output = T> + core::ops::Sub<Output = T> + core::ops::Mul<Output = T>
        + core::ops::Div<Output = T>,
>(t: Tensor<T>, ts: Seq<&Tensor<T>>, axis: int, exts: Seq<usize>, g: Seq<T>, zero: T, k: int)
    requires
        records_concat(t, ts, axis, exts),
        0 <= k < ts.len(),
    ensures
        t.recorded_operation() matches Some(op) ==> {
            &&& contribution(op, g, k, zero).len() == outer_extent(t.dims(), axis) * exts[k]
                * inner_extent(t.dims(), axis)
            &&& holds_window(contribution(op, g, k, zero), g, t.dims(), axis, offset(exts, k) as int, exts[k] as int)
        },
{
    let op = t.recorded_operation()->0;
    let len = exts[k] as int;
    let inner = inner_extent(t.dims(), axis) as int;
    let outer = outer_extent(t.dims(), axis) as int;
    match op {
        Operation::Concat { inputs, placements, dim } => {
            let c = contribution(op, g, k, zero);
            assert forall|o: int, i: int, d: int| 0 <= o < outer && 0 <= i < inner && 0 <= d < len implies #[trigger] c[strided_position(
                len,
                inner,
                o,
                i,
                d,
            )] == g[strided_position(t.dims()[axis] as int, inner, o, i, offset(exts, k) + d)] by {
                lemma_strided_bound(len, inner, outer, o, i, d);
                assert(placements@[k]@[strided_position(len, inner, o, i, d)] == strided_position(
                    t.dims()[axis] as int,
                    inner,
                    o,
                    i,
                    offset(exts, k) + d,
                ));
            }
        },
        _ => {},
    }
}

/// Each input of a recorded stack receives, as its gradient, the slice of
/// the result's gradient `g` at its own index along the new axis: input
/// `k`'s gradient stands to `g` as input `k`'s values stand to the result's
/// values.
pub proof fn law_stack_input_receives_its_slice<
    T: core::ops::Add<Output = T> + core::ops::Sub<Output = T> + core::ops::Mul<Output = T>
        + core::ops::Div<Output = T>,
>(t: Tensor<T>, ts: Seq<Tensor<T>>, axis: int, g: Seq<T>, zero: T, k: int)
    requires
        records_stack(t, ts, axis),
        0 <= k < ts.len(),
    ensures
        t.recorded_operation() matches Some(op) ==> {
            &&& contribution(op, g, k, zero).len() == outer_extent(t.dims(), axis) * 1 * inner_extent(t.dims(), axis)
            &&& holds_window(contribution(op, g, k, zero), g, t.dims(), axis, k, 1)
        },
{
    let op = t.recorded_operation()->0;
    let inner = inner_extent(t.dims(), axis) as int;
    let outer = outer_extent(t.dims(), axis) as int;
    match op {
        Operation::Stack { inputs, placements, dim } => {
            let c = contribution(op, g, k, zero);
            assert forall|o: int, i: int, d: int| 0 <= o < outer && 0 <= i < inner && 0 <= d < 1 implies #[trigger] c[strided_position(
                1,
                inner,
                o,
                i,
                d,
            )] == g[strided_position(t.dims()[axis] as int, inner, o, i, k + d)] by {
                lemma_strided_bound(1, inner, outer, o, i, d);
                assert(placements@[k]@[strided_position(1, inner, o, i, d)] == strided_position(
                    t.dims()[axis] as int,
                    inner,
                    o,
                    i,
                    k + d,
                ));
            }
        },
        _ => {},
    }
}

/// The input of a recorded window (`narrow`, `slice_tensor`, `select`)
/// receives the result's gradient `g` inside the window its values were
/// read from, each element added once onto `zero`, and `zero` everywhere
/// outside the window.
pub proof fn law_window_gradient_fills_the_window<
    T: core::ops::Add<Output = T> + core::ops::Sub<Output = T> + core::ops::Mul<Output = T>
        + core::ops::Div<Output = T>,
>(t: Tensor<T>, src: Tensor<T>, axis: int, start: int, len: int, g: Seq<T>, zero: T)
    requires
        records_window(t, src, axis, start, len),
        0 <= axis < src.dims().len(),
        0 <= start,
        0 <= len,
        start + len <= src.dims()[axis],
        src.values().len() == shape_numel(src.dims()),
        g.len() == outer_extent(src.dims(), axis) * len * inner_extent(src.dims(), axis),
    ensures
        t.recorded_operation() matches Some(op) ==> ({
            let c = contribution(op, g, 0, zero);
            let e = src.dims()[axis] as int;
            let inner = inner_extent(src.dims(), axis) as int;
            let outer = outer_extent(src.dims(), axis) as int;
            &&& c.len() == src.values().len()
            &&& forall|o: int, i: int, d: int|
                0 <= o < outer && 0 <= i < inner && 0 <= d < len ==> #[trigger] c[strided_position(
                    e,
                    inner,
                    o,
                    i,
                    start + d,
                )] == zero.add_spec(g[strided_position(len, inner, o, i, d)])
            &&& forall|o: int, i: int, x: int|
                0 <= o < outer && 0 <= i < inner && 0 <= x < e && !(start <= x < start + len)
                    ==> #[trigger] c[strided_position(e, inner, o, i, x)] == zero
        }),
{
    let op = t.recorded_operation()->0;
    match op {
        Operation::Gather { input, index_map } => {
            let map = index_map@;
            let e = src.dims()[axis] as int;
            let inner = inner_extent(src.dims(), axis) as int;
            let outer = outer_extent(src.dims(), axis) as int;
            let n = src.values().len();
            lemma_numel_around_axis(src.dims(), axis);
            assert(input.values@.len() == n);
            assert forall|p: int| 0 <= p < map.len() implies {
                &&& len > 0 && inner > 0 && e > 0
                &&& 0 <= (p / inner) / len < outer
                &&& 0 <= p % inner < inner
                &&& 0 <= (p / inner) % len < len
                &&& p == strided_position(len, inner, (p / inner) / len, p % inner, (p / inner) % len)
                &&& #[trigger] map[p] == strided_position(e, inner, (p / inner) / len, p % inner, start + (p / inner) % len)
                &&& map[p] < n
            } by {
                assert(len > 0 && inner > 0) by (nonlinear_arith)
                    requires
                        0 <= p < outer * len * inner,
                        outer >= 0,
                        len >= 0,
                        inner >= 0,
                ;
                lemma_strided_cover(len, inner, outer, p);
                let o = (p / inner) / len;
                let i = p % inner;
                let d = (p / inner) % len;
                assert(map[strided_position(len, inner, o, i, d)] == strided_position(e, inner, o, i, start + d));
                lemma_strided_bound(e, inner, outer, o, i, start + d);
            }
            assert forall|p1: int, p2: int|
                0 <= p1 < map.len() && 0 <= p2 < map.len() && p1 != p2 implies #[trigger] map[p1] != #[trigger] map[p2] by {
                let o1 = (p1 / inner) / len;
                let i1 = p1 % inner;
                let d1 = (p1 / inner) % len;
                let o2 = (p2 / inner) / len;
                let i2 = p2 % inner;
                let d2 = (p2 / inner) % len;
                assert(map[p1] == strided_position(e, inner, o1, i1, start + d1) && len > 0 && inner > 0 && e > 0);
                assert(map[p2] == strided_position(e, inner, o2, i2, start + d2));
                assert(p1 == strided_position(len, inner, o1, i1, d1));
                assert(p2 == strided_position(len, inner, o2, i2, d2));
                lemma_strided_decode(e, inner, o1, i1, start + d1);
                lemma_strided_decode(e, inner, o2, i2, start + d2);
            }
            law_scatter_distinct_positions(g, map, zero, n, g.len() as int);
            let c = contribution(op, g, 0, zero);
            assert forall|o: int, i: int, d: int|
                0 <= o < outer && 0 <= i < inner && 0 <= d < len implies #[trigger] c[strided_position(
                e,
                inner,
                o,
                i,
                start + d,
            )] == zero.add_spec(g[strided_position(len, inner, o, i, d)]) by {
                lemma_strided_bound(len, inner, outer, o, i, d);
                let p = strided_position(len, inner, o, i, d);
                assert(map[p] == strided_position(e, inner, o, i, start + d));
            }
            assert forall|o: int, i: int, x: int|
                0 <= o < outer && 0 <= i < inner && 0 <= x < e && !(start <= x < start + len) implies #[trigger] c[strided_position(
                e,
                inner,
                o,
                i,
                x,
            )] == zero by {
                let j = strided_position(e, inner, o, i, x);
                lemma_strided_bound(e, inner, outer, o, i, x);
                lemma_strided_decode(e, inner, o, i, x);
                assert forall|p: int| 0 <= p < g.len() implies #[trigger] map[p] != j by {
                    let o1 = (p / inner) / len;
                    let i1 = p % inner;
                    let d1 = (p / inner) % len;
                    assert(map[p] == strided_position(e, inner, o1, i1, start + d1) && len > 0 && inner > 0 && e > 0);
                    lemma_strided_decode(e, inner, o1, i1, start + d1);
                }
            }
        },
        _ => {},
    }
}

/// Every element of a summed tensor receives the gradient of the sum.
pub proof fn law_sum_spreads_the_gradient<
    T: core::ops::Add<Output = T> + core::ops::Sub<Output = T> + core::ops::Mul<Output = T>
        + core::ops::Div<Output = T>,
>(t: Tensor<T>, src: Tensor<T>, g: Seq<T>, zero: T)
    requires
        records_sum(t, src),
    ensures
        t.recorded_operation() matches Some(op) ==> contribution(op, g, 0, zero) == Seq::new(
            src.values().len(),
            |j: int| g[0],
        ),
{
}

/// A tensor read element for element (`flatten`, or exchanging an axis with
/// itself) passes the gradient back element for element: each element of
/// the input receives the gradient at its own position, added onto `zero`.
pub proof fn law_identity_gather_passes_the_gradient_back<
    T: core::ops::Add<Output = T> + core::ops::Sub<Output = T> + core::ops::Mul<Output = T>
        + core::ops::Div<Output = T>,
>(t: Tensor<T>, src: Tensor<T>, g: Seq<T>, zero: T)
    requires
        records_identity(t, src),
        g.len() == src.values().len(),
    ensures
        t.recorded_operation() matches Some(op) ==> contribution(op, g, 0, zero) == Seq::new(
            g.len(),
            |j: int| zero.add_spec(g[j]),
        ),
{
    let op = t.recorded_operation()->0;
    match op {
        Operation::Gather { input, index_map } => {
            lemma_scatter_identity(g, index_map@, zero, g.len(), g.len() as int);
            assert(Seq::new(g.len(), |j: int| if j < g.len() { zero.add_spec(g[j]) } else { zero }) =~= Seq::new(
                g.len(),
                |j: int| zero.add_spec(g[j]),
            ));
        },
        _ => {},
    }
}

/// The factors of a recorded matrix product `a x b` (`m x k` and `k x n`)
/// receive `g x b^T` and `a^T x g` for the product's gradient `g`: entry
/// `(i, j)` of the left factor's gradient is the dot product of row `i` of
/// `g` with row `j` of `b`, and entry `(i, j)` of the right factor's is the
/// dot product of column `i` of `a` with column `j` of `g`.
pub proof fn law_matmul_gradients_are_products<
    T: core::ops::Add<Output = T> + core::ops::Sub<Output = T> + core::ops::Mul<Output = T>
        + core::ops::Div<Output = T>,
>(t: Tensor<T>, a: Tensor<T>, b: Tensor<T>, g: Seq<T>, zero: T)
    requires
        records_matmul(t, a, b),
    ensures
        t.recorded_operation() matches Some(op) ==> ({
            let m = a.dims()[0] as int;
            let k = a.dims()[1] as int;
            let n = b.dims()[1] as int;
            &&& contribution(op, g, 0, zero).len() == m * k
            &&& contribution(op, g, 1, zero).len() == k * n
            &&& forall|i: int, j: int|
                0 <= i < m && 0 <= j < k ==> #[trigger] contribution(op, g, 0, zero)[i * k + j] == dot(
                    g,
                    transposed(b.values(), k, n),
                    zero,
                    n,
                    k,
                    i,
                    j,
                    n,
                )
            &&& forall|i: int, j: int|
                0 <= i < k && 0 <= j < n ==> #[trigger] contribution(op, g, 1, zero)[i * n + j] == dot(
                    transposed(a.values(), m, k),
                    g,
                    zero,
                    m,
                    n,
                    i,
                    j,
                    m,
                )
        }),
{
    let op = t.recorded_operation()->0;
    let m = a.dims()[0] as int;
    let k = a.dims()[1] as int;
    let n = b.dims()[1] as int;
    match op {
        Operation::MatMul { lhs, rhs, .. } => {
            assert forall|i: int, j: int| 0 <= i < m && 0 <= j < k implies #[trigger] contribution(op, g, 0, zero)[i
                * k + j] == dot(g, transposed(b.values(), k, n), zero, n, k, i, j, n) by {
                lemma_fundamental_div_mod_converse(i * k + j, k, i, j);
                assert(0 <= i * k + j < m * k) by (nonlinear_arith)
                    requires
                        0 <= i < m,
                        0 <= j < k,
                ;
            }
            assert forall|i: int, j: int| 0 <= i < k && 0 <= j < n implies #[trigger] contribution(op, g, 1, zero)[i
                * n + j] == dot(transposed(a.values(), m, k), g, zero, m, n, i, j, m) by {
                lemma_fundamental_div_mod_converse(i * n + j, n, i, j);
                assert(0 <= i * n + j < k * n) by (nonlinear_arith)
                    requires
                        0 <= i < k,
                        0 <= j < n,
                ;
            }
        },
        _ => {},
    }
}

/// The input of a recorded exchange of the axes `a < b` receives the
/// result's gradient `g` with the two axes exchanged back: the element at
/// index `x_` of axis `a` and `y` of axis `b` receives, added onto `zero`,
/// the gradient at index `y` of axis `a` and `x_` of axis `b`.
pub proof fn law_swap_gradient_swaps_back<
    T: core::ops::Add<Output = T> + core::ops::Sub<Output = T> + core::ops::Mul<Output = T>
        + core::ops::Div<Output = T>,
>(t: Tensor<T>, src: Tensor<T>, a: int, b: int, g: Seq<T>, zero: T)
    requires
        records_swap(t, src, a, b),
        0 <= a < b < src.dims().len(),
        src.values().len() == shape_numel(src.dims()),
        g.len() == shape_numel(src.dims()),
    ensures
        t.recorded_operation() matches Some(op) ==> ({
            let dims = src.dims();
            let pe = shape_numel(dims.take(a)) as int;
            let ae = dims[a] as int;
            let me = between_extent(dims, a, b) as int;
            let be = dims[b] as int;
            let se = shape_numel(dims.skip(b + 1)) as int;
            &&& contribution(op, g, 0, zero).len() == src.values().len()
            &&& forall|p: int, u: int, m: int, v: int, s: int|
                0 <= p < pe && 0 <= u < ae && 0 <= m < me && 0 <= v < be && 0 <= s < se
                    ==> #[trigger] contribution(op, g, 0, zero)[grouped_position(ae, me, be, se, p, u, m, v, s)]
                    == zero.add_spec(g[grouped_position(be, me, ae, se, p, v, m, u, s)])
        }),
{
    let op = t.recorded_operation()->0;
    let dims = src.dims();
    let pe = shape_numel(dims.take(a)) as int;
    let ae = dims[a] as int;
    let me = between_extent(dims, a, b) as int;
    let be = dims[b] as int;
    let se = shape_numel(dims.skip(b + 1)) as int;
    lemma_numel_five_blocks(dims, a, b);
    let nn = g.len() as int;
    assert(nn == pe * ae * me * be * se);
    match op {
        Operation::Gather { input, index_map } => {
            let map = index_map@;
            assert(places_swap(map, dims, a, b));
            assert(nn == (pe * be * me) * ae * se) by (nonlinear_arith)
                requires
                    nn == pe * ae * me * be * se,
            ;
            assert forall|q: int| 0 <= q < map.len() implies {
                let o = (q / se) / ae;
                let pp = (o / me) / be;
                let mm = o % me;
                let vv = (o / me) % be;
                let uu = (q / se) % ae;
                let ss = q % se;
                &&& ae > 0 && se > 0 && be > 0 && me > 0
                &&& 0 <= pp < pe && 0 <= uu < ae && 0 <= mm < me && 0 <= vv < be && 0 <= ss < se
                &&& q == grouped_position(be, me, ae, se, pp, vv, mm, uu, ss)
                &&& #[trigger] map[q] == grouped_position(ae, me, be, se, pp, uu, mm, vv, ss)
                &&& map[q] < nn
            } by {
                assert(ae > 0 && se > 0 && be > 0 && me > 0 && pe > 0) by (nonlinear_arith)
                    requires
                        0 <= q < nn,
                        nn == pe * ae * me * be * se,
                        pe >= 0,
                        ae >= 0,
                        me >= 0,
                        be >= 0,
                        se >= 0,
                ;
                lemma_strided_cover(ae, se, pe * be * me, q);
                let o = (q / se) / ae;
                assert(pe * be * me == pe * me * be) by (nonlinear_arith);
                lemma_strided_cover(be, me, pe, o);
                let pp = (o / me) / be;
                let mm = o % me;
                let vv = (o / me) % be;
                let uu = (q / se) % ae;
                let ss = q % se;
                assert(q == grouped_position(be, me, ae, se, pp, vv, mm, uu, ss));
                assert(map[grouped_position(be, me, ae, se, pp, vv, mm, uu, ss)] == grouped_position(
                    ae,
                    me,
                    be,
                    se,
                    pp,
                    uu,
                    mm,
                    vv,
                    ss,
                ));
                lemma_strided_bound(ae, me, pe, pp, mm, uu);
                lemma_strided_bound(be, se, pe * ae * me, strided_position(ae, me, pp, mm, uu), ss, vv);
                assert(nn == (pe * ae * me) * be * se) by (nonlinear_arith)
                    requires
                        nn == pe * ae * me * be * se,
                ;
            }
            assert forall|q1: int, q2: int|
                0 <= q1 < map.len() && 0 <= q2 < map.len() && q1 != q2 implies #[trigger] map[q1] != #[trigger] map[q2] by {
                let o1 = (q1 / se) / ae;
                let o2 = (q2 / se) / ae;
                let (p1, m1, v1, u1, s1) = ((o1 / me) / be, o1 % me, (o1 / me) % be, (q1 / se) % ae, q1 % se);
                let (p2, m2, v2, u2, s2) = ((o2 / me) / be, o2 % me, (o2 / me) % be, (q2 / se) % ae, q2 % se);
                assert(map[q1] == grouped_position(ae, me, be, se, p1, u1, m1, v1, s1) && ae > 0 && se > 0 && be > 0 && me > 0);
                assert(map[q2] == grouped_position(ae, me, be, se, p2, u2, m2, v2, s2));
                assert(q1 == grouped_position(be, me, ae, se, p1, v1, m1, u1, s1));
                assert(q2 == grouped_position(be, me, ae, se, p2, v2, m2, u2, s2));
                lemma_strided_decode(be, se, strided_position(ae, me, p1, m1, u1), s1, v1);
                lemma_strided_decode(be, se, strided_position(ae, me, p2, m2, u2), s2, v2);
                lemma_strided_decode(ae, me, p1, m1, u1);
                lemma_strided_decode(ae, me, p2, m2, u2);
            }
            law_scatter_distinct_positions(g, map, zero, nn as nat, nn);
            assert forall|p: int, u: int, m: int, v: int, s: int|
                0 <= p < pe && 0 <= u < ae && 0 <= m < me && 0 <= v < be && 0 <= s < se
                    implies #[trigger] contribution(op, g, 0, zero)[grouped_position(ae, me, be, se, p, u, m, v, s)]
                    == zero.add_spec(g[grouped_position(be, me, ae, se, p, v, m, u, s)]) by {
                let o = strided_position(be, me, p, m, v);
                lemma_strided_bound(be, me, pe, p, m, v);
                lemma_strided_bound(ae, se, pe * be * me, o, s, u);
                let q = grouped_position(be, me, ae, se, p, v, m, u, s);
                assert(map[q] == grouped_position(ae, me, be, se, p, u, m, v, s));
            }
        },
        _ => {},
    }
}

/// For every position of a result of extents `o`, the position of an
/// operand of extents `s` its value was computed from.
pub open spec fn source_positions(o: Seq<usize>, s: Seq<usize>) -> Seq<usize> {
    Seq::new(shape_numel(o), |f: int| source_index(o, s, f as nat) as usize)
}

/// The operands of a recorded broadcasting operation receive the
/// operation's rule applied to the result's gradient `g` and summed, for
/// every operand element, over exactly the result positions whose values
/// were computed from it: the vector-Jacobian product.
pub proof fn law_broadcast_gradients_sum_over_readers<
    T: core::ops::Add<Output = T> + core::ops::Sub<Output = T> + core::ops::Mul<Output = T>
        + core::ops::Div<Output = T>,
>(t: Tensor<T>, a: Tensor<T>, b: Tensor<T>, g: Seq<T>, zero: T)
    requires
        records_broadcast(t, a, b),
    ensures
        ({
            let pa = source_positions(t.dims(), a.dims());
            let pb = source_positions(t.dims(), b.dims());
            let na = a.values().len();
            let nb = b.values().len();
            let n = g.len() as int;
            match t.recorded_operation() {
                Some(op) => match op {
                    Operation::Add { .. } => contribution(op, g, 0, zero) == scatter_sum(g, pa, zero, na, n)
                        && contribution(op, g, 1, zero) == scatter_sum(g, pb, zero, nb, n),
                    Operation::Sub { .. } => contribution(op, g, 0, zero) == scatter_sum(g, pa, zero, na, n)
                        && contribution(op, g, 1, zero) == scatter_sum(negated(g, zero), pb, zero, nb, n),
                    Operation::Mul { .. } => contribution(op, g, 0, zero) == scatter_sum(
                        scaled_by(g, b.values(), pb),
                        pa,
                        zero,
                        na,
                        n,
                    ) && contribution(op, g, 1, zero) == scatter_sum(scaled_by(g, a.values(), pa), pb, zero, nb, n),
                    Operation::Div { .. } => contribution(op, g, 0, zero) == scatter_sum(
                        divided_by(g, b.values(), pb),
                        pa,
                        zero,
                        na,
                        n,
                    ) && contribution(op, g, 1, zero) == scatter_sum(
                        denominator_gradient(g, a.values(), pa, b.values(), pb, zero),
                        pb,
                        zero,
                        nb,
                        n,
                    ),
                    _ => true,
                },
                None => true,
            }
        }),
{
    let op = t.recorded_operation()->0;
    let (l, r, lm, rm) = broadcast_parts(op)->0;
    assert(lm =~= source_positions(t.dims(), a.dims()));
    assert(rm =~= source_positions(t.dims(), b.dims()));
}

/// Where both operands have the result's extents, every element of each
/// operand receives the operation's derivative at that element times the
/// gradient at the same position: the seed itself for a sum, its negation
/// for the right operand of a difference, the other factor times it for a
/// product, and the quotient rule for a quotient.
pub proof fn law_same_shape_gradients_are_elementwise<
    T: core::ops::Add<Output = T> + core::ops::Sub<Output = T> + core::ops::Mul<Output = T>
        + core::ops::Div<Output = T>,
>(t: Tensor<T>, a: Tensor<T>, b: Tensor<T>, g: Seq<T>, zero: T)
    requires
        records_broadcast(t, a, b),
        a.dims() == t.dims(),
        b.dims() == t.dims(),
        g.len() == shape_numel(t.dims()),
        a.values().len() == shape_numel(t.dims()),
        b.values().len() == shape_numel(t.dims()),
    ensures
        ({
            let n = g.len();
            let x = a.values();
            let y = b.values();
            match t.recorded_operation() {
                Some(op) => match op {
                    Operation::Add { .. } => contribution(op, g, 0, zero) == Seq::new(n, |j: int| zero.add_spec(g[j]))
                        && contribution(op, g, 1, zero) == Seq::new(n, |j: int| zero.add_spec(g[j])),
                    Operation::Sub { .. } => contribution(op, g, 0, zero) == Seq::new(n, |j: int| zero.add_spec(g[j]))
                        && contribution(op, g, 1, zero) == Seq::new(n, |j: int| zero.add_spec(zero.sub_spec(g[j]))),
                    Operation::Mul { .. } => contribution(op, g, 0, zero) == Seq::new(
                        n,
                        |j: int| zero.add_spec(g[j].mul_spec(y[j])),
                    ) && contribution(op, g, 1, zero) == Seq::new(n, |j: int| zero.add_spec(g[j].mul_spec(x[j]))),
                    Operation::Div { .. } => contribution(op, g, 0, zero) == Seq::new(
                        n,
                        |j: int| zero.add_spec(g[j].div_spec(y[j])),
                    ) && contribution(op, g, 1, zero) == Seq::new(
                        n,
                        |j: int| zero.add_spec(zero.sub_spec(g[j].mul_spec(x[j]).div_spec(y[j].mul_spec(y[j])))),
                    ),
                    _ => true,
                },
                None => true,
            }
        }),
{
    law_broadcast_gradients_sum_over_readers(t, a, b, g, zero);
    let o = t.dims();
    let n = g.len();
    let id = source_positions(o, o);
    let op = t.recorded_operation()->0;
    let (_, _, lm, _) = broadcast_parts(op)->0;
    assert forall|f: int| 0 <= f < n implies #[trigger] id[f] == f by {
        lemma_source_index_same_shape(o, f as nat);
        assert(lm[f] == source_index(o, a.dims(), f as nat));
    }
    let x = a.values();
    let y = b.values();
    lemma_scatter_identity(g, id, zero, n, n as int);
    lemma_scatter_identity(negated(g, zero), id, zero, n, n as int);
    lemma_scatter_identity(scaled_by(g, y, id), id, zero, n, n as int);
    lemma_scatter_identity(scaled_by(g, x, id), id, zero, n, n as int);
    lemma_scatter_identity(divided_by(g, y, id), id, zero, n, n as int);
    lemma_scatter_identity(denominator_gradient(g, x, id, y, id, zero), id, zero, n, n as int);
    let h1 = Seq::new(n, |j: int| if j < n { zero.add_spec(g[j]) } else { zero });
    assert(h1 =~= Seq::new(n, |j: int| zero.add_spec(g[j])));
    assert(Seq::new(n, |j: int| if j < n { zero.add_spec(negated(g, zero)[j]) } else { zero }) =~= Seq::new(
        n,
        |j: int| zero.add_spec(zero.sub_spec(g[j])),
    ));
    assert(Seq::new(n, |j: int| if j < n { zero.add_spec(scaled_by(g, y, id)[j]) } else { zero }) =~= Seq::new(
        n,
        |j: int| zero.add_spec(g[j].mul_spec(y[j])),
    ));
    assert(Seq::new(n, |j: int| if j < n { zero.add_spec(scaled_by(g, x, id)[j]) } else { zero }) =~= Seq::new(
        n,
        |j: int| zero.add_spec(g[j].mul_spec(x[j])),
    ));
    assert(Seq::new(n, |j: int| if j < n { zero.add_spec(divided_by(g, y, id)[j]) } else { zero }) =~= Seq::new(
        n,
        |j: int| zero.add_spec(g[j].div_spec(y[j])),
    ));
    assert(Seq::new(
        n,
        |j: int| if j < n { zero.add_spec(denominator_gradient(g, x, id, y, id, zero)[j]) } else { zero },
    ) =~= Seq::new(
        n,
        |j: int| zero.add_spec(zero.sub_spec(g[j].mul_spec(x[j]).div_spec(y[j].mul_spec(y[j])))),
    ));
}

/// Scattering the first `k` elements of `h` onto the same positions of a
/// buffer of `n` copies of `zero` adds each onto `zero` in place.
proof fn lemma_scatter_identity<T: core::ops::Add<Output = T>>(h: Seq<T>, map: Seq<usize>, zero: T, n: nat, k: int)
    requires
        0 <= k <= n,
        k <= map.len(),
        forall|f: int| 0 <= f < k ==> #[trigger] map[f] == f,
    ensures
        scatter_sum(h, map, zero, n, k) == Seq::new(n, |j: int| if j < k { zero.add_spec(h[j]) } else { zero }),
    decreases k,
{
    if k <= 0 {
        assert(scatter_sum(h, map, zero, n, k) =~= Seq::new(n, |j: int| if j < k { zero.add_spec(h[j]) } else { zero }));
    } else {
        lemma_scatter_identity(h, map, zero, n, k - 1);
        assert(map[k - 1] == k - 1);
        assert(scatter_sum(h, map, zero, n, k) =~= Seq::new(n, |j: int| if j < k { zero.add_spec(h[j]) } else { zero }));
    }
}

/// The node behind input `s` of `op` is one `op` is computed from.
pub(crate) proof fn lemma_slot_feeds<T>(op: &Operation<T>, s: int, x: &Node<T>)
    requires
        0 <= s < slot_count(*op),
        slot_operand(*op, s).node matches Some(m) && *m == *x,
    ensures
        feeds(*op, *x),
{
    match op {
        Operation::Concat { inputs, .. } => {
            assert(operand_feeds(inputs@[s], *x));
        },
        Operation::Stack { inputs, .. } => {
            assert(operand_feeds(inputs@[s], *x));
        },
        _ => {},
    }
}

/// Node `k`, other than the last, holds a gradient once the nodes from `c`
/// on have passed theirs back only if one of those nodes, holding a
/// gradient, names `k` behind one of its inputs.
proof fn lemma_received_source<
    T: core::ops::Add<Output = T> + core::ops::Sub<Output = T> + core::ops::Mul<Output = T>
        + core::ops::Div<Output = T>,
>(order: Seq<Rc<Node<T>>>, edges: Seq<Vec<Option<usize>>>, seed: Seq<T>, zero: T, k: int, c: int)
    requires
        0 <= k < order.len() - 1,
        k < c,
        received(order, edges, seed, zero, k, c) is Some,
    ensures
        exists|d: int, s: int|
            #![trigger edges[d]@[s]]
            c <= d < order.len() && 0 <= s < edges[d]@.len() && edges[d]@[s] == Some(k as usize)
                && received(order, edges, seed, zero, d, d + 1) is Some,
    decreases order.len() - c,
{
    if c < order.len() {
        let prev = received(order, edges, seed, zero, k, c + 1);
        match received(order, edges, seed, zero, c, c + 1) {
            None => {
                lemma_received_source(order, edges, seed, zero, k, c + 1);
            },
            Some(g) => {
                if prev is Some {
                    lemma_received_source(order, edges, seed, zero, k, c + 1);
                } else {
                    lemma_through_slots_source(prev, &order[c].op, g, edges[c]@, k, zero, edges[c]@.len() as int);
                    let t = choose|t: int| 0 <= t < edges[c]@.len() && #[trigger] edges[c]@[t] == Some(k as usize);
                    assert(edges[c]@[t] == Some(k as usize));
                }
            },
        }
    }
}

/// Passing a gradient back through the first `s` inputs gives `k` one only
/// where it had one or one of those inputs names it.
proof fn lemma_through_slots_source<
    T: core::ops::Add<Output = T> + core::ops::Sub<Output = T> + core::ops::Mul<Output = T>
        + core::ops::Div<Output = T>,
>(prev: Option<Seq<T>>, op: &Operation<T>, g: Seq<T>, edges: Seq<Option<usize>>, k: int, zero: T, s: int)
    requires
        prev is None,
        s <= edges.len(),
        through_slots(prev, *op, g, edges, k, zero, s) is Some,
    ensures
        exists|t: int| 0 <= t < s && #[trigger] edges[t] == Some(k as usize),
    decreases s,
{
    if s > 0 {
        if edges[s - 1] == Some(k as usize) {
            assert(edges[s - 1] == Some(k as usize));
        } else {
            lemma_through_slots_source(prev, op, g, edges, k, zero, s - 1);
        }
    }
}

/// Every input of a well-formed node is well formed at the node's depth.
pub(crate) proof fn slot_operand_ok<T>(n: &Node<T>, s: int)
    requires
        node_ok(*n),
        0 <= s < slot_count(n.op),
    ensures
        operand_ok(slot_operand(n.op, s), n.depth),
{
    assert(op_ok(n.op, n.numel as nat, n.depth));
    match &n.op {
        Operation::Concat { inputs, placements, .. } => {
            assert(placed_ok(inputs@, placements@, n.numel as nat, n.depth));
        },
        Operation::Stack { inputs, placements, .. } => {
            assert(placed_ok(inputs@, placements@, n.numel as nat, n.depth));
        },
        _ => {},
    }
}

/// A node computed, directly or not, from `b` is computed from every input
/// of `b` as well.
proof fn lemma_reaches_through<T>(a: &Node<T>, b: &Node<T>, x: &Node<T>)
    requires
        reaches(*a, *b),
        feeds(b.op, *x),
        x.depth < b.depth,
    ensures
        reaches(*a, *x),
    decreases a.depth,
{
    if *b == *a {
        assert(reaches(*x, *x));
        assert(feeds(a.op, *x) && x.depth < a.depth && reaches(*x, *x));
    } else {
        let m = choose|m: Node<T>| #[trigger] feeds(a.op, m) && m.depth < a.depth && reaches(m, *b);
        lemma_reaches_through(&m, b, x);
        assert(feeds(a.op, m) && m.depth < a.depth && reaches(m, *x));
    }
}

} // verus!
