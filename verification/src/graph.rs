use vstd::prelude::*;
use vstd::cell::invcell::InvCell;
use vstd::predicate::Predicate;
use std::rc::Rc;

use crate::shape::shape_numel;

verus! {

/// Another handle to the same shared node (`Rc::clone`); trusted: the
/// contract claims that the new handle refers to the same value, which is
/// what `Rc::clone` documents (it points to the same allocation).
#[verifier::external_body]
pub(crate) fn share<T>(r: &Rc<T>) -> (c: Rc<T>)
    ensures
        c == *r,
{
    Rc::clone(r)
}

/// Whether two handles point to the same allocation (`Rc::ptr_eq`);
/// trusted: the contract claims that handles to the same allocation refer to
/// equal values, which holds because they refer to one value. Nothing is
/// claimed where they point to different allocations.
#[verifier::external_body]
pub(crate) fn same_allocation<T>(a: &Rc<T>, b: &Rc<T>) -> (r: bool)
    ensures
        r ==> **a == **b,
{
    Rc::ptr_eq(a, b)
}

/// Invariant of a gradient slot: a stored gradient has exactly `len`
/// elements.
pub struct GradientLength {
    pub len: usize,
}

impl<T> Predicate<Option<Vec<T>>> for GradientLength {
    open spec fn predicate(&self, v: Option<Vec<T>>) -> bool {
        v matches Some(g) ==> g@.len() == self.len
    }
}

/// Invariant of a traversal mark: any value. A mark holds, while a backward
/// pass walks the graph, the position at which the pass listed the node.
pub struct AnyMark;

impl Predicate<Option<usize>> for AnyMark {
    open spec fn predicate(&self, v: Option<usize>) -> bool {
        true
    }
}

/// One input of a recorded operation: its graph node where it takes part in
/// differentiation, and the values and extents it had.
pub struct Operand<T> {
    pub node: Option<Rc<Node<T>>>,
    pub values: Vec<T>,
    pub dims: Vec<usize>,
}

/// How a tensor that takes part in differentiation was computed; each
/// variant determines how a gradient flows back to its inputs.
///
/// The maps record, for every position of the result, the position of each
/// input it was computed from (`Add` to `Div`, `Gather`), or, for every
/// position of an input, the position of the result it went to (`Concat`,
/// `Stack`).
pub enum Operation<T> {
    /// A tensor created directly, not computed from others.
    Leaf,
    /// Broadcasting sum; the gradient is summed back onto each operand.
    Add { lhs: Operand<T>, rhs: Operand<T>, lhs_map: Vec<usize>, rhs_map: Vec<usize> },
    /// Broadcasting difference; the right operand receives the negated gradient.
    Sub { lhs: Operand<T>, rhs: Operand<T>, lhs_map: Vec<usize>, rhs_map: Vec<usize> },
    /// Broadcasting product; each operand receives the gradient times the other.
    Mul { lhs: Operand<T>, rhs: Operand<T>, lhs_map: Vec<usize>, rhs_map: Vec<usize> },
    /// Broadcasting quotient `lhs / rhs`.
    Div { lhs: Operand<T>, rhs: Operand<T>, lhs_map: Vec<usize>, rhs_map: Vec<usize> },
    /// Sum of all elements; every input element receives the gradient.
    Sum { input: Operand<T> },
    /// Product of two matrices `[m, k] x [k, n]`.
    MatMul { lhs: Operand<T>, rhs: Operand<T>, m: usize, k: usize, n: usize },
    /// Concatenation along an axis.
    Concat { inputs: Vec<Operand<T>>, placements: Vec<Vec<usize>>, dim: usize },
    /// Stacking along a new axis.
    Stack { inputs: Vec<Operand<T>>, placements: Vec<Vec<usize>>, dim: usize },
    /// A gather (`narrow`, `select`, `slice_tensor`): result position `o` was
    /// read from input position `index_map[o]`; gradients are scatter-added
    /// back, duplicated reads accumulating.
    Gather { input: Operand<T>, index_map: Vec<usize> },
}

/// A tensor's place in a computation graph: how it was computed, its number
/// of elements, its depth (leaves have depth 0, every other node is deeper
/// than each of its inputs), the gradient accumulated for it, and a mark used
/// while walking the graph. Copies of a tensor share one node.
pub struct Node<T> {
    pub op: Operation<T>,
    pub numel: usize,
    pub depth: usize,
    pub grad: InvCell<Option<Vec<T>>, GradientLength>,
    pub mark: InvCell<Option<usize>, AnyMark>,
}

/// `map` has `len` entries, each a position below `bound`.
pub open spec fn maps_into(map: Seq<usize>, len: nat, bound: nat) -> bool {
    &&& map.len() == len
    &&& forall|p: int| 0 <= p < map.len() ==> #[trigger] map[p] < bound
}

/// An input recorded by a node of depth `depth`: its values match its
/// extents, and its node, where it has one, is shallower, has as many
/// elements and is itself well formed.
pub open spec fn operand_ok<T>(a: Operand<T>, depth: usize) -> bool
    decreases depth, 0int,
{
    &&& a.values@.len() == shape_numel(a.dims@)
    &&& match a.node {
        Some(m) => m.depth < depth && m.numel == a.values@.len() && node_ok(*m),
        None => true,
    }
}

/// How a binary element-wise operation recorded its operands: each result
/// position names one position of each operand.
pub open spec fn pair_ok<T>(
    lhs: Operand<T>,
    rhs: Operand<T>,
    lhs_map: Seq<usize>,
    rhs_map: Seq<usize>,
    numel: nat,
    depth: usize,
) -> bool
    decreases depth, 1int,
{
    &&& operand_ok(lhs, depth)
    &&& operand_ok(rhs, depth)
    &&& maps_into(lhs_map, numel, lhs.values@.len())
    &&& maps_into(rhs_map, numel, rhs.values@.len())
}

/// Inputs `inputs`, each placed by the matching entry of `placements` into a
/// result of `numel` elements.
pub open spec fn placed_ok<T>(inputs: Seq<Operand<T>>, placements: Seq<Vec<usize>>, numel: nat, depth: usize) -> bool
    decreases depth, 1int,
{
    &&& placements.len() == inputs.len()
    &&& forall|i: int| 0 <= i < inputs.len() ==> operand_ok(#[trigger] inputs[i], depth)
    &&& forall|i: int|
        0 <= i < inputs.len() ==> maps_into(#[trigger] placements[i]@, inputs[i].values@.len(), numel)
}

/// An operation recorded for a result of `numel` elements at depth `depth`
/// is consistent: its index maps stay inside the buffers they index, its
/// sizes agree, and every input is well formed and shallower.
pub open spec fn op_ok<T>(op: Operation<T>, numel: nat, depth: usize) -> bool
    decreases depth, 2int,
{
    match op {
        Operation::Leaf => true,
        Operation::Add { lhs, rhs, lhs_map, rhs_map } => pair_ok(lhs, rhs, lhs_map@, rhs_map@, numel, depth),
        Operation::Sub { lhs, rhs, lhs_map, rhs_map } => pair_ok(lhs, rhs, lhs_map@, rhs_map@, numel, depth),
        Operation::Mul { lhs, rhs, lhs_map, rhs_map } => pair_ok(lhs, rhs, lhs_map@, rhs_map@, numel, depth),
        Operation::Div { lhs, rhs, lhs_map, rhs_map } => pair_ok(lhs, rhs, lhs_map@, rhs_map@, numel, depth),
        Operation::Sum { input } => operand_ok(input, depth) && numel == 1,
        Operation::MatMul { lhs, rhs, m, k, n } => {
            &&& operand_ok(lhs, depth)
            &&& operand_ok(rhs, depth)
            &&& lhs.values@.len() == m * k
            &&& rhs.values@.len() == k * n
            &&& numel == m * n
        },
        Operation::Concat { inputs, placements, .. } => placed_ok(inputs@, placements@, numel, depth),
        Operation::Stack { inputs, placements, .. } => placed_ok(inputs@, placements@, numel, depth),
        Operation::Gather { input, index_map } => operand_ok(input, depth) && maps_into(
            index_map@,
            numel,
            input.values@.len(),
        ),
    }
}

/// A well-formed node: its gradient slot holds gradients of its own length
/// and its operation is consistent.
pub open spec fn node_ok<T>(n: Node<T>) -> bool
    decreases n.depth, 3int,
{
    &&& n.grad.predicate() == GradientLength { len: n.numel }
    &&& op_ok(n.op, n.numel as nat, n.depth)
}

/// `a` takes part in differentiation through the node `m`.
pub open spec fn operand_feeds<T>(a: Operand<T>, m: Node<T>) -> bool {
    a.node matches Some(r) && *r == m
}

/// `m` is the node of an input of `op`.
pub open spec fn feeds<T>(op: Operation<T>, m: Node<T>) -> bool {
    match op {
        Operation::Leaf => false,
        Operation::Add { lhs, rhs, .. } => operand_feeds(lhs, m) || operand_feeds(rhs, m),
        Operation::Sub { lhs, rhs, .. } => operand_feeds(lhs, m) || operand_feeds(rhs, m),
        Operation::Mul { lhs, rhs, .. } => operand_feeds(lhs, m) || operand_feeds(rhs, m),
        Operation::Div { lhs, rhs, .. } => operand_feeds(lhs, m) || operand_feeds(rhs, m),
        Operation::Sum { input } => operand_feeds(input, m),
        Operation::MatMul { lhs, rhs, .. } => operand_feeds(lhs, m) || operand_feeds(rhs, m),
        Operation::Concat { inputs, .. } => exists|i: int|
            0 <= i < inputs@.len() && operand_feeds(#[trigger] inputs@[i], m),
        Operation::Stack { inputs, .. } => exists|i: int|
            0 <= i < inputs@.len() && operand_feeds(#[trigger] inputs@[i], m),
        Operation::Gather { input, .. } => operand_feeds(input, m),
    }
}

/// `x` is `n` or one of the nodes `n` was computed from, directly or not.
pub open spec fn reaches<T>(n: Node<T>, x: Node<T>) -> bool
    decreases n.depth,
{
    x == n || exists|m: Node<T>| #[trigger] feeds(n.op, m) && m.depth < n.depth && reaches(m, x)
}

impl<T> Node<T> {
    /// A node for a result of `numel` elements computed by `op` at depth
    /// `depth`.
    pub(crate) fn new(op: Operation<T>, numel: usize, depth: usize) -> (n: Node<T>)
        requires
            op_ok(op, numel as nat, depth),
        ensures
            node_ok(n),
            n.op == op,
            n.numel == numel,
            n.depth == depth,
    {
        let grad = InvCell::new(None, Ghost(GradientLength { len: numel }));
        let mark = InvCell::new(None, Ghost(AnyMark));
        Node { op, numel, depth, grad, mark }
    }
}

} // verus!
