use vstd::prelude::*;

use crate::error::{TorshError, is_shape_mismatch, is_invalid_argument};
use crate::shape::{shape_numel, checked_numel, copy_dims, dims_equal, lemma_numel_single};
use crate::graph::{Node, Operation, Operand, share, op_ok, node_ok};
use crate::ops::records_identity;
use std::rc::Rc;

verus! {

/// Where a tensor's elements live. This library computes on the CPU.
#[derive(Debug, Clone, Copy, PartialEq, Eq, Structural)]
pub enum DeviceType {
    /// Main memory, computed on the CPU.
    Cpu,
}

/// The extents of a tensor's axes.
#[derive(Debug, Clone, PartialEq, Eq)]
pub struct Shape {
    dims: Vec<usize>,
}

impl Shape {
    /// The extents.
    pub closed spec fn extents(self) -> Seq<usize> {
        self.dims@
    }

    /// The extents.
    pub fn dims(&self) -> (d: &[usize])
        ensures
            d@ == self.extents(),
    {
        self.dims.as_slice()
    }
}

/// A dense, row-major tensor: a flat buffer of elements together with the
/// extents of its axes, the device it lives on, and, where it takes part in
/// differentiation, its node in the computation graph. The buffer always
/// holds exactly as many elements as the extents describe; copies of a
/// tensor share its graph node and so its gradient.
pub struct Tensor<T> {
    data: Vec<T>,
    shape: Vec<usize>,
    device: DeviceType,
    node: Option<Rc<Node<T>>>,
}

/// The recorded input `a` is the tensor `t`: its node, values and extents.
pub open spec fn operand_of<T>(a: Operand<T>, t: Tensor<T>) -> bool {
    &&& a.node == t.graph_node()
    &&& a.values@ == t.values()
    &&& a.dims@ == t.dims()
}

impl<T> Tensor<T> {
    #[verifier::type_invariant]
    spec fn well_formed(self) -> bool {
        &&& self.data@.len() == shape_numel(self.shape@)
        &&& self.node matches Some(n) ==> n.numel == self.data@.len() && node_ok(*n)
    }

    /// Whether the tensor takes part in differentiation.
    pub closed spec fn tracks_gradient(self) -> bool {
        self.node is Some
    }

    /// The tensor's graph node, where it takes part in differentiation.
    pub closed spec fn graph_node(self) -> Option<Rc<Node<T>>> {
        self.node
    }

    /// The operation the tensor's graph node records, where it has one.
    pub open spec fn recorded_operation(self) -> Option<Operation<T>> {
        match self.graph_node() {
            Some(n) => Some(n.op),
            None => None,
        }
    }

    /// The elements in row-major order.
    pub closed spec fn values(self) -> Seq<T> {
        self.data@
    }

    /// The extents of the axes.
    pub closed spec fn dims(self) -> Seq<usize> {
        self.shape@
    }

    /// A tensor always holds as many elements as its shape describes.
    pub fn numel(&self) -> (n: usize)
        ensures
            n == self.values().len(),
            n == shape_numel(self.dims()),
    {
        proof {
            use_type_invariant(self);
        }
        self.data.len()
    }

    /// Number of axes.
    pub fn ndim(&self) -> (n: usize)
        ensures
            n == self.dims().len(),
    {
        self.shape.len()
    }

    /// The extents of the axes.
    pub fn shape(&self) -> (s: Shape)
        ensures
            s.extents() == self.dims(),
    {
        Shape { dims: copy_dims(self.shape.as_slice()) }
    }

    /// A copy of the extents of the axes.
    pub(crate) fn shape_vec(&self) -> (s: Vec<usize>)
        ensures
            s@ == self.dims(),
    {
        copy_dims(self.shape.as_slice())
    }

    /// The device the elements live on.
    pub fn device(&self) -> (d: DeviceType)
        ensures
            d == DeviceType::Cpu,
    {
        self.device
    }

    /// Whether the tensor takes part in differentiation.
    pub fn requires_grad(&self) -> (b: bool)
        ensures
            b == self.tracks_gradient(),
    {
        self.node.is_some()
    }

    /// The same tensor, taking part in differentiation as a leaf where `flag`
    /// is set (keeping its node if it already has one), and detached from any
    /// computation graph otherwise.
    pub fn requires_grad_(self, flag: bool) -> (r: Self)
        ensures
            r.values() == self.values(),
            r.dims() == self.dims(),
            r.tracks_gradient() == flag,
    {
        proof {
            use_type_invariant(&self);
        }
        let Tensor { data, shape, device, node } = self;
        if flag {
            match node {
                Some(n) => Tensor { data, shape, device, node: Some(n) },
                None => {
                    let numel = data.len();
                    let leaf = Node::new(Operation::Leaf, numel, 0);
                    Tensor { data, shape, device, node: Some(Rc::new(leaf)) }
                },
            }
        } else {
            Tensor { data, shape, device, node: None }
        }
    }

    /// The gradient accumulated for this tensor by earlier backward passes,
    /// if any; it has the tensor's extents and takes no part in
    /// differentiation itself.
    pub fn grad(&self) -> (r: Option<Tensor<T>>)
        where
            T: Copy,
        ensures
            r matches Some(t) ==> t.dims() == self.dims() && !t.tracks_gradient(),
            !self.tracks_gradient() ==> r is None,
    {
        proof {
            use_type_invariant(self);
        }
        match &self.node {
            None => None,
            Some(n) => {
                let current = n.grad.replace(None);
                match current {
                    None => None,
                    Some(g) => {
                        let copy = copy_values(g.as_slice());
                        let _ = n.grad.replace(Some(g));
                        Some(
                            Tensor {
                                data: copy,
                                shape: copy_dims(self.shape.as_slice()),
                                device: self.device,
                                node: None,
                            },
                        )
                    },
                }
            },
        }
    }

    /// Depth of the tensor's graph node (0 where it has none).
    pub closed spec fn graph_depth(self) -> nat {
        match self.node {
            Some(n) => n.depth as nat,
            None => 0,
        }
    }

    /// Depth of the tensor's graph node (0 where it has none).
    pub(crate) fn depth(&self) -> (d: usize)
        ensures
            d == self.graph_depth(),
    {
        match &self.node {
            Some(n) => n.depth,
            None => 0,
        }
    }

    /// Another handle to the tensor's graph node, where it has one.
    pub fn node_handle(&self) -> (r: Option<Rc<Node<T>>>)
        ensures
            r == self.graph_node(),
            r is Some <==> self.tracks_gradient(),
            r matches Some(n) ==> n.numel == self.values().len() && node_ok(*n),
    {
        proof {
            use_type_invariant(self);
        }
        match &self.node {
            Some(n) => Some(share(n)),
            None => None,
        }
    }

    /// The tensor as an input of a recorded operation.
    pub(crate) fn operand(&self) -> (a: Operand<T>)
        where
            T: Copy,
        ensures
            a.values@ == self.values(),
            a.dims@ == self.dims(),
            a.values@.len() == shape_numel(a.dims@),
            a.node is Some <==> self.tracks_gradient(),
            a.node == self.graph_node(),
            operand_of(a, *self),
            a.node matches Some(n) ==> n.depth == self.graph_depth() && n.numel == self.values().len()
                && node_ok(*n),
    {
        proof {
            use_type_invariant(self);
        }
        Operand {
            node: match &self.node {
                Some(n) => Some(share(n)),
                None => None,
            },
            values: copy_values(self.data.as_slice()),
            dims: copy_dims(self.shape.as_slice()),
        }
    }

    /// A result computed by `op` from inputs no deeper than `below`: it takes
    /// part in differentiation, one level deeper, unless `below` is already
    /// the deepest level.
    pub(crate) fn recorded(data: Vec<T>, shape: Vec<usize>, op: Operation<T>, below: usize) -> (t: Tensor<T>)
        requires
            data@.len() == shape_numel(shape@),
            below < usize::MAX ==> op_ok(op, data@.len(), (below + 1) as usize),
        ensures
            t.values() == data@,
            t.dims() == shape@,
            t.tracks_gradient() == (below < usize::MAX),
            below < usize::MAX ==> t.recorded_operation() == Some(op),
    {
        if below < usize::MAX {
            let numel = data.len();
            let node = Node::new(op, numel, below + 1);
            Tensor { data, shape, device: DeviceType::Cpu, node: Some(Rc::new(node)) }
        } else {
            Tensor { data, shape, device: DeviceType::Cpu, node: None }
        }
    }

    /// Assembles a tensor whose buffer already matches its extents.
    pub(crate) fn from_parts(data: Vec<T>, shape: Vec<usize>) -> (t: Tensor<T>)
        requires
            data@.len() == shape_numel(shape@),
        ensures
            t.values() == data@,
            t.dims() == shape@,
            !t.tracks_gradient(),
    {
        Tensor { data, shape, device: DeviceType::Cpu, node: None }
    }

    /// The row-major buffer.
    pub(crate) fn data_slice(&self) -> (s: &[T])
        ensures
            s@ == self.values(),
            s@.len() == shape_numel(self.dims()),
    {
        proof {
            use_type_invariant(self);
        }
        self.data.as_slice()
    }

    /// The extents of the axes, borrowed.
    pub(crate) fn dims_slice(&self) -> (s: &[usize])
        ensures
            s@ == self.dims(),
    {
        self.shape.as_slice()
    }

    /// Builds a tensor from a row-major buffer and the extents of its axes;
    /// fails when the buffer length differs from the number of elements the
    /// extents describe.
    pub fn from_data(data: Vec<T>, shape: Vec<usize>, device: DeviceType) -> (r: Result<Tensor<T>, TorshError>)
        ensures
            r is Ok <==> data@.len() == shape_numel(shape@),
            r matches Ok(t) ==> t.values() == data@ && t.dims() == shape@ && !t.tracks_gradient(),
            r matches Err(e) ==> is_invalid_argument(e),
    {
        let len = data.len();
        match checked_numel(shape.as_slice()) {
            Some(n) => {
                if n == len {
                    Ok(Tensor { data, shape, device, node: None })
                } else {
                    Err(TorshError::InvalidArgument(
                        String::from_str("data length does not match the number of elements of the shape"),
                    ))
                }
            },
            None => Err(TorshError::InvalidArgument(
                String::from_str("the shape describes more elements than can be addressed"),
            )),
        }
    }

    /// Builds a tensor from a row-major buffer and a borrowed shape; fails
    /// exactly where [`Tensor::from_data`] fails.
    pub fn from_vec(data: Vec<T>, shape: &[usize]) -> (r: Result<Tensor<T>, TorshError>)
        ensures
            r is Ok <==> data@.len() == shape_numel(shape@),
            r matches Ok(t) ==> t.values() == data@ && t.dims() == shape@ && !t.tracks_gradient(),
            r matches Err(e) ==> is_invalid_argument(e),
    {
        Self::from_data(data, copy_dims(shape), DeviceType::Cpu)
    }

    /// Reads the element at a row-major position.
    pub fn get_flat(&self, index: usize) -> (r: Result<T, TorshError>)
        where
            T: Copy,
        ensures
            r is Ok <==> index < self.values().len(),
            r matches Ok(v) ==> v == self.values()[index as int],
            r matches Err(e) ==> is_invalid_argument(e),
    {
        if index < self.data.len() {
            Ok(self.data[index])
        } else {
            Err(TorshError::InvalidArgument(String::from_str("flat index out of range")))
        }
    }

    /// The elements in row-major order.
    pub fn to_vec(&self) -> (r: Result<Vec<T>, TorshError>)
        where
            T: Copy,
        ensures
            r matches Ok(v) && v@ == self.values(),
    {
        Ok(copy_values(self.data.as_slice()))
    }
}

impl<T: Copy> Tensor<T> {
    /// Combines every element with the same second operand `value` using `op`,
    /// keeping the shape.
    pub(crate) fn map_with_scalar<U, F: Fn(T, T) -> U>(&self, value: T, op: F) -> (r: Tensor<U>)
        requires
            forall|x: T, y: T| call_requires(op, (x, y)),
        ensures
            r.dims() == self.dims(),
            r.values().len() == self.values().len(),
            forall|i: int|
                0 <= i < self.values().len() ==> call_ensures(
                    op,
                    (self.values()[i], value),
                    #[trigger] r.values()[i],
                ),
    {
        proof {
            use_type_invariant(self);
        }
        let n = self.data.len();
        let mut out: Vec<U> = Vec::new();
        let mut i: usize = 0;
        while i < n
            invariant
                n == self.data@.len(),
                i <= n,
                out@.len() == i,
                forall|x: T, y: T| call_requires(op, (x, y)),
                forall|j: int|
                    0 <= j < i ==> call_ensures(op, (self.data@[j], value), #[trigger] out@[j]),
            decreases n - i,
        {
            let v = op(self.data[i], value);
            out.push(v);
            i = i + 1;
        }
        Tensor { data: out, shape: copy_dims(self.shape.as_slice()), device: self.device, node: None }
    }

    /// Combines corresponding elements of two tensors of the same shape with
    /// `op`; reports a shape mismatch otherwise.
    pub(crate) fn zip_elements<U, F: Fn(T, T) -> U>(&self, other: &Self, op: F) -> (r: Result<
        Tensor<U>,
        TorshError,
    >)
        requires
            forall|x: T, y: T| call_requires(op, (x, y)),
        ensures
            r is Ok <==> self.dims() == other.dims(),
            r matches Err(e) ==> is_shape_mismatch(e, self.dims(), other.dims()),
            r matches Ok(t) ==> t.dims() == self.dims() && t.values().len() == self.values().len()
                && forall|i: int|
                0 <= i < self.values().len() ==> call_ensures(
                    op,
                    (self.values()[i], other.values()[i]),
                    #[trigger] t.values()[i],
                ),
    {
        proof {
            use_type_invariant(self);
            use_type_invariant(other);
        }
        if !dims_equal(self.shape.as_slice(), other.shape.as_slice()) {
            return Err(TorshError::ShapeMismatch { expected: self.shape_vec(), got: other.shape_vec() });
        }
        let n = self.data.len();
        let mut out: Vec<U> = Vec::new();
        let mut i: usize = 0;
        while i < n
            invariant
                n == self.data@.len(),
                n == other.data@.len(),
                i <= n,
                out@.len() == i,
                forall|x: T, y: T| call_requires(op, (x, y)),
                forall|j: int|
                    0 <= j < i ==> call_ensures(
                        op,
                        (self.data@[j], other.data@[j]),
                        #[trigger] out@[j],
                    ),
            decreases n - i,
        {
            let v = op(self.data[i], other.data[i]);
            out.push(v);
            i = i + 1;
        }
        Ok(Tensor { data: out, shape: copy_dims(self.shape.as_slice()), device: self.device, node: None })
    }
}

impl<T: Copy> Tensor<T> {
    /// The same elements viewed as a one-dimensional tensor of `numel`
    /// elements; never fails. The result takes part in differentiation
    /// where `self` does, its gradient flowing back element for element.
    pub fn flatten(&self) -> (r: Result<Self, TorshError>)
        ensures
            r matches Ok(t) && t.values() == self.values() && t.dims() == seq![
                self.values().len() as usize,
            ],
            r matches Ok(t) ==> t.tracks_gradient() == (self.tracks_gradient() && self.graph_depth()
                < usize::MAX),
            r matches Ok(t) ==> (t.tracks_gradient() ==> records_identity(t, *self)),
    {
        proof {
            use_type_invariant(self);
        }
        let n = self.data.len();
        let mut shape: Vec<usize> = Vec::new();
        shape.push(n);
        proof {
            assert(shape@ =~= seq![n]);
            lemma_numel_single(n);
        }
        let map = crate::kernels::identity_map(n);
        Ok(self.record_gather(copy_values(self.data.as_slice()), map, shape))
    }

    /// Where `condition` holds, the element of `self`, elsewhere the element of
    /// `other`. All three tensors must have the same shape; otherwise a shape
    /// mismatch is reported with the extents of `self` and of `condition`.
    pub fn where_tensor(&self, condition: &Tensor<bool>, other: &Self) -> (r: Result<
        Self,
        TorshError,
    >)
        ensures
            r is Ok <==> (self.dims() == condition.dims() && self.dims() == other.dims()),
            r matches Err(e) ==> is_shape_mismatch(e, self.dims(), condition.dims()),
            r matches Ok(t) ==> t.dims() == self.dims() && t.values().len() == self.values().len()
                && forall|i: int|
                0 <= i < t.values().len() ==> #[trigger] t.values()[i] == if condition.values()[i] {
                    self.values()[i]
                } else {
                    other.values()[i]
                },
    {
        proof {
            use_type_invariant(self);
            use_type_invariant(condition);
            use_type_invariant(other);
        }
        if !dims_equal(self.shape.as_slice(), condition.shape.as_slice()) || !dims_equal(
            self.shape.as_slice(),
            other.shape.as_slice(),
        ) {
            return Err(
                TorshError::ShapeMismatch { expected: self.shape_vec(), got: condition.shape_vec() },
            );
        }
        let n = self.data.len();
        let mut out: Vec<T> = Vec::new();
        let mut i: usize = 0;
        while i < n
            invariant
                n == self.data@.len(),
                n == condition.data@.len(),
                n == other.data@.len(),
                i <= n,
                out@.len() == i,
                forall|j: int|
                    0 <= j < i ==> #[trigger] out@[j] == if condition.data@[j] {
                        self.data@[j]
                    } else {
                        other.data@[j]
                    },
            decreases n - i,
        {
            if condition.data[i] {
                out.push(self.data[i]);
            } else {
                out.push(other.data[i]);
            }
            i = i + 1;
        }
        Ok(Tensor { data: out, shape: copy_dims(self.shape.as_slice()), device: self.device, node: None })
    }
}

impl<T: Copy> Tensor<T> {
    /// Overwrites the elements with those of `src`, which must have the same
    /// shape (a shape mismatch otherwise, leaving `self` unchanged). Other
    /// copies of `self` keep their elements.
    pub fn copy_(&mut self, src: &Self) -> (r: Result<(), TorshError>)
        ensures
            r is Ok <==> old(self).dims() == src.dims(),
            r matches Err(e) ==> is_shape_mismatch(e, old(self).dims(), src.dims()),
            final(self).dims() == old(self).dims(),
            final(self).graph_node() == old(self).graph_node(),
            r is Ok ==> final(self).values() == src.values(),
            r is Err ==> final(self).values() == old(self).values(),
    {
        proof {
            use_type_invariant(&*self);
            use_type_invariant(src);
        }
        if !dims_equal(self.shape.as_slice(), src.shape.as_slice()) {
            return Err(TorshError::ShapeMismatch { expected: self.shape_vec(), got: src.shape_vec() });
        }
        self.data = copy_values(src.data.as_slice());
        Ok(())
    }

    /// Overwrites the elements with those of `src`; the same operation as
    /// [`Tensor::copy_`].
    pub fn copy_from(&mut self, src: &Self) -> (r: Result<(), TorshError>)
        ensures
            r is Ok <==> old(self).dims() == src.dims(),
            r matches Err(e) ==> is_shape_mismatch(e, old(self).dims(), src.dims()),
            final(self).dims() == old(self).dims(),
            final(self).graph_node() == old(self).graph_node(),
            r is Ok ==> final(self).values() == src.values(),
            r is Err ==> final(self).values() == old(self).values(),
    {
        self.copy_(src)
    }

    /// Overwrites the elements, in row-major order, with `values`, which must
    /// hold exactly as many elements as the tensor (an invalid argument
    /// otherwise, leaving `self` unchanged). Other copies of `self` keep their
    /// elements.
    pub fn set_data(&mut self, values: &[T]) -> (r: Result<(), TorshError>)
        ensures
            r is Ok <==> values@.len() == old(self).values().len(),
            r matches Err(e) ==> is_invalid_argument(e),
            final(self).dims() == old(self).dims(),
            final(self).graph_node() == old(self).graph_node(),
            r is Ok ==> final(self).values() == values@,
            r is Err ==> final(self).values() == old(self).values(),
    {
        proof {
            use_type_invariant(&*self);
        }
        if values.len() != self.data.len() {
            return Err(
                TorshError::InvalidArgument(
                    String::from_str("the number of values does not match the number of elements"),
                ),
            );
        }
        self.data = copy_values(values);
        Ok(())
    }

    /// The `len` elements at row-major positions `start .. start + len`;
    /// an invalid argument where that range runs past the last element.
    pub fn get_slice(&self, start: usize, len: usize) -> (r: Result<Vec<T>, TorshError>)
        ensures
            r is Ok <==> start + len <= self.values().len(),
            r matches Ok(v) ==> v@ == self.values().subrange(start as int, start + len),
            r matches Err(e) ==> is_invalid_argument(e),
    {
        proof {
            use_type_invariant(self);
        }
        let n = self.data.len();
        if start > n || len > n - start {
            return Err(TorshError::InvalidArgument(String::from_str("slice range out of bounds")));
        }
        let mut out: Vec<T> = Vec::new();
        let mut i: usize = start;
        while i < start + len
            invariant
                start <= i <= start + len,
                start + len <= n,
                n == self.data@.len(),
                out@ == self.data@.subrange(start as int, i as int),
            decreases start + len - i,
        {
            out.push(self.data[i]);
            i = i + 1;
            assert(out@ =~= self.data@.subrange(start as int, i as int));
        }
        Ok(out)
    }
}

impl<T: Copy> Clone for Tensor<T> {
    /// A tensor with the same elements and extents.
    fn clone(&self) -> (r: Self)
        ensures
            r.values() == self.values(),
            r.dims() == self.dims(),
            r.graph_node() == self.graph_node(),
    {
        proof {
            use_type_invariant(self);
        }
        Tensor {
            data: copy_values(self.data.as_slice()),
            shape: copy_dims(self.shape.as_slice()),
            device: self.device,
            node: match &self.node {
                Some(n) => Some(share(n)),
                None => None,
            },
        }
    }
}

/// Copy of a buffer of `Copy` elements.
pub fn copy_values<T: Copy>(a: &[T]) -> (r: Vec<T>)
    ensures
        r@ == a@,
{
    let mut out: Vec<T> = Vec::new();
    let n = a.len();
    let mut i: usize = 0;
    while i < n
        invariant
            n == a@.len(),
            i <= n,
            out@ == a@.take(i as int),
        decreases n - i,
    {
        out.push(a[i]);
        i = i + 1;
        assert(out@ =~= a@.take(i as int));
    }
    assert(a@.take(n as int) =~= a@);
    out
}

} // verus!
