use vstd::prelude::*;

use crate::error::{TorshError, is_shape_mismatch};
use crate::tensor::Tensor;

verus! {

fn both(a: bool, b: bool) -> (c: bool)
    ensures
        c == (a && b),
{
    a && b
}

fn either(a: bool, b: bool) -> (c: bool)
    ensures
        c == (a || b),
{
    a || b
}

fn exactly_one(a: bool, b: bool) -> (c: bool)
    ensures
        c == (a != b),
{
    a != b
}

impl Tensor<bool> {
    /// Element-wise logical AND of two tensors of the same shape.
    pub fn logical_and(&self, other: &Self) -> (r: Result<Self, TorshError>)
        ensures
            r is Ok <==> self.dims() == other.dims(),
            r matches Err(e) ==> is_shape_mismatch(e, self.dims(), other.dims()),
            r matches Ok(t) ==> t.dims() == self.dims() && t.values().len() == self.values().len()
                && forall|i: int|
                0 <= i < t.values().len() ==> #[trigger] t.values()[i] == (self.values()[i]
                    && other.values()[i]),
    {
        self.zip_elements(other, both)
    }

    /// Element-wise logical OR of two tensors of the same shape.
    pub fn logical_or(&self, other: &Self) -> (r: Result<Self, TorshError>)
        ensures
            r is Ok <==> self.dims() == other.dims(),
            r matches Err(e) ==> is_shape_mismatch(e, self.dims(), other.dims()),
            r matches Ok(t) ==> t.dims() == self.dims() && t.values().len() == self.values().len()
                && forall|i: int|
                0 <= i < t.values().len() ==> #[trigger] t.values()[i] == (self.values()[i]
                    || other.values()[i]),
    {
        self.zip_elements(other, either)
    }

    /// Element-wise logical XOR of two tensors of the same shape.
    pub fn logical_xor(&self, other: &Self) -> (r: Result<Self, TorshError>)
        ensures
            r is Ok <==> self.dims() == other.dims(),
            r matches Err(e) ==> is_shape_mismatch(e, self.dims(), other.dims()),
            r matches Ok(t) ==> t.dims() == self.dims() && t.values().len() == self.values().len()
                && forall|i: int|
                0 <= i < t.values().len() ==> #[trigger] t.values()[i] == (self.values()[i]
                    != other.values()[i]),
    {
        self.zip_elements(other, exactly_one)
    }
}

} // verus!
