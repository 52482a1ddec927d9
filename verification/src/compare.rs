use vstd::prelude::*;
use vstd::std_specs::cmp::PartialOrdIs;
use vstd::std_specs::cmp::PartialEqIs;
use vstd::std_specs::cmp::PartialOrdSpec;
use vstd::std_specs::cmp::PartialEqSpec;

use crate::error::{TorshError, is_shape_mismatch};
use crate::tensor::Tensor;

verus! {

/// `a > b` for one pair of elements.
fn greater<T: PartialOrd>(a: T, b: T) -> (c: bool)
    ensures
        T::obeys_partial_cmp_spec() ==> c == a.is_gt(&b),
{
    a > b
}

/// `a < b` for one pair of elements.
fn less<T: PartialOrd>(a: T, b: T) -> (c: bool)
    ensures
        T::obeys_partial_cmp_spec() ==> c == a.is_lt(&b),
{
    a < b
}

/// `a >= b` for one pair of elements.
fn greater_or_equal<T: PartialOrd>(a: T, b: T) -> (c: bool)
    ensures
        T::obeys_partial_cmp_spec() ==> c == a.is_ge(&b),
{
    a >= b
}

/// `a <= b` for one pair of elements.
fn less_or_equal<T: PartialOrd>(a: T, b: T) -> (c: bool)
    ensures
        T::obeys_partial_cmp_spec() ==> c == a.is_le(&b),
{
    a <= b
}

/// `a == b` for one pair of elements.
fn equal<T: PartialEq>(a: T, b: T) -> (c: bool)
    ensures
        T::obeys_eq_spec() ==> c == a.is_eq(&b),
{
    a == b
}

/// `a != b` for one pair of elements.
fn not_equal<T: PartialEq>(a: T, b: T) -> (c: bool)
    ensures
        T::obeys_eq_spec() ==> c == a.is_ne(&b),
{
    a != b
}

impl<T: PartialOrd + Copy> Tensor<T> {
    /// Element-wise greater-than of two tensors of the same shape.
    pub fn gt(&self, other: &Self) -> (r: Result<Tensor<bool>, TorshError>)
        ensures
            r is Ok <==> self.dims() == other.dims(),
            r matches Err(e) ==> is_shape_mismatch(e, self.dims(), other.dims()),
            r matches Ok(t) ==> t.dims() == self.dims() && t.values().len() == self.values().len(),
            r matches Ok(t) ==> T::obeys_partial_cmp_spec() ==> forall|i: int|
                0 <= i < t.values().len() ==> t.values()[i] == self.values()[i].is_gt(
                    &other.values()[i],
                ),
    {
        self.zip_elements(other, greater::<T>)
    }

    /// Element-wise less-than of two tensors of the same shape.
    pub fn lt(&self, other: &Self) -> (r: Result<Tensor<bool>, TorshError>)
        ensures
            r is Ok <==> self.dims() == other.dims(),
            r matches Err(e) ==> is_shape_mismatch(e, self.dims(), other.dims()),
            r matches Ok(t) ==> t.dims() == self.dims() && t.values().len() == self.values().len(),
            r matches Ok(t) ==> T::obeys_partial_cmp_spec() ==> forall|i: int|
                0 <= i < t.values().len() ==> t.values()[i] == self.values()[i].is_lt(
                    &other.values()[i],
                ),
    {
        self.zip_elements(other, less::<T>)
    }

    /// Element-wise greater-than-or-equal of two tensors of the same shape.
    pub fn ge(&self, other: &Self) -> (r: Result<Tensor<bool>, TorshError>)
        ensures
            r is Ok <==> self.dims() == other.dims(),
            r matches Err(e) ==> is_shape_mismatch(e, self.dims(), other.dims()),
            r matches Ok(t) ==> t.dims() == self.dims() && t.values().len() == self.values().len(),
            r matches Ok(t) ==> T::obeys_partial_cmp_spec() ==> forall|i: int|
                0 <= i < t.values().len() ==> t.values()[i] == self.values()[i].is_ge(
                    &other.values()[i],
                ),
    {
        self.zip_elements(other, greater_or_equal::<T>)
    }

    /// Element-wise less-than-or-equal of two tensors of the same shape.
    pub fn le(&self, other: &Self) -> (r: Result<Tensor<bool>, TorshError>)
        ensures
            r is Ok <==> self.dims() == other.dims(),
            r matches Err(e) ==> is_shape_mismatch(e, self.dims(), other.dims()),
            r matches Ok(t) ==> t.dims() == self.dims() && t.values().len() == self.values().len(),
            r matches Ok(t) ==> T::obeys_partial_cmp_spec() ==> forall|i: int|
                0 <= i < t.values().len() ==> t.values()[i] == self.values()[i].is_le(
                    &other.values()[i],
                ),
    {
        self.zip_elements(other, less_or_equal::<T>)
    }

    /// Element-wise equality of two tensors of the same shape.
    pub fn eq(&self, other: &Self) -> (r: Result<Tensor<bool>, TorshError>)
        ensures
            r is Ok <==> self.dims() == other.dims(),
            r matches Err(e) ==> is_shape_mismatch(e, self.dims(), other.dims()),
            r matches Ok(t) ==> t.dims() == self.dims() && t.values().len() == self.values().len(),
            r matches Ok(t) ==> T::obeys_eq_spec() ==> forall|i: int|
                0 <= i < t.values().len() ==> t.values()[i] == self.values()[i].is_eq(
                    &other.values()[i],
                ),
    {
        self.zip_elements(other, equal::<T>)
    }

    /// Element-wise inequality of two tensors of the same shape.
    pub fn ne(&self, other: &Self) -> (r: Result<Tensor<bool>, TorshError>)
        ensures
            r is Ok <==> self.dims() == other.dims(),
            r matches Err(e) ==> is_shape_mismatch(e, self.dims(), other.dims()),
            r matches Ok(t) ==> t.dims() == self.dims() && t.values().len() == self.values().len(),
            r matches Ok(t) ==> T::obeys_eq_spec() ==> forall|i: int|
                0 <= i < t.values().len() ==> t.values()[i] == self.values()[i].is_ne(
                    &other.values()[i],
                ),
    {
        self.zip_elements(other, not_equal::<T>)
    }

    /// Element-wise equality against a single value; never fails.
    pub fn eq_scalar(&self, value: T) -> (r: Result<Tensor<bool>, TorshError>)
        ensures
            r matches Ok(t) && t.dims() == self.dims() && t.values().len() == self.values().len(),
            r matches Ok(t) ==> T::obeys_eq_spec() ==> forall|i: int|
                0 <= i < t.values().len() ==> t.values()[i] == self.values()[i].is_eq(&value),
    {
        Ok(self.map_with_scalar(value, equal::<T>))
    }

    /// Element-wise inequality against a single value; never fails.
    pub fn ne_scalar(&self, value: T) -> (r: Result<Tensor<bool>, TorshError>)
        ensures
            r matches Ok(t) && t.dims() == self.dims() && t.values().len() == self.values().len(),
            r matches Ok(t) ==> T::obeys_eq_spec() ==> forall|i: int|
                0 <= i < t.values().len() ==> t.values()[i] == self.values()[i].is_ne(&value),
    {
        Ok(self.map_with_scalar(value, not_equal::<T>))
    }

    /// Element-wise greater-than against a single value; never fails.
    pub fn gt_scalar(&self, value: T) -> (r: Result<Tensor<bool>, TorshError>)
        ensures
            r matches Ok(t) && t.dims() == self.dims() && t.values().len() == self.values().len(),
            r matches Ok(t) ==> T::obeys_partial_cmp_spec() ==> forall|i: int|
                0 <= i < t.values().len() ==> t.values()[i] == self.values()[i].is_gt(&value),
    {
        Ok(self.map_with_scalar(value, greater::<T>))
    }

    /// Element-wise less-than against a single value; never fails.
    pub fn lt_scalar(&self, value: T) -> (r: Result<Tensor<bool>, TorshError>)
        ensures
            r matches Ok(t) && t.dims() == self.dims() && t.values().len() == self.values().len(),
            r matches Ok(t) ==> T::obeys_partial_cmp_spec() ==> forall|i: int|
                0 <= i < t.values().len() ==> t.values()[i] == self.values()[i].is_lt(&value),
    {
        Ok(self.map_with_scalar(value, less::<T>))
    }

    /// Element-wise less-than-or-equal against a single value; never fails.
    pub fn le_scalar(&self, value: T) -> (r: Result<Tensor<bool>, TorshError>)
        ensures
            r matches Ok(t) && t.dims() == self.dims() && t.values().len() == self.values().len(),
            r matches Ok(t) ==> T::obeys_partial_cmp_spec() ==> forall|i: int|
                0 <= i < t.values().len() ==> t.values()[i] == self.values()[i].is_le(&value),
    {
        Ok(self.map_with_scalar(value, less_or_equal::<T>))
    }

    /// Element-wise greater-than-or-equal against a single value; never fails.
    pub fn ge_scalar(&self, value: T) -> (r: Result<Tensor<bool>, TorshError>)
        ensures
            r matches Ok(t) && t.dims() == self.dims() && t.values().len() == self.values().len(),
            r matches Ok(t) ==> T::obeys_partial_cmp_spec() ==> forall|i: int|
                0 <= i < t.values().len() ==> t.values()[i] == self.values()[i].is_ge(&value),
    {
        Ok(self.map_with_scalar(value, greater_or_equal::<T>))
    }
}

} // verus!
