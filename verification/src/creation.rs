//! Constructors of tensors.

use vstd::prelude::*;

use crate::error::{TorshError, is_invalid_argument};
use crate::shape::shape_numel;
use crate::tensor::{Tensor, DeviceType};

verus! {

/// Builds a tensor from a row-major buffer and a borrowed shape on `device`;
/// an invalid argument where the buffer length differs from the number of
/// elements the shape describes.
pub fn from_vec<T>(data: Vec<T>, shape: &[usize], device: DeviceType) -> (r: Result<Tensor<T>, TorshError>)
    ensures
        r is Ok <==> data@.len() == shape_numel(shape@),
        r matches Ok(t) ==> t.values() == data@ && t.dims() == shape@ && !t.tracks_gradient(),
        r matches Err(e) ==> is_invalid_argument(e),
{
    Tensor::from_data(data, crate::shape::copy_dims(shape), device)
}

} // verus!
