//! The shapes a single-layer LSTM with a linear read-out must have to be
//! trained on a batch of windows.

use vstd::prelude::*;
use vstd::std_specs::hash::{obeys_key_model, builds_valid_hashers, contains_borrowed_key, maps_borrowed_key_to_value};
use std::collections::HashMap;
use std::collections::hash_map::RandomState;

use crate::error::{TorshError, is_invalid_argument};
use crate::shape::copy_dims;
use crate::tensor::{Tensor, copy_values};

verus! {

/// The sizes of a batch of training windows and of their targets.
#[derive(Debug, Clone, Copy, PartialEq, Eq, Structural)]
pub struct WindowDims {
    /// Number of windows.
    pub batch: usize,
    /// Steps per window.
    pub seq_len: usize,
    /// Features per step.
    pub input_size: usize,
    /// Target features per window.
    pub out_features: usize,
}

/// Why the shapes of an LSTM training problem do not fit together.
#[derive(Debug)]
pub enum LstmShapeError {
    /// The inputs are not `[batch, seq_len, input_size]`.
    Inputs { dims: Vec<usize> },
    /// The targets are not `[batch, out_features]` for the inputs' batch.
    Targets { dims: Vec<usize> },
    /// There is no window, or a window has no step.
    EmptyWindow,
    /// The input weight is not `[4 * hidden, input_size]`.
    InputWeight { shape: Vec<usize>, hidden: usize, input_size: usize },
    /// The read-out weight is not `[hidden, out_features]`.
    ReadoutWeight { shape: Vec<usize>, hidden: usize, out_features: usize },
}

/// `shape` is the shape of a `rows x cols` matrix.
pub open spec fn is_matrix(shape: Seq<usize>, rows: int, cols: int) -> bool {
    shape.len() == 2 && shape[0] == rows && shape[1] == cols
}

/// Checks, in this order, that the inputs are `[batch, seq_len, input_size]`,
/// that the targets are `[batch, out_features]`, and that there is at least
/// one window of at least one step; reports the first check that fails.
pub fn lstm_window_dims(inputs: &[usize], targets: &[usize]) -> (r: Result<WindowDims, LstmShapeError>)
    ensures
        inputs@.len() != 3 ==> (r matches Err(LstmShapeError::Inputs { dims }) && dims@ == inputs@),
        inputs@.len() == 3 && (targets@.len() != 2 || targets@[0] != inputs@[0]) ==> (r matches Err(
            LstmShapeError::Targets { dims },
        ) && dims@ == targets@),
        inputs@.len() == 3 && targets@.len() == 2 && targets@[0] == inputs@[0] && (inputs@[0] == 0
            || inputs@[1] == 0) ==> (r matches Err(LstmShapeError::EmptyWindow)),
        r is Ok <==> (inputs@.len() == 3 && targets@.len() == 2 && targets@[0] == inputs@[0]
            && inputs@[0] > 0 && inputs@[1] > 0),
        r matches Ok(d) ==> inputs@ == seq![d.batch, d.seq_len, d.input_size] && targets@ == seq![
            d.batch,
            d.out_features,
        ],
{
    if inputs.len() != 3 {
        return Err(LstmShapeError::Inputs { dims: copy_dims(inputs) });
    }
    let batch = inputs[0];
    let seq_len = inputs[1];
    let input_size = inputs[2];
    if targets.len() != 2 || targets[0] != batch {
        return Err(LstmShapeError::Targets { dims: copy_dims(targets) });
    }
    let out_features = targets[1];
    if batch == 0 || seq_len == 0 {
        return Err(LstmShapeError::EmptyWindow);
    }
    proof {
        assert(inputs@ =~= seq![batch, seq_len, input_size]);
        assert(targets@ =~= seq![batch, out_features]);
    }
    Ok(WindowDims { batch, seq_len, input_size, out_features })
}

/// The number of hidden units, the second extent of the recurrent weight,
/// once the input weight is checked to be `[4 * hidden, input_size]` and
/// then the read-out weight to be `[hidden, out_features]`; reports the
/// first check that fails.
pub fn lstm_hidden_size(
    weight_ih: &[usize],
    weight_hh: &[usize],
    weight_out: &[usize],
    input_size: usize,
    out_features: usize,
) -> (r: Result<usize, LstmShapeError>)
    requires
        weight_hh@.len() >= 2,
    ensures
        !is_matrix(weight_ih@, 4 * weight_hh@[1], input_size as int) ==> (r matches Err(
            LstmShapeError::InputWeight { shape, hidden, input_size: i },
        ) && shape@ == weight_ih@ && hidden == weight_hh@[1] && i == input_size),
        is_matrix(weight_ih@, 4 * weight_hh@[1], input_size as int) && !is_matrix(
            weight_out@,
            weight_hh@[1] as int,
            out_features as int,
        ) ==> (r matches Err(LstmShapeError::ReadoutWeight { shape, hidden, out_features: o })
            && shape@ == weight_out@ && hidden == weight_hh@[1] && o == out_features),
        r is Ok <==> (is_matrix(weight_ih@, 4 * weight_hh@[1], input_size as int) && is_matrix(
            weight_out@,
            weight_hh@[1] as int,
            out_features as int,
        )),
        r matches Ok(h) ==> h == weight_hh@[1],
{
    let hidden = weight_hh[1];
    if weight_ih.len() != 2 || weight_ih[0] % 4 != 0 || weight_ih[0] / 4 != hidden || weight_ih[1]
        != input_size {
        return Err(
            LstmShapeError::InputWeight { shape: copy_dims(weight_ih), hidden, input_size },
        );
    }
    if weight_out.len() != 2 || weight_out[0] != hidden || weight_out[1] != out_features {
        return Err(
            LstmShapeError::ReadoutWeight { shape: copy_dims(weight_out), hidden, out_features },
        );
    }
    Ok(hidden)
}

/// The values and extents of the tensor `params` holds under `name`; an
/// invalid argument where it holds none. What a lookup finds is stated for
/// key types whose hashing and equality follow their model, as for every
/// key type vstd describes.
pub fn load_parameter<T: Copy>(params: &HashMap<String, Tensor<T>>, name: &str) -> (r: Result<
    (Vec<T>, Vec<usize>),
    TorshError,
>)
    ensures
        r matches Err(e) ==> is_invalid_argument(e),
        obeys_key_model::<String>() && builds_valid_hashers::<RandomState>() ==> match r {
            Ok((v, d)) => exists|t: Tensor<T>|
                #[trigger] maps_borrowed_key_to_value(params@, name, t) && v@ == t.values() && d@
                    == t.dims(),
            Err(_) => !contains_borrowed_key(params@, name),
        },
{
    match params.get(name) {
        Some(t) => {
            let values = copy_values(t.data_slice());
            let dims = copy_dims(t.dims_slice());
            Ok((values, dims))
        },
        None => Err(TorshError::InvalidArgument(String::from_str("LSTM parameter is missing"))),
    }
}

} // verus!
