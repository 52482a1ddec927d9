use vstd::prelude::*;
use vstd::std_specs::cmp::PartialOrdIs;
use vstd::std_specs::cmp::PartialOrdSpec;

use crate::error::{TorshError, is_invalid_argument};
use crate::text::str_equals;
use crate::tensor::Tensor;

verus! {

/// The rectified value of `x` against the floor `zero`.
fn rectify<T: PartialOrd>(x: T, zero: T) -> (r: T)
    ensures
        T::obeys_partial_cmp_spec() ==> r == if x.is_gt(&zero) {
            x
        } else {
            zero
        },
{
    if x > zero {
        x
    } else {
        zero
    }
}

pub(crate) fn produce<T, F: Fn() -> T>(f: F) -> (r: T)
    requires
        call_requires(f, ()),
    ensures
        call_ensures(f, (), r),
{
    f()
}

/// Rectified linear unit: each element where it exceeds zero, zero elsewhere.
pub fn relu<T: PartialOrd + Copy + Default>(input: &Tensor<T>) -> (r: Result<Tensor<T>, TorshError>)
    ensures
        r matches Ok(t) && t.dims() == input.dims() && t.values().len() == input.values().len(),
        r matches Ok(t) ==> rectified(input.values(), t.values()),
{
    let zero = produce(T::default);
    Ok(input.map_with_scalar(zero, rectify::<T>))
}


/// `t` is the rectified linear unit of `x` against a floor that `T::default`
/// can return (zero for the numeric types).
pub open spec fn rectified<T: PartialOrd + Default>(x: Seq<T>, t: Seq<T>) -> bool {
    exists|z: T|
        #[trigger] call_ensures(T::default, (), z) && (T::obeys_partial_cmp_spec() ==> forall|i: int|
            0 <= i < t.len() ==> #[trigger] t[i] == if x[i].is_gt(&z) {
                x[i]
            } else {
                z
            })
}

/// Rectified linear unit, in place.
pub fn relu_inplace<T: PartialOrd + Copy + Default>(input: &mut Tensor<T>) -> (r: Result<(), TorshError>)
    ensures
        r is Ok,
        final(input).dims() == old(input).dims(),
        final(input).values().len() == old(input).values().len(),
        rectified(old(input).values(), final(input).values()),
{
    let zero = produce(T::default);
    let result = input.map_with_scalar(zero, rectify::<T>);
    *input = result;
    Ok(())
}

/// Which formulation of GELU to evaluate.
#[derive(Debug, Clone, Copy, PartialEq, Eq, Structural)]
pub enum GeluApproximation {
    /// The exact definition `0.5 * x * (1 + erf(x / sqrt(2)))`; spelled `"none"`.
    Exact,
    /// The tanh formulation `0.5 * x * (1 + tanh(sqrt(2/pi) * (x + 0.044715 * x^3)))`;
    /// spelled `"tanh"`.
    Tanh,
}

impl Default for GeluApproximation {
    /// The exact formulation.
    fn default() -> (r: Self)
        ensures
            r == GeluApproximation::Exact,
    {
        GeluApproximation::Exact
    }
}

impl GeluApproximation {
    /// Parses the spelling of the `approximate` argument: exactly `"none"` or
    /// `"tanh"`; anything else is an invalid argument.
    pub fn from_str_arg(value: &str) -> (r: Result<Self, TorshError>)
        ensures
            r matches Ok(a) ==> (a == GeluApproximation::Exact <==> value@ == "none"@),
            r matches Ok(a) ==> (a == GeluApproximation::Tanh <==> value@ == "tanh"@),
            r is Ok <==> (value@ == "none"@ || value@ == "tanh"@),
            r matches Err(e) ==> (e matches TorshError::InvalidArgument(m) && m@
                == "gelu approximate must be \"none\" or \"tanh\", got \""@ + value@ + "\""@),
    {
        proof {
            reveal_strlit("none");
            reveal_strlit("tanh");
            assert("none"@[0] != "tanh"@[0]);
        }
        if str_equals(value, "none") {
            Ok(GeluApproximation::Exact)
        } else if str_equals(value, "tanh") {
            Ok(GeluApproximation::Tanh)
        } else {
            let mut m = String::from_str("gelu approximate must be \"none\" or \"tanh\", got \"");
            m.append(value);
            m.append("\"");
            Err(TorshError::InvalidArgument(m))
        }
    }
}

/// Options shared by the configured activation entry points.
pub struct FunctionalConfig {
    /// Check the inputs before computing.
    pub validate_inputs: bool,
}

impl Default for FunctionalConfig {
    /// Inputs are validated.
    fn default() -> (r: Self)
        ensures
            r.validate_inputs,
    {
        FunctionalConfig { validate_inputs: true }
    }
}

/// Rejects a tensor without elements as an invalid argument.
pub fn validate_not_empty<T>(input: &Tensor<T>, name: &str) -> (r: Result<(), TorshError>)
    ensures
        r is Ok <==> input.values().len() > 0,
        r matches Err(e) ==> (e matches TorshError::InvalidArgument(m) && m@ == name@
            + " must not be empty"@),
{
    if input.numel() == 0 {
        let mut m = String::from_str(name);
        m.append(" must not be empty");
        Err(TorshError::InvalidArgument(m))
    } else {
        Ok(())
    }
}

/// [`relu`] behind the optional validation that the input is not empty.
pub fn relu_configured<T: PartialOrd + Copy + Default>(
    input: &Tensor<T>,
    config: &FunctionalConfig,
) -> (r: Result<Tensor<T>, TorshError>)
    ensures
        r is Err <==> (config.validate_inputs && input.values().len() == 0),
        r matches Err(e) ==> is_invalid_argument(e),
        r matches Ok(t) ==> t.dims() == input.dims() && t.values().len() == input.values().len()
            && rectified(input.values(), t.values()),
{
    if config.validate_inputs {
        validate_not_empty(input, "input")?;
    }
    relu(input)
}

/// Rectified-linear activation, optionally computed in place.
pub struct ReLU {
    inplace: bool,
}

impl ReLU {
    /// An activation that computes in place when `inplace` is set.
    pub fn new(inplace: bool) -> (r: Self)
        ensures
            r.computes_inplace() == inplace,
    {
        ReLU { inplace }
    }

    /// Whether the activation computes in place.
    pub closed spec fn computes_inplace(self) -> bool {
        self.inplace
    }

    /// Whether the activation computes in place.
    pub fn is_inplace(&self) -> (b: bool)
        ensures
            b == self.computes_inplace(),
    {
        self.inplace
    }

    /// Applies the rectified linear unit; both ways of computing it give the
    /// same result.
    pub fn apply<T: PartialOrd + Copy + Default>(&self, input: &Tensor<T>) -> (r: Result<Tensor<T>, TorshError>)
        ensures
            r matches Ok(t) && t.dims() == input.dims() && t.values().len() == input.values().len()
                && rectified(input.values(), t.values()),
    {
        if self.inplace {
            let mut result = input.clone();
            relu_inplace(&mut result)?;
            Ok(result)
        } else {
            relu(input)
        }
    }
}

/// Logistic sigmoid activation.
pub struct Sigmoid;

impl Sigmoid {
    /// The activation.
    pub fn new() -> (r: Self)
        ensures
            r == Sigmoid,
    {
        Sigmoid
    }
}

impl Default for Sigmoid {
    /// The activation.
    fn default() -> (r: Self)
        ensures
            r == Sigmoid,
    {
        Sigmoid::new()
    }
}

/// Hyperbolic tangent activation.
pub struct Tanh;

impl Tanh {
    /// The activation.
    pub fn new() -> (r: Self)
        ensures
            r == Tanh,
    {
        Tanh
    }
}

impl Default for Tanh {
    /// The activation.
    fn default() -> (r: Self)
        ensures
            r == Tanh,
    {
        Tanh::new()
    }
}

/// Gaussian error linear unit activation.
pub struct GELU;

impl GELU {
    /// The activation.
    pub fn new() -> (r: Self)
        ensures
            r == GELU,
    {
        GELU
    }
}

impl Default for GELU {
    /// The activation.
    fn default() -> (r: Self)
        ensures
            r == GELU,
    {
        GELU::new()
    }
}

/// Swish (SiLU) activation: `x * sigmoid(x)`.
pub struct Swish;

impl Swish {
    /// The activation.
    pub fn new() -> (r: Self)
        ensures
            r == Swish,
    {
        Swish
    }
}

impl Default for Swish {
    /// The activation.
    fn default() -> (r: Self)
        ensures
            r == Swish,
    {
        Swish::new()
    }
}

/// Mish activation: `x * tanh(softplus(x))`.
pub struct Mish;

impl Mish {
    /// The activation.
    pub fn new() -> (r: Self)
        ensures
            r == Mish,
    {
        Mish
    }
}

impl Default for Mish {
    /// The activation.
    fn default() -> (r: Self)
        ensures
            r == Mish,
    {
        Mish::new()
    }
}

/// Scaled exponential linear unit activation.
pub struct SELU;

impl SELU {
    /// The activation.
    pub fn new() -> (r: Self)
        ensures
            r == SELU,
    {
        SELU
    }
}

impl Default for SELU {
    /// The activation.
    fn default() -> (r: Self)
        ensures
            r == SELU,
    {
        SELU::new()
    }
}

/// Softmax activation along one axis.
pub struct Softmax {
    dim: i32,
}

impl Softmax {
    /// The activation along axis `dim` (negative values count from the end).
    pub fn new(dim: i32) -> (r: Self)
        ensures
            r.axis() == dim,
    {
        Softmax { dim }
    }

    /// The axis the activation normalises along.
    pub closed spec fn axis(self) -> i32 {
        self.dim
    }

    /// The axis the activation normalises along.
    pub fn dim(&self) -> (d: i32)
        ensures
            d == self.axis(),
    {
        self.dim
    }
}

impl Default for Softmax {
    /// The activation along the last axis.
    fn default() -> (r: Self)
        ensures
            r.axis() == -1,
    {
        Softmax::new(-1)
    }
}

/// Log-softmax activation along one axis.
pub struct LogSoftmax {
    dim: i32,
}

impl LogSoftmax {
    /// The activation along axis `dim` (negative values count from the end).
    pub fn new(dim: i32) -> (r: Self)
        ensures
            r.axis() == dim,
    {
        LogSoftmax { dim }
    }

    /// The axis the activation normalises along.
    pub closed spec fn axis(self) -> i32 {
        self.dim
    }

    /// The axis the activation normalises along.
    pub fn dim(&self) -> (d: i32)
        ensures
            d == self.axis(),
    {
        self.dim
    }
}

impl Default for LogSoftmax {
    /// The activation along the last axis.
    fn default() -> (r: Self)
        ensures
            r.axis() == -1,
    {
        LogSoftmax::new(-1)
    }
}

} // verus!
