use vstd::prelude::*;

verus! {

/// The differentiable element-wise unary functions a computation graph
/// records; each determines its own derivative.
#[derive(Debug, Clone, Copy, PartialEq, Eq, Structural)]
pub enum UnaryKind {
    /// `exp(x)`; derivative `exp(x)`.
    Exp,
    /// `ln(x)`; derivative `1/x`.
    Ln,
    /// `sqrt(x)`; derivative `1/(2*sqrt(x))`.
    Sqrt,
    /// `sin(x)`; derivative `cos(x)`.
    Sin,
    /// `cos(x)`; derivative `-sin(x)`.
    Cos,
    /// `tanh(x)`; derivative `1 - tanh(x)^2`.
    Tanh,
    /// `sigmoid(x)`; derivative `s*(1-s)` with `s = sigmoid(x)`.
    Sigmoid,
    /// `relu(x)`; sub-gradient `1` for `x > 0`, else `0`.
    Relu,
}

/// Geometry of an im2col gather: everything needed to map a patch element
/// back onto the input element it was copied from.
#[derive(Debug, Clone, Copy, PartialEq, Eq)]
pub struct Im2ColConfig {
    /// Input shape `[batch, channels, height, width]`.
    pub input_shape: [usize; 4],
    /// Kernel extent `(kh, kw)`.
    pub kernel: (usize, usize),
    /// Stride `(sh, sw)`.
    pub stride: (usize, usize),
    /// Zero padding `(ph, pw)` applied to the input before gathering.
    pub padding: (usize, usize),
    /// Dilation `(dh, dw)` of the kernel taps.
    pub dilation: (usize, usize),
    /// Number of channel groups the patches are split into.
    pub groups: usize,
    /// Output spatial extent `(out_h, out_w)`.
    pub output: (usize, usize),
}

/// How a view re-indexes the tensor it was taken of.
#[derive(Debug, Clone, PartialEq, Eq)]
pub enum ViewKind {
    /// Row-major reshape: the element order is unchanged.
    Reshape,
    /// Axis permutation: `perm[i]` is the input axis that became output axis `i`.
    Permute(Vec<usize>),
    /// Broadcast expansion.
    Expand,
}

} // verus!
