# torsh

A small tensor library whose core is verified with Verus.

- `src/` is the verified library: tensors, broadcasting arithmetic, windows,
  concatenation, stacking, axis exchange, matrix products, the recording of
  the computation graph, the rectified linear unit, the slice-wise layout of
  softmax and the parsing of configuration enums. Every public function
  carries a contract; `src/laws.rs` and `src/permute.rs` hold properties
  relating several operations.
- The backward pass (`backward::trace_gradients`) lists every node the
  result depends on, each after the nodes it was computed from, matches
  every input of every listed node with the position of its node, and hands
  both to `gradients::propagate_gradients`, whose result is proved equal to
  `gradients::gradient_at`: the seed for the result, and for every other
  node the shares its users pass back, each use once. Proved as well: every
  node the result depends on is listed, only such nodes are, and each of
  them receives a gradient; `src/gradients.rs` also proves what a node used
  once or twice receives. A node already listed is recognised through a mark
  kept in a cell, so that no node is listed twice is not stated, nor is what
  the pass leaves in the gradient slots that tensors expose.
- `app/` holds what computes in floating point or draws random numbers:
  sigmoid, tanh, GELU (through `scirs2-core`'s `erf_simd`), softmax kernels,
  dropout and the training of an LSTM read-out.
- `tests/` runs the library on concrete values.
