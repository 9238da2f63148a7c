# rgpu

GPU computing in plain Rust, with its logic verified by Verus.

`src/` is the verified library:

- `forma` — shape algebra of N-dimensional tensors: NumPy broadcasting,
  row-major index maps, broadcast strides and tiling periods.
- `tensor` — a dense tensor generic over its element type: element-wise
  combination under broadcasting, transpose, blocked matrix product,
  reduction back to a broadcast shape, row selection and argmax. The element
  arithmetic is a closure supplied by the caller.
- `plano` — the dispatch plan of a multilayer perceptron trained on the GPU:
  which kernel runs on which buffers with which grid, for the forward pass,
  the hand-written backward pass and the Adam update.
- `perfil` — timestamp slots of the GPU profiler and the aggregation of the
  measured ticks by kernel.
- `qubit`, `porta` — index arithmetic of a state-vector simulator: the pairs
  of a one-qubit gate, the groups of a gate on several qubits, the rewriting
  of a gate on a larger set of qubits, the sizing of the state buffer and the
  decoding of half-precision amplitudes.
- `energia` — the integer side of energy and clock measurement: RAPL counter
  differences, parsing of `nvidia-smi` and `/proc` output, and the choice of
  clock frequencies for a sweep.
- `leitura` — reinterpretation of mapped GPU buffers as words.

`app/` holds what Verus does not see: the `wgpu` device and its kernels, the
floating-point tensor with reverse-mode differentiation, layers and
optimizers, the quantum state on the GPU, and the processes and files read
for energy measurement.
