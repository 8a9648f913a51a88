# qsim

A state-vector quantum circuit simulator. The amplitude bookkeeping is
written in Verus and proved: which amplitudes a gate acts on, which a
controlled gate leaves alone, the order in which a marginal sum visits the
amplitudes, and how a measurement collapses the state.

Amplitudes are of any type, and a gate is handed in as a function from an
amplitude pair to the updated pair, so the proofs hold for whatever
arithmetic the caller uses. The complex floating-point arithmetic itself
lives in `app/`.

## Layout

- `src/bits.rs`: qubit strides, `index_is_zero`, and the block arithmetic
  behind them.
- `src/kernels/`: the strided one-qubit and controlled kernels
  (`generic`), the two-lane kernel and its agreement with the one-pair
  kernel (`avx`), the marginal fold and the collapse (`measure`), and the
  index-scanning kernels (`scan`).
- `src/linalg/`: dense vectors and row-major square matrices, and the
  Kronecker product.
- `src/state.rs`: the statevector, instruction routing, and the laws that
  tie the kernels to instructions.
- `src/legacy/`: the index-scanning statevector and its agreement with the
  strided one.
- `src/api.rs`: instructions and named gate matrices.
- `app/`: the command-line program, complex gate matrices, the
  floating-point pair arithmetic (scalar, fused multiply-add, two-lane),
  probabilities, sampled measurement, `ndarray` helpers and tracing.
- `tests/`: tests over complex amplitudes.
