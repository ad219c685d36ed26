# zktransformer

Proofs of transformer inference in zero knowledge: the parts of a proof system that turn the layers
of a model into a graph of operations on fixed-point tensors, and the claims about its tensors into
sumcheck proofs and polynomial commitments. The library is written in Rust and verified with Verus.

## Layout

- `src/field.rs`, `src/curve.rs`, `src/transcript.rs`: the scalar field and the groups of BN254 and
  the Fiat-Shamir transcript. The calls into the arkworks crates stand here, each behind a small
  function whose contract says what is taken for granted.
- `src/math.rs`, `src/mle.rs`, `src/arith.rs`, `src/double.rs`, `src/shape.rs`, `src/select.rs`: sums
  and powers, multilinear extensions, fixed-point numbers, quotients in double precision by integer
  arithmetic, and how a tensor is laid out in a table.
- `src/poly/`: dense, sparse and integer multilinear polynomials, and univariate ones.
- `src/sumcheck/`: the provers, the verifier, and their completeness and soundness.
- `src/kzh3.rs`, `src/kzh3/`: the KZH-3 polynomial commitment.
- `src/basicblock/`: the operations on tensors, each with how it is run, proved and verified.
- `src/dag/`: the builder of computation graphs, its compiler, and the layers of LLaMA and nanoGPT.
  `sound.rs` shows that what is built compiles, and `fits.rs` that models of fitting shapes can be
  built.
- `src/model/`: weights, stored tensors, decoding, and the circuits of whole models.
- `app/`: command line programs. What needs files, the environment or floating point stands there.
- `tests/`: tests of the public functions on concrete values.

Tensors are stored with the first dimension innermost and every dimension padded to a power of two,
so that a tensor is the table of a multilinear polynomial. A real number stands for the integer
nearest to it times a power of two.
