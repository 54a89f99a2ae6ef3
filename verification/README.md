# wirecut

Invertible 64-bit mixing kernels, verified with Verus.

A kernel is a straight-line list of micro-operations on a 64-bit word
(odd multiply, add, xor with a constant or a key, rotate, xorshift left or
right). Every such operation with a shift in 1..63 is a bijection, and so is
every kernel made of them; the library proves it.

Layout:

- `src/bits.rs`: rotations, the xorshift inverses, the Newton inverse of an
  odd multiplier, with their proofs.
- `src/ast.rs`: `MicroOp`, `KernelAST`, evaluation and inversion, and the laws
  that inversion undoes evaluation and the other way round.
- `src/emit.rs`, `src/jit.rs`: C and Rust source text, and x86-64 / AArch64
  machine code, each specified byte for byte.
- `src/x86_model.rs`, `src/a64_model.rs`: models of the emitted instructions
  and the proof that the machine code computes the kernel; on x86-64 also
  that the code is straight-line, the same instructions for every input.
- `src/wirecut_mixer.rs`, `src/wirecut_arx.rs`, `src/bench.rs`: the
  synthesized mixers and SplitMix64, shown to be bijections.
- `src/verify.rs`, `src/gf2.rs`: the integer side of the statistical tests
  (avalanche table, differential collisions, chi-squared buckets, binary
  matrix rank, birthday collisions).
- `src/synth.rs`, `src/random.rs`: the moves of the kernel search, the law
  that every kernel it reaches has four operations and is a bijection, and
  the random numbers it draws.
- `app/`: the program: executable memory for the JIT, cycle timing, the
  floating-point scores, the hyperbolic manifold, and the search loop, which
  draws each move, has `synth::search_step` make it, and keeps the candidate
  when its score is higher.
