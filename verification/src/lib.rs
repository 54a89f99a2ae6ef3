//! wirecut: invertible 64-bit mixing kernels. A kernel is a straight-line
//! program of bijective micro-operations; the library evaluates and inverts
//! kernels, emits them as C, Rust and machine code, and counts the
//! statistics that score them.
pub mod bits;
pub mod ast;
pub mod emit;
pub mod jit;
pub mod x86_model;
pub mod a64_model;
pub mod bench;
pub mod wirecut_mixer;
pub mod wirecut_arx;
pub mod random;
pub mod gf2;
pub mod verify;
pub mod synth;
