//! Virial-coefficient toolkit: the expression language for user-supplied pair
//! potentials (tokenizer, precedence-climbing parser, integer-power folding,
//! common-subexpression flattening, WebAssembly code emission, the native
//! backend's instruction plan, the fasteval front end) and the
//! deterministic SplitMix64 generator used by Mayer-sampling Monte Carlo.

pub mod dsl;
pub mod rng;
pub mod isotope;
pub mod aot;
pub mod wasm;
pub mod machine;
pub mod jit;
pub mod fastexpr;
pub mod module_laws;
