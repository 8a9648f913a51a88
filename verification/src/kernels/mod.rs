//! State-vector gate kernels.
//!
//! A kernel decides which amplitudes a gate acts on; its arithmetic is
//! handed in as a function from an amplitude pair to the updated pair, so the
//! kernels hold for any amplitude type and any arithmetic.

pub mod avx;
pub mod generic;
pub mod measure;
pub mod scan;

// Names under which benchmarks reach the kernels.
pub use avx::{apply_1q_with_variant as apply_1q_avx_with_variant, AvxVariant};
pub use generic::apply_1q_strided as apply_1q_generic;
