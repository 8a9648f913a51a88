//! A state-vector quantum circuit simulator whose amplitude bookkeeping is
//! verified: qubit strides, amplitude pairing, control selection, state
//! construction, marginal sums and measurement collapse.
//!
//! Amplitudes are of any type and gates are functions from an amplitude
//! pair to the updated pair, so every kernel holds whatever the arithmetic.

pub mod api;
pub mod bits;
pub mod kernels;
pub mod legacy;
pub mod linalg;
pub mod state;
