//! The index-scanning statevector, which finds amplitude pairs by testing
//! every index.

pub mod state;

// Avoids confusion with the new state implementation.
pub use state::State as LegacyState;
