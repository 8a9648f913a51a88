//! The instructions a circuit is written in.

use vstd::prelude::*;

verus! {

/// A circuit instruction. `Phi` is the type of a phase angle.
#[derive(Clone, Copy, Debug)]
pub enum Instruction<Phi> {
    // One Qubit Gates
    X { q: usize },
    Y { q: usize },
    Z { q: usize },
    H { q: usize },
    S { q: usize },
    T { q: usize },
    P { q: usize, phi: Phi },
    // Controlled One Qubit Gates
    CNOT { q_c: usize, q_t: usize },
    CRP { q_c: usize, q_t: usize, phi: Phi },
    // Two Qubit Gates
    SWAP { q_1: usize, q_2: usize },
    // Subroutines
    QFT,
}

/// A named 2×2 gate matrix. `Phi` is the type of a phase angle.
#[derive(Clone, Copy, Debug)]
pub enum GateMatrix<Phi> {
    X,
    Y,
    Z,
    H,
    S,
    T,
    P { phi: Phi },
}

/// Whether the state can run `cmd`: swaps and subroutines are not
/// implemented.
pub open spec fn is_implemented<Phi>(cmd: Instruction<Phi>) -> bool {
    !(cmd is SWAP) && !(cmd is QFT)
}

} // verus!
