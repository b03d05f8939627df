//! Keyboard key identifiers.

use vstd::prelude::*;

verus! {

/// A physical keyboard key, normalized across platforms.
#[derive(Clone, Copy, Debug)]
pub enum Key {
    A,
    B,
    C,
    D,
    E,
    F,
    G,
    H,
    I,
    J,
    K,
    L,
    M,
    N,
    O,
    P,
    Q,
    R,
    S,
    T,
    U,
    V,
    W,
    X,
    Y,
    Z,
    Return,
    Enter,
    LShift,
    RShift,
    LControl,
    RControl,
    Escape,
    Unknown,
}

} // verus!
