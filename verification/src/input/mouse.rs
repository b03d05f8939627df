//! Mouse button identifiers.

use vstd::prelude::*;

verus! {

/// A mouse button, normalized across platforms.
#[derive(Clone, Copy, Debug)]
pub enum Button {
    Left,
    Right,
    Middle,
    Unknown,
}

} // verus!
