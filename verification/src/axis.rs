//! The three coordinate axes.

use vstd::prelude::*;

verus! {

/// A coordinate axis in three-dimensional space.
#[derive(Clone, Copy, Debug, PartialEq, Eq, Structural)]
pub enum Axis {
    X,
    Y,
    Z,
}

} // verus!
