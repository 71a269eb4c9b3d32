//! The one part of a canvas's look that is a plain choice rather than a
//! measure: the shape pins are drawn in.

use vstd::prelude::*;

verus! {

/// How a pin is drawn: a disc or a square of the pin's size.
#[derive(Clone, Copy, Debug, PartialEq, Eq, Structural)]
pub enum PinShape {
    Circle,
    Square,
}

} // verus!
