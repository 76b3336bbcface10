//! Traits that shapes implement.
use vstd::prelude::*;

verus! {

/// Something that can draw itself.
pub trait Draw {
    /// Draws the value.
    fn draw(&self);
}

/// A shape's name and a description of it.
pub trait ShapeInfo {
    /// The shape's name.
    fn name(&self) -> &str;

    /// A description of the shape and its measures.
    fn description(&self) -> String;
}

} // verus!
