//! String transformations.
pub mod transform;


