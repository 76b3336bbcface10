//! Behaviour shared by geometric shapes. The shapes themselves measure in
//! floating point and live outside the verified library; the traits below
//! carry no numbers.
pub mod traits;
