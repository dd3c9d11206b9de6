//! The exact parts of a path tracer: the bounce budget and termination rules
//! of the integrator, and the plain-text pixel format that images are written
//! in and read back from.
use vstd::prelude::*;

pub mod decimal;
pub mod path;
pub mod ppm;

pub use path::Bounce;
pub use path::Next;
pub use path::PathEnd;
pub use path::PathState;
pub use ppm::Image;
pub use ppm::Rgb;

verus! {

} // verus!
