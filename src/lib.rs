//! Segmentation core of a piecewise quadratic Bézier fitter: the window of
//! permitted segment lengths, the candidate runs of samples, and the dynamic
//! programme that covers a sample sequence with the fewest accepted runs.

pub mod window;
pub mod cover;
pub mod laws;
pub mod svg;
pub mod fitting;
