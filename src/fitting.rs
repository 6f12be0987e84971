use vstd::prelude::*;

verus! {

/// Fewest parameter samples used to measure a point's distance to a curve.
pub const MIN_DISTANCE_SAMPLES: usize = 50;

/// Most parameter samples used to measure a point's distance to a curve.
pub const MAX_DISTANCE_SAMPLES: usize = 200;

/// How a run of samples is fitted, by its length.
#[derive(Debug, Clone, Copy, PartialEq, Eq, Structural)]
pub enum RunShape {
    /// No samples: the curve with all three points at the origin.
    Empty,
    /// One sample: all three points on it.
    Point,
    /// Two samples: the chord between them, its midpoint as control.
    Chord,
    /// Three or more: endpoints pinned, control by least squares.
    LeastSquares,
}

/// Fits single quadratic segments to runs of samples.
pub struct BezierFitter;

impl BezierFitter {
    /// Chooses how a run of `n` samples is fitted.
    pub fn run_shape(n: usize) -> (r: RunShape)
        ensures
            r == if n == 0 {
                RunShape::Empty
            } else if n == 1 {
                RunShape::Point
            } else if n == 2 {
                RunShape::Chord
            } else {
                RunShape::LeastSquares
            },
    {
        if n == 0 {
            RunShape::Empty
        } else if n == 1 {
            RunShape::Point
        } else if n == 2 {
            RunShape::Chord
        } else {
            RunShape::LeastSquares
        }
    }

    /// Number of parameter samples for a distance query on a curve whose
    /// control polygon has length `2 * half_length`: that half length, kept
    /// within [`MIN_DISTANCE_SAMPLES`, `MAX_DISTANCE_SAMPLES`].
    pub fn distance_samples(half_length: usize) -> (r: usize)
        ensures
            r == if half_length < MIN_DISTANCE_SAMPLES {
                MIN_DISTANCE_SAMPLES
            } else if half_length > MAX_DISTANCE_SAMPLES {
                MAX_DISTANCE_SAMPLES
            } else {
                half_length
            },
            MIN_DISTANCE_SAMPLES <= r <= MAX_DISTANCE_SAMPLES,
    {
        if half_length < MIN_DISTANCE_SAMPLES {
            MIN_DISTANCE_SAMPLES
        } else if half_length > MAX_DISTANCE_SAMPLES {
            MAX_DISTANCE_SAMPLES
        } else {
            half_length
        }
    }

    /// Number of points taken when a curve is sampled at `requested` evenly
    /// spaced parameters: a request under one still yields the start point.
    pub fn sample_count(requested: usize) -> (r: usize)
        ensures
            r == if requested == 0 { 1 } else { requested },
            r >= 1,
    {
        if requested == 0 {
            1
        } else {
            requested
        }
    }

    /// Denominator of the parameter `t_i = i / d` when `count` points are
    /// taken evenly over `[0, 1]`: `count - 1`, and never below one.
    pub fn parameter_denominator(count: usize) -> (r: usize)
        ensures
            r == if count <= 1 { 1 } else { count - 1 },
            r >= 1,
    {
        if count <= 1 {
            1
        } else {
            count - 1
        }
    }
}

} // verus!
