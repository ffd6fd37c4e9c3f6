//! Bounds checking and window-edge arithmetic for rolling computations
//! over a fixed window. The numeric kernels themselves are external
//! collaborators; this module holds the window geometry that any of them
//! share.

use vstd::prelude::*;

verus! {

/// A rolling computation was asked for fewer filled elements than fit in
/// its window.
#[derive(Clone, Copy, PartialEq, Eq, Structural, Debug)]
pub struct RollingInputError {
    pub window_size: usize,
    pub min_periods: usize,
}

/// Options for a rolling computation over a fixed window.
pub struct RollingOptionsFixedWindow {
    /// The length of the window.
    pub window_size: usize,
    /// Amount of elements in the window that should be filled before
    /// computing a result.
    pub min_periods: usize,
    /// Set the labels at the center of the window.
    pub center: bool,
}

impl Default for RollingOptionsFixedWindow {
    /// A window of three elements, one filled element required, labels at
    /// the right edge.
    fn default() -> (r: Self)
        ensures
            r.window_size == 3,
            r.min_periods == 1,
            !r.center,
    {
        RollingOptionsFixedWindow { window_size: 3, min_periods: 1, center: false }
    }
}

/// The `(start, size)` of the window for output index `idx` over `len`
/// elements: the window ends at `idx` (or is centred on it), clamped to the
/// array's bounds.
pub open spec fn window_bounds(idx: int, len: int, window_size: int, center: bool) -> (int, int) {
    if center {
        let right = (window_size + 1) / 2;
        let start = if idx - (window_size - right) >= 0 {
            idx - (window_size - right)
        } else {
            0
        };
        let end = if idx + right <= len {
            idx + right
        } else {
            len
        };
        (start, end - start)
    } else {
        let start = if idx - (window_size - 1) >= 0 {
            idx - (window_size - 1)
        } else {
            0
        };
        (start, idx + 1 - start)
    }
}

/// Check that the rolling options are consistent: a window cannot require
/// more filled elements than it holds.
pub fn check_input(window_size: usize, min_periods: usize) -> (r: Result<(), RollingInputError>)
    ensures
        r is Ok <==> min_periods <= window_size,
        r matches Err(e) ==> e.window_size == window_size && e.min_periods == min_periods,
{
    if min_periods <= window_size {
        Ok(())
    } else {
        Err(RollingInputError { window_size, min_periods })
    }
}

/// The start and size of the window for output index `idx`.
pub fn window_edges(idx: usize, len: usize, window_size: usize, center: bool) -> (r: (usize, usize))
    requires
        idx < len,
        center || window_size >= 1,
        idx + window_size <= usize::MAX,
    ensures
        (r.0 as int, r.1 as int) == window_bounds(idx as int, len as int, window_size as int, center),
{
    let (start, end) = if center {
        let right_window = window_size / 2 + window_size % 2;
        (
            idx.saturating_sub(window_size - right_window),
            if idx + right_window <= len {
                idx + right_window
            } else {
                len
            },
        )
    } else {
        (idx.saturating_sub(window_size - 1), idx + 1)
    };
    (start, end - start)
}

} // verus!
