//! Line stepping between two screen points.
//!
//! A line is drawn as `steps = max(|dx|, |dy|)` samples. Sample `k` (for
//! `0 <= k < steps`) is the start point advanced `k` times by the increment
//! `(dx / steps, dy / steps)` in single-precision floating point, each
//! coordinate then rounded to the nearest integer. The floating-point
//! sampling is done by the caller; this module fixes how many samples a line
//! takes and which cells they make up.

use vstd::prelude::*;

verus! {

/// Absolute value.
pub open spec fn abs(v: int) -> int {
    if v < 0 {
        -v
    } else {
        v
    }
}

/// Number of samples a line takes: the Chebyshev distance of its endpoints.
pub open spec fn line_steps(x0: int, y0: int, x1: int, y1: int) -> int {
    let ax = abs(x1 - x0);
    let ay = abs(y1 - y0);
    if ax >= ay {
        ax
    } else {
        ay
    }
}

/// The coordinate differences of a line fit in `isize`, as does their
/// absolute value.
pub open spec fn line_fits(x0: int, y0: int, x1: int, y1: int) -> bool {
    isize::MIN < x1 - x0 <= isize::MAX && isize::MIN < y1 - y0 <= isize::MAX
}

/// `samples` holds one rounded sample per step of the line (any list will
/// do where the endpoints coincide, as none is used then).
pub open spec fn samples_match(x0: int, y0: int, x1: int, y1: int, samples: Seq<(isize, isize)>) -> bool {
    line_steps(x0, y0, x1, y1) == 0 || samples.len() == line_steps(x0, y0, x1, y1)
}

/// The cells a line from `(x0, y0)` to `(x1, y1)` writes, in order.
///
/// Coinciding endpoints give the single start cell; otherwise the line's
/// samples, one per step. Coordinates stay signed: cells off the grid are
/// left for the writer to drop.
pub open spec fn line_cells(x0: int, y0: int, x1: int, y1: int, samples: Seq<(isize, isize)>) -> Seq<
    (int, int),
> {
    if line_steps(x0, y0, x1, y1) == 0 {
        seq![(x0, y0)]
    } else {
        samples.map_values(|p: (isize, isize)| (p.0 as int, p.1 as int))
    }
}

/// The number of samples a line from `(x0, y0)` to `(x1, y1)` takes.
pub fn line_step_count(x0: isize, y0: isize, x1: isize, y1: isize) -> (r: isize)
    requires
        line_fits(x0 as int, y0 as int, x1 as int, y1 as int),
    ensures
        r == line_steps(x0 as int, y0 as int, x1 as int, y1 as int),
        r >= 0,
{
    let dx: isize = x1 - x0;
    let dy: isize = y1 - y0;
    let ax: isize = if dx < 0 {
        -dx
    } else {
        dx
    };
    let ay: isize = if dy < 0 {
        -dy
    } else {
        dy
    };
    if ax >= ay {
        ax
    } else {
        ay
    }
}

/// A line whose endpoints coincide writes exactly one cell, at that point,
/// whatever samples are offered.
pub proof fn lemma_point_line_single_cell(x: int, y: int, samples: Seq<(isize, isize)>)
    ensures
        line_cells(x, y, x, y, samples).len() == 1,
        line_cells(x, y, x, y, samples)[0] == (x, y),
{
}

/// A line whose endpoints differ writes one cell per step: its samples,
/// in order.
pub proof fn lemma_line_cell_count(x0: int, y0: int, x1: int, y1: int, samples: Seq<(isize, isize)>)
    requires
        (x0, y0) != (x1, y1),
        samples_match(x0, y0, x1, y1, samples),
    ensures
        line_cells(x0, y0, x1, y1, samples).len() == line_steps(x0, y0, x1, y1),
        forall|k: int|
            0 <= k < samples.len() ==> #[trigger] line_cells(x0, y0, x1, y1, samples)[k] == (
                samples[k].0 as int,
                samples[k].1 as int,
            ),
{
}

} // verus!
