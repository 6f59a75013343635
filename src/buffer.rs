//! A fixed-size grid of characters that points and lines are drawn into.

use vstd::prelude::*;

use crate::raster::{line_cells, line_fits, line_step_count, line_steps, samples_match};

verus! {

/// The character of an empty cell.
pub const BLANK: char = ' ';

/// Whether `(x, y)` names a cell of a `w` by `h` grid.
pub open spec fn in_grid(w: int, h: int, x: int, y: int) -> bool {
    0 <= x < w && 0 <= y < h
}

/// The grid contents after writing `c` at `(x, y)`; cells outside the grid
/// are not written. Rows are stored one after another.
pub open spec fn set_cell(cells: Seq<char>, w: int, h: int, x: int, y: int, c: char) -> Seq<char> {
    if in_grid(w, h, x, y) {
        cells.update(y * w + x, c)
    } else {
        cells
    }
}

/// The grid contents after writing `c` at each of `pts`, in order.
pub open spec fn paint(cells: Seq<char>, w: int, h: int, pts: Seq<(int, int)>, c: char) -> Seq<
    char,
>
    decreases pts.len(),
{
    if pts.len() == 0 {
        cells
    } else {
        let p = pts.last();
        set_cell(paint(cells, w, h, pts.drop_last(), c), w, h, p.0, p.1, c)
    }
}

/// The grid contents after plotting an already projected point: a visible
/// point writes its cell (if inside the grid), an invisible one nothing.
pub open spec fn plot_cell(cells: Seq<char>, w: int, h: int, p: Option<(isize, isize)>, c: char) -> Seq<
    char,
> {
    match p {
        Some(q) => set_cell(cells, w, h, q.0 as int, q.1 as int, c),
        None => cells,
    }
}

/// The cells an edge between two projected points writes, given the
/// samples of its line: the line when both ends are visible, none otherwise.
pub open spec fn edge_cells(
    pts: Seq<Option<(isize, isize)>>,
    e: (usize, usize),
    samples: Seq<(isize, isize)>,
) -> Seq<(int, int)> {
    match (pts[e.0 as int], pts[e.1 as int]) {
        (Some(a), Some(b)) => line_cells(a.0 as int, a.1 as int, b.0 as int, b.1 as int, samples),
        _ => Seq::empty(),
    }
}

/// An edge with both ends visible is a line whose differences fit in
/// `isize`, and `samples` holds one sample per step of it.
pub open spec fn edge_fits(
    pts: Seq<Option<(isize, isize)>>,
    e: (usize, usize),
    samples: Seq<(isize, isize)>,
) -> bool {
    match (pts[e.0 as int], pts[e.1 as int]) {
        (Some(a), Some(b)) => line_fits(a.0 as int, a.1 as int, b.0 as int, b.1 as int)
            && samples_match(a.0 as int, a.1 as int, b.0 as int, b.1 as int, samples),
        _ => true,
    }
}

/// The edges index existing points, each has its own list of samples, and
/// each can be drawn as a line.
pub open spec fn edges_drawable(
    pts: Seq<Option<(isize, isize)>>,
    edges: Seq<(usize, usize)>,
    samples: Seq<Vec<(isize, isize)>>,
) -> bool {
    &&& samples.len() == edges.len()
    &&& forall|i: int|
        0 <= i < edges.len() ==> {
            let e = #[trigger] edges[i];
            &&& e.0 < pts.len()
            &&& e.1 < pts.len()
            &&& edge_fits(pts, e, samples[i]@)
        }
}

/// The grid contents after drawing the first `n` edges, in order, with `c`.
pub open spec fn paint_edges(
    cells: Seq<char>,
    w: int,
    h: int,
    pts: Seq<Option<(isize, isize)>>,
    edges: Seq<(usize, usize)>,
    samples: Seq<Vec<(isize, isize)>>,
    n: int,
    c: char,
) -> Seq<char>
    decreases n,
{
    if n <= 0 {
        cells
    } else {
        paint(
            paint_edges(cells, w, h, pts, edges, samples, n - 1, c),
            w,
            h,
            edge_cells(pts, edges[n - 1], samples[n - 1]@),
            c,
        )
    }
}

/// The grid contents after plotting each projected point, in order, with `c`.
pub open spec fn paint_points(
    cells: Seq<char>,
    w: int,
    h: int,
    pts: Seq<Option<(isize, isize)>>,
    c: char,
) -> Seq<char>
    decreases pts.len(),
{
    if pts.len() == 0 {
        cells
    } else {
        plot_cell(paint_points(cells, w, h, pts.drop_last(), c), w, h, pts.last(), c)
    }
}

/// The text of the first `n` rows of a grid `w` cells wide, each row
/// followed by a newline.
pub open spec fn rows_text(cells: Seq<char>, w: int, n: int) -> Seq<char>
    decreases n,
{
    if n <= 0 {
        Seq::empty()
    } else {
        rows_text(cells, w, n - 1) + cells.subrange((n - 1) * w, n * w) + seq!['\n']
    }
}

/// Relies on `String::push`: appends one character to the end of the string.
#[verifier::external_body]
fn push_char(s: &mut String, c: char)
    ensures
        final(s)@ == old(s)@.push(c),
{
    s.push(c);
}

/// A grid of `width * height` characters, stored row by row.
pub struct ScreenBuffer {
    pub data: Vec<char>,
    pub width: usize,
    pub height: usize,
}

impl ScreenBuffer {
    /// The storage holds exactly one character per cell, and the cell count
    /// fits in `usize`.
    pub open spec fn wf(&self) -> bool {
        &&& self.data@.len() == self.width * self.height
        &&& self.width * self.height <= usize::MAX
    }

    /// A blank buffer of the given size.
    pub fn new(width: usize, height: usize) -> (r: ScreenBuffer)
        requires
            width * height <= usize::MAX,
        ensures
            r.wf(),
            r.width == width,
            r.height == height,
            r.data@ == Seq::new((width * height) as nat, |i: int| BLANK),
    {
        let n: usize = width * height;
        let mut data: Vec<char> = Vec::with_capacity(n);
        let mut i: usize = 0;
        while i < n
            invariant
                i <= n,
                data@ == Seq::new(i as nat, |j: int| BLANK),
            decreases n - i,
        {
            data.push(BLANK);
            i = i + 1;
        }
        ScreenBuffer { data, width, height }
    }

    /// Resets every cell to the blank character.
    pub fn clear(&mut self)
        requires
            old(self).wf(),
        ensures
            final(self).wf(),
            final(self).width == old(self).width,
            final(self).height == old(self).height,
            final(self).data@ == Seq::new(old(self).data@.len(), |i: int| BLANK),
    {
        let n: usize = self.data.len();
        let mut i: usize = 0;
        while i < n
            invariant
                i <= n,
                self.width == old(self).width,
                self.height == old(self).height,
                self.data@.len() == n,
                n == old(self).data@.len(),
                forall|j: int| 0 <= j < i ==> self.data@[j] == BLANK,
            decreases n - i,
        {
            self.data[i] = BLANK;
            i = i + 1;
        }
        assert(self.data@ =~= Seq::new(n as nat, |j: int| BLANK));
    }

    /// Writes `c` at column `x`, row `y`; does nothing where that cell lies
    /// outside the grid.
    pub fn set(&mut self, x: usize, y: usize, c: char)
        requires
            old(self).wf(),
        ensures
            final(self).wf(),
            final(self).width == old(self).width,
            final(self).height == old(self).height,
            final(self).data@ == set_cell(
                old(self).data@,
                old(self).width as int,
                old(self).height as int,
                x as int,
                y as int,
                c,
            ),
            !(x < old(self).width && y < old(self).height) ==> final(self).data@ == old(
                self,
            ).data@,
    {
        if x < self.width && y < self.height {
            proof {
                lemma_cell_index(x as int, y as int, self.width as int, self.height as int);
            }
            let i: usize = y * self.width + x;
            self.data[i] = c;
        }
    }

    /// Draws a straight line of `c` between two screen points, from the
    /// line's samples: `samples[k]` is the start point advanced `k` times by
    /// `(dx / steps, dy / steps)` in floating point, then rounded.
    ///
    /// Exactly the cells of `line_cells` are written, in order: coinciding
    /// endpoints write the single start cell, otherwise one cell per step,
    /// the samples in turn. Cells off the grid, negative coordinates
    /// included, are dropped, so a partly visible line shows only its
    /// on-grid part.
    pub fn draw_line(
        &mut self,
        x0: isize,
        y0: isize,
        x1: isize,
        y1: isize,
        samples: &Vec<(isize, isize)>,
        c: char,
    )
        requires
            old(self).wf(),
            line_fits(x0 as int, y0 as int, x1 as int, y1 as int),
            samples_match(x0 as int, y0 as int, x1 as int, y1 as int, samples@),
        ensures
            final(self).wf(),
            final(self).width == old(self).width,
            final(self).height == old(self).height,
            final(self).data@ == paint(
                old(self).data@,
                old(self).width as int,
                old(self).height as int,
                line_cells(x0 as int, y0 as int, x1 as int, y1 as int, samples@),
                c,
            ),
    {
        let ghost w = self.width as int;
        let ghost h = self.height as int;
        let ghost cells = line_cells(x0 as int, y0 as int, x1 as int, y1 as int, samples@);
        let steps: isize = line_step_count(x0, y0, x1, y1);
        if steps == 0 {
            assert(cells.drop_last() =~= Seq::<(int, int)>::empty());
            assert(paint(self.data@, w, h, cells.drop_last(), c) == self.data@);
            if x0 >= 0 && y0 >= 0 {
                self.set(x0 as usize, y0 as usize, c);
            }
            return;
        }
        let n: usize = samples.len();
        let mut k: usize = 0;
        while k < n
            invariant
                0 <= k <= n,
                n == samples@.len(),
                cells == line_cells(x0 as int, y0 as int, x1 as int, y1 as int, samples@),
                cells.len() == n,
                steps != 0,
                steps == line_steps(x0 as int, y0 as int, x1 as int, y1 as int),
                self.wf(),
                self.width == w,
                self.height == h,
                self.data@ == paint(old(self).data@, w, h, cells.take(k as int), c),
            decreases n - k,
        {
            let (x, y) = samples[k];
            assert(cells[k as int] == (x as int, y as int));
            assert(cells.take(k + 1).drop_last() =~= cells.take(k as int));
            if x >= 0 && y >= 0 {
                self.set(x as usize, y as usize, c);
            }
            k = k + 1;
        }
        assert(cells.take(n as int) =~= cells);
    }

    /// Plots a point whose screen position was already computed (`None`
    /// when it is not visible): a visible point with non-negative
    /// coordinates is written through `set`, anything else is skipped.
    pub fn plot_projected(&mut self, p: Option<(isize, isize)>, c: char)
        requires
            old(self).wf(),
        ensures
            final(self).wf(),
            final(self).width == old(self).width,
            final(self).height == old(self).height,
            final(self).data@ == plot_cell(
                old(self).data@,
                old(self).width as int,
                old(self).height as int,
                p,
                c,
            ),
    {
        if let Some((x, y)) = p {
            if x >= 0 && y >= 0 {
                self.set(x as usize, y as usize, c);
            }
        }
    }

    /// Draws a wireframe from its projected vertices: first every edge whose
    /// ends are both visible, as a line of `edge_c`, then every visible
    /// vertex with `point_c`, so that vertices lie on top of edges.
    pub fn draw_wireframe(
        &mut self,
        pts: &Vec<Option<(isize, isize)>>,
        edges: &Vec<(usize, usize)>,
        samples: &Vec<Vec<(isize, isize)>>,
        edge_c: char,
        point_c: char,
    )
        requires
            old(self).wf(),
            edges_drawable(pts@, edges@, samples@),
        ensures
            final(self).wf(),
            final(self).width == old(self).width,
            final(self).height == old(self).height,
            final(self).data@ == paint_points(
                paint_edges(
                    old(self).data@,
                    old(self).width as int,
                    old(self).height as int,
                    pts@,
                    edges@,
                    samples@,
                    edges@.len() as int,
                    edge_c,
                ),
                old(self).width as int,
                old(self).height as int,
                pts@,
                point_c,
            ),
    {
        let ghost w = self.width as int;
        let ghost h = self.height as int;
        let mut i: usize = 0;
        while i < edges.len()
            invariant
                i <= edges@.len(),
                edges_drawable(pts@, edges@, samples@),
                self.wf(),
                self.width == w,
                self.height == h,
                self.data@ == paint_edges(
                    old(self).data@,
                    w,
                    h,
                    pts@,
                    edges@,
                    samples@,
                    i as int,
                    edge_c,
                ),
            decreases edges@.len() - i,
        {
            let e = edges[i];
            let ghost before = self.data@;
            match (pts[e.0], pts[e.1]) {
                (Some((x0, y0)), Some((x1, y1))) => {
                    self.draw_line(x0, y0, x1, y1, &samples[i], edge_c);
                },
                _ => {
                    assert(paint(before, w, h, Seq::empty(), edge_c) == before);
                },
            }
            i = i + 1;
        }
        let ghost drawn = self.data@;
        let mut j: usize = 0;
        while j < pts.len()
            invariant
                j <= pts@.len(),
                self.wf(),
                self.width == w,
                self.height == h,
                self.data@ == paint_points(drawn, w, h, pts@.take(j as int), point_c),
            decreases pts@.len() - j,
        {
            assert(pts@.take(j + 1).drop_last() =~= pts@.take(j as int));
            self.plot_projected(pts[j], point_c);
            j = j + 1;
        }
        assert(pts@.take(pts@.len() as int) =~= pts@);
    }

    /// The whole grid as text: one line per row, each row's characters in
    /// order followed by a newline.
    pub fn output(&self) -> (r: String)
        requires
            self.wf(),
        ensures
            r@ == rows_text(self.data@, self.width as int, self.height as int),
    {
        let w = self.width;
        let h = self.height;
        let ghost cells = self.data@;
        let mut s = String::new();
        let mut y: usize = 0;
        while y < h
            invariant
                self.wf(),
                w == self.width,
                h == self.height,
                cells == self.data@,
                y <= h,
                s@ == rows_text(cells, w as int, y as int),
            decreases h - y,
        {
            let mut x: usize = 0;
            proof {
                lemma_row_range(y as int, w as int, h as int);
            }
            while x < w
                invariant
                    self.wf(),
                    w == self.width,
                    h == self.height,
                    cells == self.data@,
                    y < h,
                    x <= w,
                    0 <= y * w <= y * w + w <= w * h,
                    s@ == rows_text(cells, w as int, y as int) + cells.subrange(
                        y * w,
                        y * w + x,
                    ),
                decreases w - x,
            {
                proof {
                    lemma_cell_index(x as int, y as int, w as int, h as int);
                }
                let ch = self.data[y * w + x];
                push_char(&mut s, ch);
                assert(cells.subrange(y * w, y * w + x + 1) =~= cells.subrange(y * w, y * w + x)
                    + seq![ch]);
                x = x + 1;
            }
            push_char(&mut s, '\n');
            assert(rows_text(cells, w as int, y + 1) =~= rows_text(cells, w as int, y as int)
                + cells.subrange(y * w, (y + 1) * w) + seq!['\n']);
            y = y + 1;
        }
        s
    }
}

/// Drawing a line whose endpoints coincide writes exactly one cell: the
/// same as a single `set` at that point.
pub proof fn lemma_point_line_writes_one_cell(
    cells: Seq<char>,
    w: int,
    h: int,
    x: int,
    y: int,
    samples: Seq<(isize, isize)>,
    c: char,
)
    ensures
        paint(cells, w, h, line_cells(x, y, x, y, samples), c) == set_cell(cells, w, h, x, y, c),
{
    let pts = line_cells(x, y, x, y, samples);
    crate::raster::lemma_point_line_single_cell(x, y, samples);
    assert(pts.drop_last() =~= Seq::<(int, int)>::empty());
    assert(paint(cells, w, h, pts.drop_last(), c) == cells);
}

/// Cells with a negative coordinate are dropped: painting only such cells
/// changes nothing.
pub proof fn lemma_paint_offgrid(cells: Seq<char>, w: int, h: int, pts: Seq<(int, int)>, c: char)
    requires
        forall|k: int| 0 <= k < pts.len() ==> #[trigger] pts[k].0 < 0 || pts[k].1 < 0,
    ensures
        paint(cells, w, h, pts, c) == cells,
    decreases pts.len(),
{
    if pts.len() > 0 {
        let rest = pts.drop_last();
        assert forall|k: int| 0 <= k < rest.len() implies #[trigger] rest[k].0 < 0 || rest[k].1
            < 0 by {
            assert(rest[k] == pts[k]);
        }
        lemma_paint_offgrid(cells, w, h, rest, c);
        assert(pts.last() == pts[pts.len() - 1]);
    }
}

/// The text of `n` lines, each of `w` blank characters and a newline.
pub open spec fn blank_text(w: int, n: int) -> Seq<char>
    decreases n,
{
    if n <= 0 {
        Seq::empty()
    } else {
        blank_text(w, n - 1) + Seq::new(w as nat, |i: int| BLANK) + seq!['\n']
    }
}

/// A blank grid, as left by `clear` (or `new`), reads as `height` lines of
/// `width` blank characters each.
pub proof fn lemma_blank_grid_text(w: nat, h: nat)
    ensures
        rows_text(Seq::new(w * h, |i: int| BLANK), w as int, h as int) == blank_text(
            w as int,
            h as int,
        ),
{
    lemma_blank_rows(w, h, h);
}

proof fn lemma_blank_rows(w: nat, h: nat, n: nat)
    requires
        n <= h,
    ensures
        rows_text(Seq::new(w * h, |i: int| BLANK), w as int, n as int) == blank_text(
            w as int,
            n as int,
        ),
    decreases n,
{
    if n > 0 {
        let cells = Seq::new(w * h, |i: int| BLANK);
        lemma_blank_rows(w, h, (n - 1) as nat);
        lemma_row_range(n - 1, w as int, h as int);
        let lo = (n - 1) * (w as int);
        let hi = n * (w as int);
        assert(cells.subrange(lo, hi) =~= Seq::new(w, |i: int| BLANK));
    }
}

/// Row `y` of a `w` by `h` grid is stored at `y * w .. (y + 1) * w`,
/// inside the storage.
proof fn lemma_row_range(y: int, w: int, h: int)
    requires
        0 <= y < h,
        0 <= w,
    ensures
        0 <= y * w <= y * w + w <= w * h,
        y * w + w == (y + 1) * w,
{
    assert(0 <= y * w <= y * w + w <= w * h) by (nonlinear_arith)
        requires
            0 <= y < h,
            0 <= w,
    ;
    assert(y * w + w == (y + 1) * w) by (nonlinear_arith);
}

/// Cell `(x, y)` of a `w` by `h` grid is stored at `y * w + x`, inside the
/// storage.
proof fn lemma_cell_index(x: int, y: int, w: int, h: int)
    requires
        0 <= x < w,
        0 <= y < h,
    ensures
        0 <= y * w <= y * w + x < w * h,
{
    assert(0 <= y * w <= y * w + x < w * h) by (nonlinear_arith)
        requires
            0 <= x < w,
            0 <= y < h,
    ;
}

} // verus!
