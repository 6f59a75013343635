use wireframe::raster::line_step_count;
use wireframe::ScreenBuffer;

/// The rounded f32 samples of a line, stepped as the renderer steps them.
fn samples(x0: isize, y0: isize, x1: isize, y1: isize) -> Vec<(isize, isize)> {
    let steps = line_step_count(x0, y0, x1, y1);
    let mut out = Vec::new();
    if steps == 0 {
        return out;
    }
    let x_inc = (x1 - x0) as f32 / steps as f32;
    let y_inc = (y1 - y0) as f32 / steps as f32;
    let mut x = x0 as f32;
    let mut y = y0 as f32;
    for _ in 0..steps {
        out.push((x.round() as isize, y.round() as isize));
        x += x_inc;
        y += y_inc;
    }
    out
}

fn draw(b: &mut ScreenBuffer, x0: isize, y0: isize, x1: isize, y1: isize, c: char) {
    let s = samples(x0, y0, x1, y1);
    b.draw_line(x0, y0, x1, y1, &s, c);
}

fn cell(b: &ScreenBuffer, x: usize, y: usize) -> char {
    b.data[y * b.width + x]
}

fn marked(b: &ScreenBuffer) -> Vec<(usize, usize)> {
    let mut out = Vec::new();
    for y in 0..b.height {
        for x in 0..b.width {
            if cell(b, x, y) != ' ' {
                out.push((x, y));
            }
        }
    }
    out
}

#[test]
fn new_buffer_is_blank() {
    let b = ScreenBuffer::new(4, 3);
    assert_eq!(b.width, 4);
    assert_eq!(b.height, 3);
    assert_eq!(b.data.len(), 12);
    assert!(b.data.iter().all(|&c| c == ' '));
}

#[test]
fn empty_buffer_outputs_nothing() {
    let b = ScreenBuffer::new(0, 0);
    assert_eq!(b.output(), "");
}

#[test]
fn set_writes_row_major_cell() {
    let mut b = ScreenBuffer::new(4, 3);
    b.set(2, 1, '#');
    assert_eq!(b.data[6], '#');
    assert_eq!(marked(&b), vec![(2, 1)]);
}

#[test]
fn set_out_of_bounds_is_ignored() {
    let mut b = ScreenBuffer::new(4, 3);
    b.set(4, 0, '#');
    b.set(0, 3, '#');
    b.set(usize::MAX, usize::MAX, '#');
    assert!(marked(&b).is_empty());
}

#[test]
fn clear_blanks_every_cell() {
    let mut b = ScreenBuffer::new(3, 2);
    b.set(0, 0, 'a');
    b.set(2, 1, 'b');
    b.clear();
    assert!(b.data.iter().all(|&c| c == ' '));
    assert_eq!(b.width, 3);
    assert_eq!(b.height, 2);
}

#[test]
fn clear_then_output_gives_blank_lines() {
    let mut b = ScreenBuffer::new(10, 5);
    b.clear();
    let text = b.output();
    let lines: Vec<&str> = text.lines().collect();
    assert_eq!(lines.len(), 5);
    for line in lines {
        assert_eq!(line, "          ");
    }
    assert_eq!(text, "          \n".repeat(5));
}

#[test]
fn output_keeps_rows_in_order() {
    let mut b = ScreenBuffer::new(3, 2);
    b.set(0, 0, 'a');
    b.set(2, 1, 'z');
    assert_eq!(b.output(), "a  \n  z\n");
}

#[test]
fn point_line_plots_one_cell() {
    let mut b = ScreenBuffer::new(6, 4);
    draw(&mut b, 3, 2, 3, 2, '#');
    assert_eq!(marked(&b), vec![(3, 2)]);
}

#[test]
fn point_line_off_grid_plots_nothing() {
    let mut b = ScreenBuffer::new(6, 4);
    draw(&mut b, -1, 2, -1, 2, '#');
    draw(&mut b, 2, -3, 2, -3, '#');
    draw(&mut b, 6, 1, 6, 1, '#');
    assert!(marked(&b).is_empty());
}

#[test]
fn horizontal_line_plots_five_cells() {
    let mut b = ScreenBuffer::new(10, 3);
    draw(&mut b, 0, 0, 5, 0, '#');
    assert_eq!(marked(&b), vec![(0, 0), (1, 0), (2, 0), (3, 0), (4, 0)]);
}

#[test]
fn leftward_line_stops_before_end() {
    let mut b = ScreenBuffer::new(10, 3);
    draw(&mut b, 5, 1, 2, 1, '#');
    assert_eq!(marked(&b), vec![(3, 1), (4, 1), (5, 1)]);
}

#[test]
fn steep_line_rounds_half_away_from_zero() {
    let mut b = ScreenBuffer::new(5, 7);
    draw(&mut b, 0, 0, 3, 6, '#');
    assert_eq!(
        marked(&b),
        vec![(0, 0), (1, 1), (1, 2), (2, 3), (2, 4), (3, 5)]
    );
}

#[test]
fn upward_diagonal_line() {
    let mut b = ScreenBuffer::new(5, 5);
    draw(&mut b, 0, 4, 4, 0, '*');
    assert_eq!(marked(&b), vec![(3, 1), (2, 2), (1, 3), (0, 4)]);
}

#[test]
fn line_crossing_left_edge_keeps_on_grid_part() {
    let mut b = ScreenBuffer::new(4, 3);
    draw(&mut b, -2, 1, 2, 1, '#');
    assert_eq!(marked(&b), vec![(0, 1), (1, 1)]);
}

#[test]
fn line_wholly_left_of_grid_draws_nothing() {
    let mut b = ScreenBuffer::new(4, 3);
    draw(&mut b, -3, 1, -1, 1, '#');
    draw(&mut b, -5, 0, -1, 2, '#');
    assert!(marked(&b).is_empty());
}

#[test]
fn line_wholly_above_grid_draws_nothing() {
    let mut b = ScreenBuffer::new(4, 3);
    draw(&mut b, 1, -4, 3, -1, '#');
    draw(&mut b, 0, -1, 3, -1, '#');
    assert!(marked(&b).is_empty());
}

#[test]
fn line_crossing_top_edge_keeps_on_grid_part() {
    let mut b = ScreenBuffer::new(4, 3);
    draw(&mut b, 1, -2, 1, 2, '#');
    assert_eq!(marked(&b), vec![(1, 0), (1, 1)]);
}

#[test]
fn line_past_right_edge_keeps_on_grid_part() {
    let mut b = ScreenBuffer::new(4, 3);
    draw(&mut b, 2, 2, 8, 2, '#');
    assert_eq!(marked(&b), vec![(2, 2), (3, 2)]);
}

#[test]
fn plot_projected_writes_visible_points_only() {
    let mut b = ScreenBuffer::new(4, 3);
    b.plot_projected(Some((1, 2)), '@');
    b.plot_projected(None, '@');
    b.plot_projected(Some((-1, 0)), '@');
    b.plot_projected(Some((0, -1)), '@');
    b.plot_projected(Some((4, 0)), '@');
    assert_eq!(marked(&b), vec![(1, 2)]);
    assert_eq!(cell(&b, 1, 2), '@');
}

#[test]
fn wireframe_draws_edges_then_vertices() {
    let mut b = ScreenBuffer::new(6, 4);
    let pts = vec![Some((0, 0)), Some((3, 0)), None, Some((3, 3))];
    let edges = vec![(0, 1), (1, 3), (2, 0)];
    let s = vec![samples(0, 0, 3, 0), samples(3, 0, 3, 3), Vec::new()];
    b.draw_wireframe(&pts, &edges, &s, '#', '@');
    assert_eq!(
        b.output(),
        "@##@  \n   #  \n   #  \n   @  \n"
    );
}

#[test]
fn wireframe_without_visible_points_draws_nothing() {
    let mut b = ScreenBuffer::new(3, 3);
    let pts = vec![None, None];
    let edges = vec![(0, 1)];
    b.draw_wireframe(&pts, &edges, &vec![Vec::new()], '#', '@');
    assert!(marked(&b).is_empty());
}

#[test]
fn step_count_is_chebyshev_distance() {
    assert_eq!(line_step_count(0, 0, 5, 0), 5);
    assert_eq!(line_step_count(4, 0, 5, 10), 10);
    assert_eq!(line_step_count(3, -2, -1, 1), 4);
    assert_eq!(line_step_count(7, 7, 7, 7), 0);
}

#[test]
fn shallow_line_keeps_float_drift() {
    let mut b = ScreenBuffer::new(80, 24);
    draw(&mut b, 0, 4, 10, 5, '#');
    assert_eq!(cell(&b, 5, 4), '#');
    assert_eq!(cell(&b, 5, 5), ' ');
    assert_eq!(marked(&b).len(), 10);
}

#[test]
fn steep_line_keeps_float_drift() {
    let mut b = ScreenBuffer::new(80, 24);
    draw(&mut b, 4, 0, 5, 10, '#');
    assert_eq!(cell(&b, 4, 5), '#');
    assert_eq!(cell(&b, 5, 5), ' ');
    assert_eq!(marked(&b).len(), 10);
}

#[test]
fn given_samples_are_written_in_turn() {
    let mut b = ScreenBuffer::new(4, 3);
    b.draw_line(0, 0, 2, 0, &vec![(3, 2), (-1, 1)], '#');
    assert_eq!(marked(&b), vec![(3, 2)]);
}
