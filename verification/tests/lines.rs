use polygon_raster::framebuffer::Framebuffer;
use polygon_raster::line_impl::{Line, Vertex};
use polygon_raster::polygon::draw_polygon;

fn v(x: i32, y: i32) -> Vertex {
    Vertex { x, y }
}

fn painted(fb: &Framebuffer, color: u32) -> Vec<(usize, usize)> {
    let mut out = Vec::new();
    for y in 0..fb.height {
        for x in 0..fb.width {
            if fb.get_color(x, y) == Some(color) {
                out.push((x, y));
            }
        }
    }
    out
}

#[test]
fn horizontal_line_sets_five_pixels() {
    let mut fb = Framebuffer::new(10, 10).unwrap();
    fb.line(v(0, 0), v(4, 0));
    assert_eq!(painted(&fb, 0xFFFFFF), vec![(0, 0), (1, 0), (2, 0), (3, 0), (4, 0)]);
}

#[test]
fn vertical_line_sets_five_pixels() {
    let mut fb = Framebuffer::new(10, 10).unwrap();
    fb.line(v(0, 0), v(0, 4));
    assert_eq!(painted(&fb, 0xFFFFFF), vec![(0, 0), (0, 1), (0, 2), (0, 3), (0, 4)]);
}

#[test]
fn diagonal_line_sets_five_pixels() {
    let mut fb = Framebuffer::new(10, 10).unwrap();
    fb.line(v(0, 0), v(4, 4));
    assert_eq!(painted(&fb, 0xFFFFFF), vec![(0, 0), (1, 1), (2, 2), (3, 3), (4, 4)]);
}

#[test]
fn line_runs_backward_too() {
    let mut fb = Framebuffer::new(10, 10).unwrap();
    fb.line(v(4, 4), v(0, 0));
    assert_eq!(painted(&fb, 0xFFFFFF), vec![(0, 0), (1, 1), (2, 2), (3, 3), (4, 4)]);
}

#[test]
fn single_point_line() {
    let mut fb = Framebuffer::new(10, 10).unwrap();
    fb.line(v(3, 7), v(3, 7));
    assert_eq!(painted(&fb, 0xFFFFFF), vec![(3, 7)]);
}

#[test]
fn shallow_line_steps_by_error_term() {
    let mut fb = Framebuffer::new(10, 10).unwrap();
    fb.line(v(0, 0), v(5, 2));
    assert_eq!(painted(&fb, 0xFFFFFF), vec![(0, 0), (1, 0), (2, 1), (3, 1), (4, 2), (5, 2)]);
}

#[test]
fn steep_line_steps_by_error_term() {
    let mut fb = Framebuffer::new(10, 10).unwrap();
    fb.line(v(0, 0), v(2, 5));
    assert_eq!(painted(&fb, 0xFFFFFF), vec![(0, 0), (0, 1), (1, 2), (1, 3), (2, 4), (2, 5)]);
}

#[test]
fn line_uses_current_color() {
    let mut fb = Framebuffer::new(4, 4).unwrap();
    fb.set_current_color(0xFFFF00);
    fb.line(v(0, 1), v(3, 1));
    assert_eq!(painted(&fb, 0xFFFF00), vec![(0, 1), (1, 1), (2, 1), (3, 1)]);
}

#[test]
fn line_is_clipped_to_the_canvas() {
    let mut fb = Framebuffer::new(4, 4).unwrap();
    fb.line(v(-3, 2), v(8, 2));
    assert_eq!(painted(&fb, 0xFFFFFF), vec![(0, 2), (1, 2), (2, 2), (3, 2)]);
}

#[test]
fn line_outside_changes_nothing() {
    let mut fb = Framebuffer::new(4, 4).unwrap();
    fb.point(1, 1);
    let before = fb.buffer.clone();
    fb.line(v(-5, -5), v(-1, -1));
    fb.line(v(4, 0), v(9, 3));
    fb.line(v(0, 4), v(3, 40));
    fb.line(v(-2, -7), v(3, -1));
    assert_eq!(fb.buffer, before);
}

#[test]
fn outline_closes_the_polygon() {
    let mut fb = Framebuffer::new(6, 6).unwrap();
    fb.draw_polygon(&[v(1, 1), v(4, 1), v(4, 4), v(1, 4)]);
    let mut expected = Vec::new();
    for y in 1..=4usize {
        for x in 1..=4usize {
            if x == 1 || x == 4 || y == 1 || y == 4 {
                expected.push((x, y));
            }
        }
    }
    assert_eq!(painted(&fb, 0xFFFFFF), expected);
}

#[test]
fn outline_needs_three_corners() {
    let mut fb = Framebuffer::new(6, 6).unwrap();
    let before = fb.buffer.clone();
    fb.draw_polygon(&[]);
    fb.draw_polygon(&[v(1, 1)]);
    fb.draw_polygon(&[v(1, 1), v(4, 4)]);
    draw_polygon(&mut fb, &[v(0, 0), v(5, 0)]);
    assert_eq!(fb.buffer, before);
}

#[test]
fn free_outline_matches_method() {
    let corners = [v(0, 0), v(5, 1), v(2, 5)];
    let mut a = Framebuffer::new(6, 6).unwrap();
    let mut b = Framebuffer::new(6, 6).unwrap();
    a.draw_polygon(&corners);
    draw_polygon(&mut b, &corners);
    assert_eq!(a.buffer, b.buffer);
    assert_eq!(a.get_color(0, 0), Some(0xFFFFFF));
    assert_eq!(a.get_color(5, 1), Some(0xFFFFFF));
    assert_eq!(a.get_color(2, 5), Some(0xFFFFFF));
}
