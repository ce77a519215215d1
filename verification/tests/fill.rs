use polygon_raster::framebuffer::Framebuffer;
use polygon_raster::line_impl::Vertex;
use polygon_raster::polygon::{
    draw_polygon, edge_crosses, edge_intersection, fill_crossings, fill_polygon, fill_scanline,
    fill_span, scanline_crossings,
};

fn at(x: i32, y: i32) -> Vertex {
    Vertex { x, y }
}

fn white(fb: &Framebuffer) -> Vec<(usize, usize)> {
    let mut out = Vec::new();
    for y in 0..fb.height {
        for x in 0..fb.width {
            if fb.get_color(x, y) == Some(0xFFFFFF) {
                out.push((x, y));
            }
        }
    }
    out
}

fn block(x0: usize, x1: usize, y0: usize, y1: usize) -> Vec<(usize, usize)> {
    let mut out = Vec::new();
    for y in y0..=y1 {
        for x in x0..=x1 {
            out.push((x, y));
        }
    }
    out
}

#[test]
fn crossing_rule_is_half_open() {
    assert!(edge_crosses(at(0, 2), at(0, 6), 2));
    assert!(edge_crosses(at(0, 2), at(0, 6), 5));
    assert!(!edge_crosses(at(0, 2), at(0, 6), 6));
    assert!(!edge_crosses(at(0, 2), at(0, 6), 1));
    assert!(edge_crosses(at(0, 6), at(0, 2), 2));
    assert!(!edge_crosses(at(0, 6), at(0, 2), 6));
}

#[test]
fn horizontal_edge_is_never_crossed() {
    assert!(!edge_crosses(at(2, 3), at(8, 3), 3));
    assert!(!edge_crosses(at(2, 3), at(8, 3), 2));
    assert!(!edge_crosses(at(2, 3), at(8, 3), 4));
}

#[test]
fn intersection_interpolates_and_rounds() {
    assert_eq!(edge_intersection(at(0, 0), at(4, 4), 1), 1);
    assert_eq!(edge_intersection(at(4, 0), at(0, 4), 1), 3);
    assert_eq!(edge_intersection(at(0, 0), at(10, 3), 1), 3);
    assert_eq!(edge_intersection(at(0, 0), at(10, 3), 2), 7);
    assert_eq!(edge_intersection(at(10, 3), at(0, 0), 2), 7);
}

#[test]
fn intersection_rounds_half_away_from_zero() {
    assert_eq!(edge_intersection(at(0, 0), at(3, 2), 1), 2);
    assert_eq!(edge_intersection(at(0, 0), at(-3, 2), 1), -2);
    assert_eq!(edge_intersection(at(-3, 2), at(0, 0), 1), -2);
}

#[test]
fn crossings_follow_the_edge_order() {
    let corners = [at(2, 2), at(8, 2), at(8, 6), at(2, 6)];
    assert_eq!(scanline_crossings(&corners, 3), vec![8, 2]);
    assert_eq!(scanline_crossings(&corners, 2), vec![8, 2]);
    assert_eq!(scanline_crossings(&corners, 6), Vec::<i64>::new());
    assert_eq!(scanline_crossings(&corners, 1), Vec::<i64>::new());
}

#[test]
fn span_is_inclusive_and_clipped() {
    let mut fb = Framebuffer::new(6, 3).unwrap();
    fill_span(&mut fb, 1, 2, 4);
    assert_eq!(white(&fb), vec![(2, 1), (3, 1), (4, 1)]);
    fill_span(&mut fb, 2, -3, 9);
    assert_eq!(white(&fb), vec![(2, 1), (3, 1), (4, 1), (0, 2), (1, 2), (2, 2), (3, 2), (4, 2), (5, 2)]);
}

#[test]
fn span_outside_or_empty_changes_nothing() {
    let mut fb = Framebuffer::new(6, 3).unwrap();
    let before = fb.buffer.clone();
    fill_span(&mut fb, 1, 4, 2);
    fill_span(&mut fb, -1, 0, 5);
    fill_span(&mut fb, 3, 0, 5);
    fill_span(&mut fb, 1, -9, -1);
    fill_span(&mut fb, 1, 6, 12);
    assert_eq!(fb.buffer, before);
}

#[test]
fn crossings_are_sorted_before_pairing() {
    let mut fb = Framebuffer::new(12, 2).unwrap();
    fill_crossings(&mut fb, 0, vec![9, 1, 7, 3]);
    assert_eq!(white(&fb), vec![(1, 0), (2, 0), (3, 0), (7, 0), (8, 0), (9, 0)]);
}

#[test]
fn odd_crossing_is_dropped() {
    let mut fb = Framebuffer::new(12, 2).unwrap();
    fill_crossings(&mut fb, 1, vec![10, 4, 2]);
    assert_eq!(white(&fb), vec![(2, 1), (3, 1), (4, 1)]);
    let before = fb.buffer.clone();
    fill_crossings(&mut fb, 0, vec![5]);
    fill_crossings(&mut fb, 0, vec![]);
    assert_eq!(fb.buffer, before);
}

#[test]
fn scanline_fills_between_edges() {
    let corners = [at(2, 2), at(8, 2), at(8, 6), at(2, 6)];
    let mut fb = Framebuffer::new(12, 10).unwrap();
    fill_scanline(&mut fb, &corners, 4);
    assert_eq!(white(&fb), block(2, 8, 4, 4));
}

#[test]
fn rectangle_fill_covers_rows_above_the_lowest_edge() {
    let corners = [at(2, 2), at(8, 2), at(8, 6), at(2, 6)];
    let mut fb = Framebuffer::new(12, 10).unwrap();
    fill_polygon(&mut fb, &corners);
    assert_eq!(white(&fb), block(2, 8, 2, 5));
}

#[test]
fn rectangle_fill_and_outline_cover_the_rectangle() {
    let corners = [at(2, 2), at(8, 2), at(8, 6), at(2, 6)];
    let mut fb = Framebuffer::new(12, 10).unwrap();
    fill_polygon(&mut fb, &corners);
    draw_polygon(&mut fb, &corners);
    assert_eq!(white(&fb), block(2, 8, 2, 6));
}

#[test]
fn triangle_fill_follows_the_slanted_edge() {
    let mut fb = Framebuffer::new(8, 8).unwrap();
    fill_polygon(&mut fb, &[at(0, 0), at(4, 0), at(0, 4)]);
    let mut expected = block(0, 4, 0, 0);
    expected.extend(block(0, 3, 1, 1));
    expected.extend(block(0, 2, 2, 2));
    expected.extend(block(0, 1, 3, 3));
    assert_eq!(white(&fb), expected);
}

#[test]
fn fill_needs_three_corners() {
    let mut fb = Framebuffer::new(8, 8).unwrap();
    let before = fb.buffer.clone();
    fill_polygon(&mut fb, &[]);
    fill_polygon(&mut fb, &[at(1, 1)]);
    fill_polygon(&mut fb, &[at(1, 1), at(5, 5)]);
    assert_eq!(fb.buffer, before);
}

#[test]
fn fill_is_clipped_to_the_canvas() {
    let mut fb = Framebuffer::new(4, 4).unwrap();
    fill_polygon(&mut fb, &[at(-3, -3), at(9, -3), at(9, 9), at(-3, 9)]);
    assert_eq!(white(&fb), block(0, 3, 0, 3));
}

#[test]
fn fill_outside_changes_nothing() {
    let mut fb = Framebuffer::new(4, 4).unwrap();
    fb.point(2, 2);
    let before = fb.buffer.clone();
    fill_polygon(&mut fb, &[at(-9, -9), at(-2, -9), at(-2, -2), at(-9, -2)]);
    fill_polygon(&mut fb, &[at(4, 0), at(9, 0), at(9, 4), at(4, 4)]);
    assert_eq!(fb.buffer, before);
}

#[test]
fn fill_uses_current_color_only() {
    let mut fb = Framebuffer::new(6, 6).unwrap();
    fb.set_background_color(0x101010);
    fb.clear();
    fb.set_current_color(0xFFFF00);
    fill_polygon(&mut fb, &[at(1, 1), at(4, 1), at(4, 4), at(1, 4)]);
    for y in 0..6usize {
        for x in 0..6usize {
            let inside = (1..=4).contains(&x) && (1..=3).contains(&y);
            let expected = if inside { 0xFFFF00 } else { 0x101010 };
            assert_eq!(fb.get_color(x, y), Some(expected));
        }
    }
}
