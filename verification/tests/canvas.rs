use polygon_raster::framebuffer::{CanvasError, Framebuffer};

#[test]
fn new_canvas_is_black_and_draws_white() {
    let fb = Framebuffer::new(4, 3).unwrap();
    assert_eq!(fb.width, 4);
    assert_eq!(fb.height, 3);
    assert_eq!(fb.buffer.len(), 12);
    assert_eq!(fb.background_color, 0x000000);
    assert_eq!(fb.current_color, 0xFFFFFF);
    for y in 0..3 {
        for x in 0..4 {
            assert_eq!(fb.get_color(x, y), Some(0x000000));
        }
    }
}

#[test]
fn new_rejects_zero_width() {
    assert_eq!(Framebuffer::new(0, 5).err(), Some(CanvasError::ZeroDimension));
}

#[test]
fn new_rejects_zero_height() {
    assert_eq!(Framebuffer::new(5, 0).err(), Some(CanvasError::ZeroDimension));
    assert_eq!(Framebuffer::new(0, 0).err(), Some(CanvasError::ZeroDimension));
}

#[test]
fn new_rejects_unaddressable_size() {
    assert_eq!(Framebuffer::new(usize::MAX, 2).err(), Some(CanvasError::TooLarge));
}

#[test]
fn point_then_get_color_returns_current_color() {
    let mut fb = Framebuffer::new(5, 4).unwrap();
    fb.set_current_color(0x12AB34);
    for y in 0..4 {
        for x in 0..5 {
            fb.point(x, y);
            assert_eq!(fb.get_color(x, y), Some(0x12AB34));
        }
    }
}

#[test]
fn point_is_stored_row_major() {
    let mut fb = Framebuffer::new(5, 4).unwrap();
    fb.point(3, 2);
    assert_eq!(fb.buffer[2 * 5 + 3], 0xFFFFFF);
    assert_eq!(fb.buffer.iter().filter(|&&p| p == 0xFFFFFF).count(), 1);
}

#[test]
fn point_out_of_bounds_changes_nothing() {
    let mut fb = Framebuffer::new(5, 4).unwrap();
    let before = fb.buffer.clone();
    fb.point(5, 0);
    fb.point(0, 4);
    fb.point(5, 4);
    fb.point(usize::MAX, usize::MAX);
    assert_eq!(fb.buffer, before);
}

#[test]
fn plot_ignores_negative_positions() {
    let mut fb = Framebuffer::new(5, 4).unwrap();
    let before = fb.buffer.clone();
    fb.plot(-1, 0);
    fb.plot(0, -1);
    fb.plot(-1, -1);
    fb.plot(i64::MIN, 2);
    fb.plot(5, 3);
    fb.plot(4, 4);
    assert_eq!(fb.buffer, before);
    fb.plot(4, 3);
    assert_eq!(fb.get_color(4, 3), Some(0xFFFFFF));
}

#[test]
fn get_color_outside_is_none() {
    let fb = Framebuffer::new(5, 4).unwrap();
    assert_eq!(fb.get_color(5, 0), None);
    assert_eq!(fb.get_color(0, 4), None);
    assert_eq!(fb.get_color(4, 3), Some(0));
}

#[test]
fn clear_paints_every_pixel_in_background() {
    let mut fb = Framebuffer::new(6, 3).unwrap();
    fb.point(1, 1);
    fb.point(5, 2);
    fb.set_background_color(0x336699);
    fb.clear();
    for y in 0..3 {
        for x in 0..6 {
            assert_eq!(fb.get_color(x, y), Some(0x336699));
        }
    }
}

#[test]
fn clear_twice_equals_clear_once() {
    let mut fb = Framebuffer::new(6, 3).unwrap();
    fb.point(2, 2);
    fb.set_background_color(0x0000FF);
    fb.clear();
    let once = fb.buffer.clone();
    fb.clear();
    assert_eq!(fb.buffer, once);
    assert_eq!(fb.width, 6);
    assert_eq!(fb.height, 3);
}

#[test]
fn setters_do_not_repaint() {
    let mut fb = Framebuffer::new(3, 3).unwrap();
    fb.point(1, 1);
    let before = fb.buffer.clone();
    fb.set_background_color(0xFF0000);
    fb.set_current_color(0x00FF00);
    assert_eq!(fb.buffer, before);
    assert_eq!(fb.background_color, 0xFF0000);
    assert_eq!(fb.current_color, 0x00FF00);
    fb.point(0, 0);
    assert_eq!(fb.get_color(0, 0), Some(0x00FF00));
    assert_eq!(fb.get_color(1, 1), Some(0xFFFFFF));
}
