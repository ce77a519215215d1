use polygon_raster::bmp::{encode_bmp, write_bmp_header, write_pixel_data};
use polygon_raster::framebuffer::Framebuffer;

fn le32(bytes: &[u8], at: usize) -> u32 {
    u32::from_le_bytes([bytes[at], bytes[at + 1], bytes[at + 2], bytes[at + 3]])
}

fn le16(bytes: &[u8], at: usize) -> u16 {
    u16::from_le_bytes([bytes[at], bytes[at + 1]])
}

#[test]
fn header_layout() {
    let mut out = Vec::new();
    write_bmp_header(&mut out, 800, 600);
    assert_eq!(out.len(), 54);
    assert_eq!(&out[0..2], b"BM");
    assert_eq!(le32(&out, 2), 54 + 800 * 600 * 3);
    assert_eq!(le32(&out, 6), 0);
    assert_eq!(le32(&out, 10), 54);
    assert_eq!(le32(&out, 14), 40);
    assert_eq!(le32(&out, 18), 800);
    assert_eq!(le32(&out, 22), 600);
    assert_eq!(le16(&out, 26), 1);
    assert_eq!(le16(&out, 28), 24);
    assert_eq!(le32(&out, 30), 0);
    assert_eq!(le32(&out, 34), 0);
    assert_eq!(le32(&out, 38), 2835);
    assert_eq!(le32(&out, 42), 2835);
    assert_eq!(le32(&out, 46), 0);
    assert_eq!(le32(&out, 50), 0);
}

#[test]
fn header_resolution_bytes() {
    let mut out = Vec::new();
    write_bmp_header(&mut out, 1, 1);
    assert_eq!(&out[38..42], &[0x13, 0x0B, 0, 0]);
    assert_eq!(&out[42..46], &[0x13, 0x0B, 0, 0]);
}

#[test]
fn header_is_appended() {
    let mut out = vec![7u8, 8, 9];
    write_bmp_header(&mut out, 3, 2);
    assert_eq!(out.len(), 57);
    assert_eq!(&out[0..3], &[7, 8, 9]);
    assert_eq!(&out[3..5], b"BM");
}

#[test]
fn white_two_by_two() {
    let mut fb = Framebuffer::new(2, 2).unwrap();
    fb.set_background_color(0xFFFFFF);
    fb.clear();
    let bytes = fb.render_buffer();
    assert_eq!(bytes.len(), 54 + 2 * (3 * 2 + 2));
    assert_eq!(bytes.len(), 70);
    let row = [0xFF, 0xFF, 0xFF, 0xFF, 0xFF, 0xFF, 0x00, 0x00];
    assert_eq!(&bytes[54..62], &row);
    assert_eq!(&bytes[62..70], &row);
    assert_eq!(le32(&bytes, 2), 54 + 2 * 2 * 3);
    assert_eq!(le32(&bytes, 18), 2);
    assert_eq!(le32(&bytes, 22), 2);
}

#[test]
fn black_one_by_one() {
    let fb = Framebuffer::new(1, 1).unwrap();
    let bytes = fb.render_buffer();
    assert_eq!(bytes.len(), 58);
    assert_eq!(&bytes[54..58], &[0, 0, 0, 0]);
    assert_eq!(le32(&bytes, 2), 57);
    assert_eq!(le32(&bytes, 10), 54);
}

#[test]
fn declared_size_is_exact_without_padding() {
    let fb = Framebuffer::new(4, 3).unwrap();
    let bytes = fb.render_buffer();
    assert_eq!(bytes.len(), 54 + 4 * 3 * 3);
    assert_eq!(le32(&bytes, 2) as usize, bytes.len());
}

#[test]
fn pixels_are_blue_green_red() {
    let bytes = encode_bmp(&[0x112233], 1, 1);
    assert_eq!(&bytes[54..58], &[0x33, 0x22, 0x11, 0x00]);
}

#[test]
fn bits_above_red_are_not_written() {
    let bytes = encode_bmp(&[0xAB112233], 1, 1);
    assert_eq!(&bytes[54..58], &[0x33, 0x22, 0x11, 0x00]);
}

#[test]
fn rows_are_written_bottom_up() {
    let buffer = [0x000001, 0x000002, 0x000003, 0x000004, 0x000005, 0x000006];
    let mut out = Vec::new();
    write_pixel_data(&mut out, &buffer, 3, 2);
    assert_eq!(
        out,
        vec![4, 0, 0, 5, 0, 0, 6, 0, 0, 0, 0, 0, 1, 0, 0, 2, 0, 0, 3, 0, 0, 0, 0, 0]
    );
}

#[test]
fn padding_per_width() {
    for (width, padding) in [(1usize, 1usize), (2, 2), (3, 3), (4, 0), (5, 1)] {
        let buffer = vec![0xFFFFFFu32; width];
        let mut out = Vec::new();
        write_pixel_data(&mut out, &buffer, width, 1);
        assert_eq!(out.len(), width * 3 + padding);
        assert_eq!((width * 3 + padding) % 4, 0);
        assert!(out[..width * 3].iter().all(|&b| b == 0xFF));
        assert!(out[width * 3..].iter().all(|&b| b == 0));
    }
}

#[test]
fn empty_image_is_header_only() {
    let bytes = encode_bmp(&[], 0, 0);
    assert_eq!(bytes.len(), 54);
    assert_eq!(le32(&bytes, 2), 54);
}

#[test]
fn render_matches_encode() {
    let mut fb = Framebuffer::new(3, 2).unwrap();
    fb.set_current_color(0xFF8000);
    fb.point(0, 0);
    fb.point(2, 1);
    let bytes = fb.render_buffer();
    assert_eq!(bytes, encode_bmp(&fb.buffer, 3, 2));
    assert_eq!(&bytes[54..66], &[0, 0, 0, 0, 0, 0, 0x00, 0x80, 0xFF, 0, 0, 0]);
    assert_eq!(&bytes[66..78], &[0x00, 0x80, 0xFF, 0, 0, 0, 0, 0, 0, 0, 0, 0]);
}
