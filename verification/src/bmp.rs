//! The byte layout of an uncompressed 24-bit bitmap: a 54-byte header,
//! then the pixel rows from the bottom row up, each pixel as blue, green,
//! red and each row padded to a multiple of four bytes.

use vstd::prelude::*;

verus! {

/// Length of the file header and the info header together.
pub const BMP_HEADER_SIZE: usize = 54;

/// Offset of the first pixel byte in the file.
pub const BMP_PIXEL_OFFSET: usize = 54;

/// Bits stored per pixel.
pub const BMP_BITS_PER_PIXEL: usize = 24;

/// Length of the info header.
pub const BMP_INFO_HEADER_SIZE: usize = 40;

/// Pixels per meter written for both axes.
pub const BMP_RESOLUTION: usize = 0x0B13;

/// The low 32 bits of `v`, least significant byte first.
pub open spec fn le32(v: nat) -> Seq<u8> {
    seq![
        (v % 256) as u8,
        (v / 0x100 % 256) as u8,
        (v / 0x1_0000 % 256) as u8,
        (v / 0x100_0000 % 256) as u8,
    ]
}

/// The low 16 bits of `v`, least significant byte first.
pub open spec fn le16(v: nat) -> Seq<u8> {
    seq![(v % 256) as u8, (v / 0x100 % 256) as u8]
}

/// The size that the header declares: the header and three bytes per pixel.
pub open spec fn declared_file_size(width: nat, height: nat) -> nat {
    54 + width * height * 24 / 8
}

/// The 54 header bytes of a `width` by `height` image.
pub open spec fn header_bytes(width: nat, height: nat) -> Seq<u8> {
    seq![0x42u8, 0x4Du8]  // "BM"
     + le32(declared_file_size(width, height))  // file size
     + le32(0)  // reserved
     + le32(54)  // offset of the pixel data
     + le32(40)  // size of the info header
     + le32(width) + le32(height) + le16(1)  // color planes
     + le16(24)  // bits per pixel
     + le32(0)  // no compression
     + le32(0)  // image size, left zero
     + le32(0x0B13) + le32(0x0B13)  // resolution on both axes
     + le32(0) + le32(0)  // colors used, colors important

}

/// Zero bytes that follow the pixels of a row so that its length is a
/// multiple of four.
pub open spec fn row_padding(width: nat) -> nat {
    ((4 - (width * 3) % 4) % 4) as nat
}

/// Bytes of one row in the file, padding included.
pub open spec fn row_stride(width: nat) -> nat {
    width * 3 + row_padding(width)
}

/// One pixel in the file: blue, green, red.
pub open spec fn pixel_bytes(color: u32) -> Seq<u8> {
    seq![(color % 256) as u8, (color / 0x100 % 256) as u8, (color / 0x1_0000 % 256) as u8]
}

/// The first `n` pixels of canvas row `y`, left to right.
pub open spec fn row_pixels(pixels: Seq<u32>, width: nat, y: int, n: nat) -> Seq<u8>
    decreases n,
{
    if n == 0 {
        Seq::empty()
    } else {
        row_pixels(pixels, width, y, (n - 1) as nat) + pixel_bytes(pixels[y * width + n - 1])
    }
}

/// Canvas row `y` as it stands in the file.
pub open spec fn row_bytes(pixels: Seq<u32>, width: nat, y: int) -> Seq<u8> {
    row_pixels(pixels, width, y, width) + Seq::new(row_padding(width), |i: int| 0u8)
}

/// The canvas rows `n - 1`, `n - 2`, down to `0`, in this order.
pub open spec fn rows_upward(pixels: Seq<u32>, width: nat, n: nat) -> Seq<u8>
    decreases n,
{
    if n == 0 {
        Seq::empty()
    } else {
        row_bytes(pixels, width, n - 1) + rows_upward(pixels, width, (n - 1) as nat)
    }
}

/// The whole file for a canvas of `width` by `height` pixels.
pub open spec fn bmp_bytes(pixels: Seq<u32>, width: nat, height: nat) -> Seq<u8> {
    header_bytes(width, height) + rows_upward(pixels, width, height)
}

/// Every slot of an image lies inside a buffer that holds the image.
pub proof fn lemma_row_major(width: int, height: int, x: int, y: int)
    requires
        0 <= x < width,
        0 <= y < height,
    ensures
        0 <= y * width <= y * width + x < width * height,
{
    assert(y * width + width <= height * width) by (nonlinear_arith)
        requires
            0 <= y < height,
            width > 0,
    ;
    assert(height * width == width * height) by (nonlinear_arith);
    assert(0 <= y * width) by (nonlinear_arith)
        requires
            0 <= y,
            width > 0,
    ;
}

/// The header is 54 bytes long.
pub proof fn lemma_header_len(width: nat, height: nat)
    ensures
        header_bytes(width, height).len() == 54,
{
}

/// The first `n` pixels of a row take three bytes each.
pub proof fn lemma_row_pixels_len(pixels: Seq<u32>, width: nat, y: int, n: nat)
    ensures
        row_pixels(pixels, width, y, n).len() == 3 * n,
    decreases n,
{
    if n > 0 {
        lemma_row_pixels_len(pixels, width, y, (n - 1) as nat);
    }
}

/// `n` rows take `n` times the stride.
pub proof fn lemma_rows_len(pixels: Seq<u32>, width: nat, n: nat)
    ensures
        rows_upward(pixels, width, n).len() == n * row_stride(width),
    decreases n,
{
    if n > 0 {
        lemma_rows_len(pixels, width, (n - 1) as nat);
        lemma_row_pixels_len(pixels, width, n - 1, width);
        assert(n * row_stride(width) == row_stride(width) + (n - 1) * row_stride(width))
            by (nonlinear_arith);
    } else {
        assert(0 * row_stride(width) == 0) by (nonlinear_arith);
    }
}

/// The file is the header and `height` rows of padded length, and each row's
/// length is a multiple of four.
pub proof fn lemma_bmp_len(pixels: Seq<u32>, width: nat, height: nat)
    ensures
        bmp_bytes(pixels, width, height).len() == 54 + height * row_stride(width),
        row_stride(width) % 4 == 0,
        row_stride(width) < width * 3 + 4,
{
    lemma_header_len(width, height);
    lemma_rows_len(pixels, width, height);
}

/// Where the rows need no padding, the size that the header declares is the
/// length of the file.
pub proof fn lemma_declared_size_exact(pixels: Seq<u32>, width: nat, height: nat)
    requires
        row_padding(width) == 0,
    ensures
        declared_file_size(width, height) == bmp_bytes(pixels, width, height).len(),
{
    lemma_bmp_len(pixels, width, height);
    assert(height * (width * 3) == width * height * 24 / 8) by (nonlinear_arith);
}

/// Four bytes read back, least significant first, as the number they were
/// written from, where that number fits in 32 bits.
pub proof fn lemma_le32_value(v: nat)
    requires
        v < 0x1_0000_0000,
    ensures
        le32(v).len() == 4,
        le32(v)[0] + 0x100 * le32(v)[1] + 0x1_0000 * le32(v)[2] + 0x100_0000 * le32(v)[3] == v,
{
}

/// The file starts with the header.
pub proof fn lemma_bmp_header_at(pixels: Seq<u32>, width: nat, height: nat, i: int)
    requires
        0 <= i < 54,
    ensures
        bmp_bytes(pixels, width, height)[i] == header_bytes(width, height)[i],
{
    lemma_header_len(width, height);
}

/// Pixel `x` of a row stands at byte `3 * x` of the row, as blue, green,
/// red.
pub proof fn lemma_row_pixel_at(pixels: Seq<u32>, width: nat, y: int, n: nat, x: int, k: int)
    requires
        0 <= x < n,
        0 <= k < 3,
    ensures
        row_pixels(pixels, width, y, n)[3 * x + k] == pixel_bytes(pixels[y * width + x])[k],
    decreases n,
{
    lemma_row_pixels_len(pixels, width, y, (n - 1) as nat);
    if x < n - 1 {
        lemma_row_pixel_at(pixels, width, y, (n - 1) as nat, x, k);
    }
}

/// Among `n` rows, row `y` starts `n - 1 - y` strides into the data: the
/// last row stands first.
pub proof fn lemma_rows_at(pixels: Seq<u32>, width: nat, n: nat, y: int, j: int)
    requires
        0 <= y < n,
        0 <= j < row_stride(width),
    ensures
        rows_upward(pixels, width, n)[(n - 1 - y) * row_stride(width) + j] == row_bytes(
            pixels,
            width,
            y,
        )[j],
    decreases n,
{
    let stride = row_stride(width) as int;
    lemma_row_pixels_len(pixels, width, n - 1, width);
    assert(row_bytes(pixels, width, n - 1).len() == stride);
    if y == n - 1 {
        assert((n - 1 - y) * stride == 0) by (nonlinear_arith)
            requires
                n - 1 - y == 0,
        ;
    } else {
        lemma_rows_at(pixels, width, (n - 1) as nat, y, j);
        lemma_rows_len(pixels, width, (n - 1) as nat);
        assert((n - 1 - y) * stride == stride + (n - 2 - y) * stride) by (nonlinear_arith);
        assert(0 <= (n - 2 - y) * stride && (n - 2 - y) * stride + stride <= (n - 1) * stride)
            by (nonlinear_arith)
            requires
                0 <= y <= n - 2,
                stride >= 0,
        ;
    }
}

/// In the file, the pixel `(x, y)` of the canvas stands after the header,
/// `height - 1 - y` rows in and three bytes per pixel along the row, as
/// blue, green, red.
pub proof fn lemma_bmp_pixel_at(
    pixels: Seq<u32>,
    width: nat,
    height: nat,
    x: int,
    y: int,
    k: int,
)
    requires
        0 <= x < width,
        0 <= y < height,
        0 <= k < 3,
    ensures
        bmp_bytes(pixels, width, height)[54 + (height - 1 - y) * row_stride(width) + 3 * x + k]
            == pixel_bytes(pixels[y * width + x])[k],
{
    let stride = row_stride(width) as int;
    lemma_header_len(width, height);
    lemma_rows_len(pixels, width, height);
    lemma_rows_at(pixels, width, height, y, 3 * x + k);
    lemma_row_pixels_len(pixels, width, y, width);
    lemma_row_pixel_at(pixels, width, y, width, x, k);
    assert(0 <= (height - 1 - y) * stride && (height - 1 - y) * stride + stride <= height * stride)
        by (nonlinear_arith)
        requires
            0 <= y < height,
            stride >= 0,
    ;
}

/// In the file, the bytes that follow the pixels of a row are zero.
pub proof fn lemma_bmp_padding_at(pixels: Seq<u32>, width: nat, height: nat, y: int, p: int)
    requires
        0 <= y < height,
        0 <= p < row_padding(width),
    ensures
        bmp_bytes(pixels, width, height)[54 + (height - 1 - y) * row_stride(width) + 3 * width + p]
            == 0,
{
    let stride = row_stride(width) as int;
    lemma_header_len(width, height);
    lemma_rows_len(pixels, width, height);
    lemma_rows_at(pixels, width, height, y, 3 * width + p);
    lemma_row_pixels_len(pixels, width, y, width);
    assert(0 <= (height - 1 - y) * stride && (height - 1 - y) * stride + stride <= height * stride)
        by (nonlinear_arith)
        requires
            0 <= y < height,
            stride >= 0,
    ;
}

fn push_le32(out: &mut Vec<u8>, v: u128)
    ensures
        final(out)@ == old(out)@ + le32(v as nat),
{
    out.push((v % 256) as u8);
    out.push((v / 0x100 % 256) as u8);
    out.push((v / 0x1_0000 % 256) as u8);
    out.push((v / 0x100_0000 % 256) as u8);
    assert(out@ =~= old(out)@ + le32(v as nat));
}

fn push_le16(out: &mut Vec<u8>, v: u128)
    ensures
        final(out)@ == old(out)@ + le16(v as nat),
{
    out.push((v % 256) as u8);
    out.push((v / 0x100 % 256) as u8);
    assert(out@ =~= old(out)@ + le16(v as nat));
}

/// Appends the header of a `width` by `height` image to `out`.
pub fn write_bmp_header(out: &mut Vec<u8>, width: usize, height: usize)
    requires
        width * height <= usize::MAX,
    ensures
        final(out)@ == old(out)@ + header_bytes(width as nat, height as nat),
{
    assert(width * height * 24 <= usize::MAX * 24) by (nonlinear_arith)
        requires
            width * height <= usize::MAX,
    ;
    let pixels: u128 = (width as u128) * (height as u128);
    let file_size: u128 = (BMP_HEADER_SIZE as u128) + pixels * (BMP_BITS_PER_PIXEL as u128) / 8;
    let ghost start = out@;
    out.push(0x42u8);
    out.push(0x4Du8);
    assert(out@ =~= start + seq![0x42u8, 0x4Du8]);
    push_le32(out, file_size);
    push_le32(out, 0);
    push_le32(out, BMP_PIXEL_OFFSET as u128);
    push_le32(out, BMP_INFO_HEADER_SIZE as u128);
    push_le32(out, width as u128);
    push_le32(out, height as u128);
    push_le16(out, 1);
    push_le16(out, BMP_BITS_PER_PIXEL as u128);
    push_le32(out, 0);
    push_le32(out, 0);
    push_le32(out, BMP_RESOLUTION as u128);
    push_le32(out, BMP_RESOLUTION as u128);
    push_le32(out, 0);
    push_le32(out, 0);
    assert(out@ =~= start + header_bytes(width as nat, height as nat));
}

/// Appends the pixel rows of the image to `out`, the bottom row first.
pub fn write_pixel_data(out: &mut Vec<u8>, buffer: &[u32], width: usize, height: usize)
    requires
        width * height <= buffer@.len(),
    ensures
        final(out)@ == old(out)@ + rows_upward(buffer@, width as nat, height as nat),
{
    let padding_size: usize = ((4 - (width as u128) * 3 % 4) % 4) as usize;
    let ghost start = out@;
    let mut y: usize = height;
    while y > 0
        invariant
            y <= height,
            width * height <= buffer@.len(),
            padding_size == row_padding(width as nat),
            out@ + rows_upward(buffer@, width as nat, y as nat) == start + rows_upward(
                buffer@,
                width as nat,
                height as nat,
            ),
        decreases y,
    {
        let ghost before = out@;
        y -= 1;
        let mut x: usize = 0;
        while x < width
            invariant
                x <= width,
                y < height,
                width * height <= buffer@.len(),
                out@ == before + row_pixels(buffer@, width as nat, y as int, x as nat),
            decreases width - x,
        {
            proof {
                lemma_row_major(width as int, height as int, x as int, y as int);
                assert(y * width + x < buffer@.len() == buffer.len());
            }
            let color = buffer[y * width + x];
            let blue = (color % 256) as u8;
            let green = (color / 0x100 % 256) as u8;
            let red = (color / 0x1_0000 % 256) as u8;
            out.push(blue);
            out.push(green);
            out.push(red);
            x += 1;
            assert(out@ =~= before + row_pixels(buffer@, width as nat, y as int, x as nat));
        }
        let ghost pixels_done = out@;
        let mut p: usize = 0;
        while p < padding_size
            invariant
                p <= padding_size,
                out@ == pixels_done + Seq::new(p as nat, |i: int| 0u8),
            decreases padding_size - p,
        {
            out.push(0u8);
            p += 1;
            assert(out@ =~= pixels_done + Seq::new(p as nat, |i: int| 0u8));
        }
        assert(out@ == before + row_bytes(buffer@, width as nat, y as int));
        assert(out@ + rows_upward(buffer@, width as nat, y as nat) =~= before + rows_upward(
            buffer@,
            width as nat,
            (y + 1) as nat,
        ));
    }
    assert(out@ =~= out@ + rows_upward(buffer@, width as nat, 0));
}

/// Encodes the image held row by row in `buffer` as a bitmap file.
pub fn encode_bmp(buffer: &[u32], width: usize, height: usize) -> (bytes: Vec<u8>)
    requires
        width * height <= buffer@.len(),
    ensures
        bytes@ == bmp_bytes(buffer@, width as nat, height as nat),
{
    let mut bytes: Vec<u8> = Vec::new();
    assert(width * height <= buffer@.len() == buffer.len());
    write_bmp_header(&mut bytes, width, height);
    write_pixel_data(&mut bytes, buffer, width, height);
    assert(bytes@ =~= bmp_bytes(buffer@, width as nat, height as nat));
    bytes
}

} // verus!
