//! Encoding and decoding of uncompressed 24-bit bitmap files, three bytes
//! per pixel (red, green, blue), no row padding. Files are written with
//! rows top to bottom and read in either row order.
use crate::raster::{Pixel, Raster};
use vstd::prelude::*;

verus! {

/// Why a byte string is not a bitmap that this module reads.
#[derive(Clone, Copy, Debug, PartialEq, Eq, Structural)]
pub enum BmpError {
    /// The input ends inside the headers or inside the pixel data.
    Truncated,
    /// The input does not start with the signature `BM`.
    Signature,
    /// A header field asks for a variant that is not supported: reserved
    /// fields not zero, planes not 1, depth not 24 bits, or compression.
    Unsupported,
}

/// The two little-endian bytes of `v`.
pub open spec fn le16(v: nat) -> Seq<u8> {
    seq![(v % 256) as u8, ((v / 256) % 256) as u8]
}

/// The four little-endian bytes of `v`.
pub open spec fn le32(v: nat) -> Seq<u8> {
    seq![
        (v % 256) as u8,
        ((v / 256) % 256) as u8,
        ((v / 256 / 256) % 256) as u8,
        ((v / 256 / 256 / 256) % 256) as u8,
    ]
}

/// The 32-bit two's complement pattern of `v`.
pub open spec fn i32_bits(v: int) -> nat {
    if v >= 0 {
        v as nat
    } else {
        (v + 0x1_0000_0000) as nat
    }
}

/// Channel `c` (0 red, 1 green, 2 blue) of `p`.
pub open spec fn channel(p: Pixel, c: int) -> u8 {
    if c == 0 {
        p.red
    } else if c == 1 {
        p.green
    } else {
        p.blue
    }
}

/// The pixel data: three bytes per pixel, in order.
pub open spec fn pixel_bytes(s: Seq<Pixel>) -> Seq<u8> {
    Seq::new(3 * s.len(), |j: int| channel(s[j / 3], j % 3))
}

/// The headers of a bitmap `width` pixels wide and `height` high holding
/// `count` pixels; the height is stored negated, meaning rows top to bottom.
pub open spec fn bmp_header(width: nat, height: nat, count: nat) -> Seq<u8> {
    seq![66u8, 77u8] + le32(54 + 3 * count) + le32(0) + le32(54) + le32(40) + le32(width) + le32(
        i32_bits(-height),
    ) + le16(1) + le16(24) + le32(0) + le32(0) + le32(0) + le32(0) + le32(0) + le32(0)
}

/// The file that `write_bmp` produces for `img`.
pub open spec fn bmp_bytes(img: Raster) -> Seq<u8> {
    bmp_header(img.width as nat, img.height_spec(), img.pixels@.len()) + pixel_bytes(img.pixels@)
}

/// The rasters that `write_bmp` can encode: every size field fits its field.
pub open spec fn encodable(img: Raster) -> bool {
    &&& 54 + 3 * img.pixels@.len() <= u32::MAX
    &&& img.width <= u32::MAX
    &&& img.height_spec() <= i32::MAX
}

/// Whether `write_bmp` can encode `img`.
pub fn is_encodable(img: &Raster) -> (r: bool)
    ensures
        r == encodable(*img),
{
    let n = img.pixels.len() as u64;
    n <= (0xffff_ffffu64 - 54) / 3 && img.width() as u64 <= 0xffff_ffffu64 && img.height() as u64
        <= 0x7fff_ffffu64
}

/// The unsigned 16-bit little-endian number at `i`.
pub open spec fn u16_at(b: Seq<u8>, i: int) -> nat {
    (b[i] + 256 * b[i + 1]) as nat
}

/// The unsigned 32-bit little-endian number at `i`.
pub open spec fn u32_at(b: Seq<u8>, i: int) -> nat {
    (b[i] + 256 * b[i + 1] + 65536 * b[i + 2] + 16777216 * b[i + 3]) as nat
}

/// The signed height field.
pub open spec fn height_field(b: Seq<u8>) -> int {
    let v = u32_at(b, 22);
    if v >= 0x8000_0000 {
        v - 0x1_0000_0000
    } else {
        v as int
    }
}

pub open spec fn bmp_width(b: Seq<u8>) -> nat {
    u32_at(b, 18)
}

/// The number of rows: the magnitude of the height field. A positive field
/// means rows stored bottom to top, zero or below top to bottom.
pub open spec fn bmp_height(b: Seq<u8>) -> nat {
    if height_field(b) > 0 {
        height_field(b) as nat
    } else {
        (-height_field(b)) as nat
    }
}

/// The stored row that holds row `y` of the image, counted from the top.
pub open spec fn source_row(b: Seq<u8>, y: int) -> int {
    if height_field(b) > 0 {
        bmp_height(b) - 1 - y
    } else {
        y
    }
}

pub open spec fn bmp_offset(b: Seq<u8>) -> nat {
    u32_at(b, 10)
}

/// What is wrong with `b` as a bitmap, if anything: first a short header,
/// then the signature, then an unsupported variant, then short pixel data.
pub open spec fn bmp_error(b: Seq<u8>) -> Option<BmpError> {
    if b.len() < 34 {
        Some(BmpError::Truncated)
    } else if b[0] != 66 || b[1] != 77 {
        Some(BmpError::Signature)
    } else if u16_at(b, 6) != 0 || u16_at(b, 8) != 0 || u16_at(b, 26) != 1 || u16_at(b, 28) != 24
        || u32_at(b, 30) != 0 {
        Some(BmpError::Unsupported)
    } else if bmp_offset(b) + 3 * (bmp_width(b) * bmp_height(b)) > b.len() {
        Some(BmpError::Truncated)
    } else {
        None
    }
}

/// The pixels of a well-formed bitmap `b`, top row first: pixel `(x, y)`
/// is read from stored row `source_row(b, y)` after the pixel offset.
pub open spec fn bmp_pixels(b: Seq<u8>) -> Seq<Pixel> {
    let off = bmp_offset(b) as int;
    let w = bmp_width(b) as int;
    Seq::new(
        bmp_width(b) * bmp_height(b),
        |i: int|
            {
                let o = off + 3 * (source_row(b, i / w) * w + i % w);
                Pixel { red: b[o], green: b[o + 1], blue: b[o + 2] }
            },
    )
}

fn write_u16_le(output: &mut Vec<u8>, value: u16)
    ensures
        final(output)@ == old(output)@ + le16(value as nat),
{
    output.push((value % 256) as u8);
    output.push(((value / 256) % 256) as u8);
    assert(final(output)@ =~= old(output)@ + le16(value as nat));
}

fn write_i16_le(output: &mut Vec<u8>, value: i16)
    requires
        value >= 0,
    ensures
        final(output)@ == old(output)@ + le16(value as nat),
{
    write_u16_le(output, value as u16);
}

fn write_u32_le(output: &mut Vec<u8>, value: u32)
    ensures
        final(output)@ == old(output)@ + le32(value as nat),
{
    output.push((value % 256) as u8);
    output.push(((value / 256) % 256) as u8);
    output.push(((value / 256 / 256) % 256) as u8);
    output.push(((value / 256 / 256 / 256) % 256) as u8);
    assert(final(output)@ =~= old(output)@ + le32(value as nat));
}

fn write_i32_le(output: &mut Vec<u8>, value: i32)
    ensures
        final(output)@ == old(output)@ + le32(i32_bits(value as int)),
{
    let bits: u32 = if value >= 0 {
        value as u32
    } else {
        (value as i64 + 0x1_0000_0000i64) as u32
    };
    write_u32_le(output, bits);
}

fn write_color(output: &mut Vec<u8>, value: Pixel)
    ensures
        final(output)@ == old(output)@ + seq![value.red, value.green, value.blue],
{
    output.push(value.red);
    output.push(value.green);
    output.push(value.blue);
    assert(final(output)@ =~= old(output)@ + seq![value.red, value.green, value.blue]);
}

/// Appends the bitmap file of `img` to `output`.
pub fn write_bmp(output: &mut Vec<u8>, img: &Raster)
    requires
        encodable(*img),
    ensures
        final(output)@ == old(output)@ + bmp_bytes(*img),
{
    let ghost start = output@;
    output.push(66u8);
    output.push(77u8);
    let pxbcount = (img.pixels.len() * 3) as u32;
    let fsize: u32 = 14 + 40 + pxbcount;
    write_u32_le(output, fsize);
    write_u32_le(output, 0);
    write_u32_le(output, 54);
    write_u32_le(output, 40);
    write_u32_le(output, img.width() as u32);
    write_i32_le(output, -1 * (img.height() as i32));
    write_i16_le(output, 1);
    write_i16_le(output, 24);
    write_u32_le(output, 0);
    write_u32_le(output, 0);
    write_u32_le(output, 0);
    write_u32_le(output, 0);
    write_u32_le(output, 0);
    write_u32_le(output, 0);
    let ghost header_end = output@;
    assert(header_end =~= start + bmp_header(
        img.width as nat,
        img.height_spec(),
        img.pixels@.len(),
    ));
    let n = img.pixels.len();
    let mut k: usize = 0;
    while k < n
        invariant
            k <= n,
            n == img.pixels@.len(),
            output@ == header_end + pixel_bytes(img.pixels@.subrange(0, k as int)),
        decreases n - k,
    {
        let ghost before = output@;
        write_color(output, img.pixels[k]);
        proof {
            let s0 = img.pixels@.subrange(0, k as int);
            let s1 = img.pixels@.subrange(0, k + 1);
            assert forall|j: int| 0 <= j < 3 * s1.len() implies #[trigger] pixel_bytes(s1)[j] == (
            pixel_bytes(s0) + seq![img.pixels@[k as int].red, img.pixels@[k as int].green, img.pixels@[k as int].blue])[j] by {
                if j < 3 * k {
                    assert(j / 3 < k) by (nonlinear_arith)
                        requires
                            0 <= j < 3 * k,
                    ;
                } else {
                    lemma_third(j, k as int);
                }
            }
            assert(pixel_bytes(s1) =~= pixel_bytes(s0) + seq![
                img.pixels@[k as int].red,
                img.pixels@[k as int].green,
                img.pixels@[k as int].blue,
            ]);
        }
        k = k + 1;
    }
    assert(img.pixels@.subrange(0, n as int) =~= img.pixels@);
}

/// How the rows of a bitmap are stored.
#[derive(Clone, Copy, PartialEq, Eq, Structural)]
enum PixelOrder {
    /// Top row first.
    Normal,
    /// Bottom row first.
    Strange,
}

fn read_u16_le(input: &[u8], i: usize) -> (r: u16)
    requires
        i + 2 <= input@.len(),
    ensures
        r == u16_at(input@, i as int),
{
    (input[i] as u16) + 256 * (input[i + 1] as u16)
}

fn read_u32_le(input: &[u8], i: usize) -> (r: u32)
    requires
        i + 4 <= input@.len(),
    ensures
        r == u32_at(input@, i as int),
{
    (input[i] as u32) + 256 * (input[i + 1] as u32) + 65536 * (input[i + 2] as u32) + 16777216 * (
    input[i + 3] as u32)
}

fn read_i32_le(input: &[u8], i: usize) -> (r: i32)
    requires
        i + 4 <= input@.len(),
    ensures
        i32_bits(r as int) == u32_at(input@, i as int),
        u32_at(input@, i as int) >= 0x8000_0000 ==> r == u32_at(input@, i as int) - 0x1_0000_0000,
        u32_at(input@, i as int) < 0x8000_0000 ==> r == u32_at(input@, i as int),
{
    let v = read_u32_le(input, i);
    if v >= 0x8000_0000 {
        (v as i64 - 0x1_0000_0000i64) as i32
    } else {
        v as i32
    }
}

/// The row order and the number of rows, from the signed height field.
fn read_height_field(input: &[u8]) -> (r: (PixelOrder, u32))
    requires
        34 <= input@.len(),
    ensures
        (r.0 == PixelOrder::Normal) == (height_field(input@) <= 0),
        r.1 as int == if height_field(input@) <= 0 {
            -height_field(input@)
        } else {
            height_field(input@)
        },
{
    let value = read_i32_le(input, 22);
    let order = if value > 0 {
        PixelOrder::Strange
    } else {
        PixelOrder::Normal
    };
    let magnitude: u32 = if value < 0 {
        (-(value as i64)) as u32
    } else {
        value as u32
    };
    (order, magnitude)
}

fn read_color(input: &[u8], i: usize) -> (r: Pixel)
    requires
        i + 3 <= input@.len(),
    ensures
        r == (Pixel { red: input@[i as int], green: input@[i + 1], blue: input@[i + 2] }),
{
    Pixel { red: input[i], green: input[i + 1], blue: input[i + 2] }
}

/// Reads a bitmap file held in `input`.
pub fn read_bmp(input: &[u8]) -> (r: Result<Raster, BmpError>)
    ensures
        match r {
            Ok(img) => {
                &&& bmp_error(input@).is_none()
                &&& img.width == bmp_width(input@)
                &&& img.pixels@ == bmp_pixels(input@)
            },
            Err(e) => bmp_error(input@) == Some(e),
        },
{
    if input.len() < 34 {
        return Err(BmpError::Truncated);
    }
    // file header
    if input[0] != 66 || input[1] != 77 {
        return Err(BmpError::Signature);
    }
    let reserved1 = read_u16_le(input, 6);
    let reserved2 = read_u16_le(input, 8);
    let offset = read_u32_le(input, 10);
    // image header
    let width = read_u32_le(input, 18);
    let (porder, height) = read_height_field(input);
    let planes = read_u16_le(input, 26);
    let bpp = read_u16_le(input, 28);
    let compression_t = read_u32_le(input, 30);
    if reserved1 != 0 || reserved2 != 0 || planes != 1 || bpp != 24 || compression_t != 0 {
        return Err(BmpError::Unsupported);
    }
    let len = input.len() as u64;
    let off = offset as u64;
    assert(width * height <= 0xffff_ffff * 0x8000_0000) by (nonlinear_arith)
        requires
            width <= 0xffff_ffff,
            height <= 0x8000_0000,
    ;
    let count = (width as u64) * (height as u64);
    proof {
        lemma_room(len as int, off as int, count as int);
    }
    if off > len || count > (len - off) / 3 {
        return Err(BmpError::Truncated);
    }
    let n = input.len();
    let size = count as usize;
    let start = offset as usize;
    let w = width as usize;
    let h = height as usize;
    let bottom_up = porder == PixelOrder::Strange;
    let mut pixels: Vec<Pixel> = Vec::with_capacity(size);
    let mut k: usize = 0;
    let mut x: usize = 0;
    let mut y: usize = 0;
    while k < size
        invariant
            k <= size,
            w == bmp_width(input@),
            h == bmp_height(input@),
            bottom_up == (height_field(input@) > 0),
            size == w * h,
            start == bmp_offset(input@),
            start + 3 * size <= input@.len(),
            n == input@.len(),
            k == y * w + x,
            w > 0 ==> x < w,
            w == 0 ==> x == 0 && y == 0,
            pixels@ == bmp_pixels(input@).subrange(0, k as int),
        decreases size - k,
    {
        assert(w > 0 && y < h) by (nonlinear_arith)
            requires
                k == y * w + x,
                k < size,
                size == w * h,
                w == 0 ==> x == 0 && y == 0,
                w > 0 ==> x < w,
        ;
        let sy = if bottom_up {
            h - 1 - y
        } else {
            y
        };
        proof {
            crate::matrix::lemma_cell_in_bounds(w as int, h as int, x as int, sy as int);
            vstd::arithmetic::div_mod::lemma_fundamental_div_mod_converse(k as int, w as int, y as int, x as int);
        }
        let p = read_color(input, start + 3 * (sy * w + x));
        pixels.push(p);
        assert(pixels@ =~= bmp_pixels(input@).subrange(0, k + 1));
        let ghost k0 = k as int;
        let ghost x0 = x as int;
        let ghost y0 = y as int;
        k = k + 1;
        x = x + 1;
        if x == w {
            x = 0;
            y = y + 1;
        }
        assert(k == y * w + x) by (nonlinear_arith)
            requires
                k0 == y0 * w + x0,
                k == k0 + 1,
                (x == x0 + 1 && y == y0) || (x0 + 1 == w && x == 0 && y == y0 + 1),
        ;
    }
    assert(pixels@ =~= bmp_pixels(input@));
    Ok(Raster { pixels, width: width as usize })
}

/// `count` pixels of three bytes fit after `off` in `len` bytes exactly
/// when the test made on them in 64-bit arithmetic passes.
proof fn lemma_room(len: int, off: int, count: int)
    requires
        0 <= len,
        0 <= off,
        0 <= count,
    ensures
        (off > len || count > (len - off) / 3) <==> off + 3 * count > len,
{
    if off <= len {
        vstd::arithmetic::div_mod::lemma_fundamental_div_mod(len - off, 3);
    }
}

/// Writing a raster as a bitmap and reading the bytes back gives a raster
/// of the same width and the same pixels, so of the same height too.
pub proof fn lemma_round_trip(img: Raster)
    requires
        img.wf(),
        encodable(img),
    ensures
        bmp_error(bmp_bytes(img)).is_none(),
        bmp_width(bmp_bytes(img)) == img.width,
        bmp_height(bmp_bytes(img)) == img.height_spec(),
        bmp_pixels(bmp_bytes(img)) == img.pixels@,
{
    let w = img.width as nat;
    let h = img.height_spec();
    let n = img.pixels@.len();
    let hd = bmp_header(w, h, n);
    let b = bmp_bytes(img);
    let bits = i32_bits(-h);
    assert(bits < 0x1_0000_0000);
    lemma_le32(0);
    lemma_le32(54);
    lemma_le32(w);
    lemma_le32(bits);
    lemma_le16(1);
    lemma_le16(24);
    assert(hd.len() == 54);
    assert(b.len() == 54 + 3 * n);
    assert(b.subrange(10, 14) =~= le32(54));
    assert(b.subrange(18, 22) =~= le32(w));
    assert(b.subrange(22, 26) =~= le32(bits));
    assert(b.subrange(30, 34) =~= le32(0));
    assert(b.subrange(6, 10) =~= le32(0));
    assert(b.subrange(26, 28) =~= le16(1));
    assert(b.subrange(28, 30) =~= le16(24));
    lemma_u32_field(b, 10, 54);
    lemma_u32_field(b, 18, w);
    lemma_u32_field(b, 22, bits);
    lemma_u32_field(b, 30, 0);
    assert(n == w * h);
    assert(b.subrange(54, b.len() as int) =~= pixel_bytes(img.pixels@));
    lemma_pixels_back(b, img.pixels@, w);
    assert(bmp_pixels(b) =~= img.pixels@);
}

/// The pixel data after a top-to-bottom header at offset 54 reads back as
/// the pixels written, row by row.
proof fn lemma_pixels_back(b: Seq<u8>, pixels: Seq<Pixel>, w: nat)
    requires
        b.len() == 54 + 3 * pixels.len(),
        b.subrange(54, b.len() as int) == pixel_bytes(pixels),
        bmp_offset(b) == 54,
        bmp_width(b) == w,
        height_field(b) <= 0,
        pixels.len() == w * bmp_height(b),
    ensures
        bmp_pixels(b) =~= pixels,
{
    let pb = pixel_bytes(pixels);
    assert forall|i: int| 0 <= i < pixels.len() implies #[trigger] bmp_pixels(b)[i] == pixels[i] by {
        assert(w > 0) by (nonlinear_arith)
            requires
                0 <= i < pixels.len(),
                pixels.len() == w * bmp_height(b),
        ;
        vstd::arithmetic::div_mod::lemma_fundamental_div_mod(i, w as int);
        assert((i / w as int) * w + i % (w as int) == i) by (nonlinear_arith)
            requires
                i == w * (i / w as int) + i % (w as int),
        ;
        lemma_third(3 * i, i);
        lemma_third(3 * i + 1, i);
        lemma_third(3 * i + 2, i);
        assert(b[54 + 3 * i] == b.subrange(54, b.len() as int)[3 * i]);
        assert(b[54 + 3 * i + 1] == b.subrange(54, b.len() as int)[3 * i + 1]);
        assert(b[54 + 3 * i + 2] == b.subrange(54, b.len() as int)[3 * i + 2]);
    }
}

/// Four bytes equal to `le32(v)` read back as `v`.
proof fn lemma_u32_field(b: Seq<u8>, i: int, v: nat)
    requires
        v < 0x1_0000_0000,
        0 <= i,
        i + 4 <= b.len(),
        b.subrange(i, i + 4) == le32(v),
    ensures
        u32_at(b, i) == v,
{
    lemma_le32(v);
    assert(b[i] == le32(v)[0]);
    assert(b[i + 1] == le32(v)[1]);
    assert(b[i + 2] == le32(v)[2]);
    assert(b[i + 3] == le32(v)[3]);
}

/// The little-endian bytes of a 32-bit number add up to it.
proof fn lemma_le32(v: nat)
    requires
        v < 0x1_0000_0000,
    ensures
        le32(v)[0] + 256 * le32(v)[1] + 65536 * le32(v)[2] + 16777216 * le32(v)[3] == v,
{
    let q1 = v / 256;
    let q2 = q1 / 256;
    let q3 = q2 / 256;
    vstd::arithmetic::div_mod::lemma_fundamental_div_mod(v as int, 256);
    vstd::arithmetic::div_mod::lemma_fundamental_div_mod(q1 as int, 256);
    vstd::arithmetic::div_mod::lemma_fundamental_div_mod(q2 as int, 256);
    assert(q3 < 256) by (nonlinear_arith)
        requires
            v == 256 * q1 + v % 256,
            q1 == 256 * q2 + q1 % 256,
            q2 == 256 * q3 + q2 % 256,
            0 <= v % 256,
            0 <= q1 % 256,
            0 <= q2 % 256,
            v < 0x1_0000_0000,
    ;
    assert(q3 % 256 == q3);
}

/// The little-endian bytes of a 16-bit number add up to it.
proof fn lemma_le16(v: nat)
    requires
        v < 0x1_0000,
    ensures
        le16(v)[0] + 256 * le16(v)[1] == v,
{
    vstd::arithmetic::div_mod::lemma_fundamental_div_mod(v as int, 256);
    assert(v / 256 < 256);
}

/// Position `j` in the three bytes of pixel `k` is channel `j - 3k` of it.
proof fn lemma_third(j: int, k: int)
    requires
        3 * k <= j < 3 * k + 3,
    ensures
        j / 3 == k,
        j % 3 == j - 3 * k,
{
    vstd::arithmetic::div_mod::lemma_fundamental_div_mod_converse(j, 3, k, j - 3 * k);
}

} // verus!
