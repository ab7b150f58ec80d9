//! The RGBA8 data model: buffer lengths, and the mapping between byte
//! indices and pixel coordinates.

use vstd::prelude::*;
use vstd::arithmetic::div_mod::lemma_fundamental_div_mod_converse;
use vstd::arithmetic::mul::lemma_mul_inequality;

verus! {

/// Byte length of a `width` x `height` RGBA image.
pub open spec fn rgba_len(width: int, height: int) -> int {
    width * height * 4
}

/// `data` is a well-formed `width` x `height` RGBA image.
pub open spec fn is_rgba(data: Seq<u8>, width: int, height: int) -> bool {
    0 <= width && 0 <= height && data.len() == rgba_len(width, height)
}

/// Index of channel `c` of the pixel in column `x` of row `y`.
pub open spec fn byte_index(width: int, x: int, y: int, c: int) -> int {
    (y * width + x) * 4 + c
}

/// Column of the pixel that byte `i` belongs to.
pub open spec fn column_of(i: int, width: int) -> int {
    (i / 4) % width
}

/// Row of the pixel that byte `i` belongs to.
pub open spec fn row_of(i: int, width: int) -> int {
    (i / 4) / width
}

/// Channel that byte `i` holds.
pub open spec fn channel_of(i: int) -> int {
    i % 4
}

/// Every byte of `data` that holds channel `c` has the value `color[c]`.
pub open spec fn is_uniform(data: Seq<u8>, color: Seq<u8>) -> bool {
    &&& color.len() == 4
    &&& forall|i: int| 0 <= i < data.len() ==> #[trigger] data[i] == color[channel_of(i)]
}

/// Coordinates inside the image give a byte index inside the buffer.
pub proof fn lemma_byte_index_in_bounds(width: int, height: int, x: int, y: int, c: int)
    requires
        0 <= x < width,
        0 <= y < height,
        0 <= c < 4,
    ensures
        0 <= y * width,
        y * width + x < width * height,
        0 <= byte_index(width, x, y, c) < rgba_len(width, height),
{
    assert(0 <= y * width) by (nonlinear_arith)
        requires
            0 <= y,
            0 <= width,
    ;
    assert(y * width + width <= height * width) by (nonlinear_arith)
        requires
            y + 1 <= height,
            0 <= width,
    ;
    assert(height * width == width * height) by (nonlinear_arith);
}

/// `byte_index` and the three coordinate functions are inverse to each other.
pub proof fn lemma_coordinates_of_byte_index(width: int, x: int, y: int, c: int)
    requires
        0 <= x < width,
        0 <= y,
        0 <= c < 4,
    ensures
        byte_index(width, x, y, c) / 4 == y * width + x,
        channel_of(byte_index(width, x, y, c)) == c,
        column_of(byte_index(width, x, y, c), width) == x,
        row_of(byte_index(width, x, y, c), width) == y,
{
    let p = y * width + x;
    lemma_fundamental_div_mod_converse(p * 4 + c, 4, p, c);
    lemma_fundamental_div_mod_converse(p, width, y, x);
}

/// Every byte of a well-formed image lies at coordinates inside the image.
pub proof fn lemma_byte_index_of_coordinates(width: int, height: int, i: int)
    requires
        0 <= width,
        0 <= height,
        0 <= i < rgba_len(width, height),
    ensures
        0 <= column_of(i, width) < width,
        0 <= row_of(i, width) < height,
        0 <= channel_of(i) < 4,
        byte_index(width, column_of(i, width), row_of(i, width), channel_of(i)) == i,
{
    let p = i / 4;
    assert(width > 0) by (nonlinear_arith)
        requires
            0 <= width,
            0 <= height,
            0 < width * height * 4,
    ;
    assert(p < width * height);
    vstd::arithmetic::div_mod::lemma_fundamental_div_mod(p, width);
    let y = p / width;
    let x = p % width;
    assert(width * y == y * width) by (nonlinear_arith);
    assert(0 <= y) by (nonlinear_arith)
        requires
            0 <= p,
            0 < width,
            y == p / width,
    ;
    if y >= height {
        lemma_mul_inequality(height, y, width);
        assert(height * width == width * height) by (nonlinear_arith);
        assert(false);
    }
}

/// The byte length of a `width` x `height` image, unless it exceeds `usize`.
pub fn checked_rgba_len(width: usize, height: usize) -> (len: Option<usize>)
    ensures
        match len {
            Some(n) => n == rgba_len(width as int, height as int),
            None => rgba_len(width as int, height as int) > usize::MAX,
        },
{
    match width.checked_mul(height) {
        Some(pixels) => pixels.checked_mul(4),
        None => {
            proof {
                assert(width * height * 4 >= width * height) by (nonlinear_arith)
                    requires
                        0 <= width * height,
                ;
            }
            None
        },
    }
}

/// Whether a buffer of `len` bytes holds exactly a `width` x `height` image.
pub fn has_rgba_len(len: usize, width: usize, height: usize) -> (ok: bool)
    ensures
        ok == (len == rgba_len(width as int, height as int)),
{
    match checked_rgba_len(width, height) {
        Some(expected) => len == expected,
        None => false,
    }
}

} // verus!
