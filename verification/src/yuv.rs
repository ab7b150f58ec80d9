//! Conversion of a planar YUV 4:2:0 frame to RGBA, by the BT.709
//! coefficients in binary32 arithmetic.
//!
//! The luma plane has one byte for every pixel. The two chroma planes
//! have one byte for every block of two by two pixels, in rows of
//! `width / 2` bytes.

use vstd::prelude::*;
use crate::addition::{sum, sum_of};
use crate::conversion::{byte_of, difference, difference_of, from_byte, number_of, to_byte};
use crate::multiplication::{product, product_of};
use crate::raster::{
    channel_of,
    checked_rgba_len,
    column_of,
    lemma_byte_index_in_bounds,
    lemma_coordinates_of_byte_index,
    rgba_len,
    row_of,
};

verus! {

/// Weight of V in red: 1.5748.
pub const RED_FROM_V: u32 = 0x3fc9_930c;

/// Weight of U in green: 0.1873, which is subtracted.
pub const GREEN_FROM_U: u32 = 0x3e3f_cb92;

/// Weight of V in green: 0.4681, which is subtracted.
pub const GREEN_FROM_V: u32 = 0x3eef_aace;

/// Weight of U in blue: 1.8556.
pub const BLUE_FROM_U: u32 = 0x3fed_844d;

/// The chroma value that stands for no colour: 128.
pub const CHROMA_ZERO: u32 = 0x4300_0000;

/// A chroma byte as a number around zero: `c - 128`.
pub open spec fn chroma_of(c: u8) -> u32 {
    difference_of(number_of(c as int), CHROMA_ZERO)
}

/// Red: `y + 1.5748 * v`, as a byte.
pub open spec fn red_of(y: u8, v: u8) -> u8 {
    byte_of(sum_of(number_of(y as int), product_of(RED_FROM_V, chroma_of(v))))
}

/// Green: `y - 0.1873 * u - 0.4681 * v`, as a byte.
pub open spec fn green_of(y: u8, u: u8, v: u8) -> u8 {
    byte_of(
        difference_of(
            difference_of(number_of(y as int), product_of(GREEN_FROM_U, chroma_of(u))),
            product_of(GREEN_FROM_V, chroma_of(v)),
        ),
    )
}

/// Blue: `y + 1.8556 * u`, as a byte.
pub open spec fn blue_of(y: u8, u: u8) -> u8 {
    byte_of(sum_of(number_of(y as int), product_of(BLUE_FROM_U, chroma_of(u))))
}

/// Index of the chroma byte of the pixel in column `col` of row `row`.
pub open spec fn chroma_index(width: int, row: int, col: int) -> int {
    (row / 2) * (width / 2) + col / 2
}

/// The planes hold a byte for every pixel of a `width` x `height` frame.
pub open spec fn planes_cover(
    y_len: int,
    u_len: int,
    v_len: int,
    width: int,
    height: int,
) -> bool {
    0 < width && 0 < height ==> {
        &&& width * height <= y_len
        &&& chroma_index(width, height - 1, width - 1) < u_len
        &&& chroma_index(width, height - 1, width - 1) < v_len
    }
}

/// Byte `i` of the RGBA frame: red, green and blue from the luma of the
/// pixel and the chroma of its block, and full alpha.
pub open spec fn converted_byte(
    y_plane: Seq<u8>,
    u_plane: Seq<u8>,
    v_plane: Seq<u8>,
    width: int,
    i: int,
) -> u8 {
    let row = row_of(i, width);
    let col = column_of(i, width);
    let y = y_plane[row * width + col];
    let u = u_plane[chroma_index(width, row, col)];
    let v = v_plane[chroma_index(width, row, col)];
    if channel_of(i) == 0 {
        red_of(y, v)
    } else if channel_of(i) == 1 {
        green_of(y, u, v)
    } else if channel_of(i) == 2 {
        blue_of(y, u)
    } else {
        255
    }
}

/// The RGBA frame.
pub open spec fn converted(
    y_plane: Seq<u8>,
    u_plane: Seq<u8>,
    v_plane: Seq<u8>,
    width: int,
    height: int,
) -> Seq<u8> {
    Seq::new(
        rgba_len(width, height) as nat,
        |i: int| converted_byte(y_plane, u_plane, v_plane, width, i),
    )
}

/// The chroma byte of every pixel of the frame lies at or before that of
/// the last pixel.
pub proof fn lemma_chroma_index_in_bounds(width: int, height: int, row: int, col: int)
    requires
        0 <= row < height,
        0 <= col < width,
    ensures
        0 <= chroma_index(width, row, col) <= chroma_index(width, height - 1, width - 1),
{
    let stride = width / 2;
    assert(0 <= (row / 2) * stride <= ((height - 1) / 2) * stride) by (nonlinear_arith)
        requires
            0 <= row / 2 <= (height - 1) / 2,
            0 <= stride,
    ;
}

/// Whether the planes hold a byte for every pixel of a `width` x `height`
/// frame, and the RGBA frame has a length that can be counted.
pub fn planes_suffice(y_len: usize, u_len: usize, v_len: usize, width: usize, height: usize) -> (ok:
    bool)
    ensures
        ok == (planes_cover(
            y_len as int,
            u_len as int,
            v_len as int,
            width as int,
            height as int,
        ) && rgba_len(width as int, height as int) <= usize::MAX),
{
    if checked_rgba_len(width, height).is_none() {
        return false;
    }
    if width == 0 || height == 0 {
        return true;
    }
    proof {
        assert(width * height <= width * height * 4) by (nonlinear_arith)
            requires
                0 <= width * height,
        ;
        assert(0 <= ((height - 1) / 2) * (width / 2) <= width * height) by (nonlinear_arith)
            requires
                0 <= (height - 1) / 2 <= height,
                0 <= width / 2 <= width,
        ;
    }
    let last: usize = ((height - 1) / 2) * (width / 2) + (width - 1) / 2;
    width * height <= y_len && last < u_len && last < v_len
}

/// Red, green and blue of a pixel with luma `y` and chroma `u`, `v`.
pub fn convert_pixel(y: u8, u: u8, v: u8) -> (rgb: (u8, u8, u8))
    ensures
        rgb.0 == red_of(y, v),
        rgb.1 == green_of(y, u, v),
        rgb.2 == blue_of(y, u),
{
    let luma: u32 = from_byte(y);
    let cu: u32 = difference(from_byte(u), CHROMA_ZERO);
    let cv: u32 = difference(from_byte(v), CHROMA_ZERO);
    let r: u8 = to_byte(sum(luma, product(RED_FROM_V, cv)));
    let g: u8 = to_byte(
        difference(difference(luma, product(GREEN_FROM_U, cu)), product(GREEN_FROM_V, cv)),
    );
    let b: u8 = to_byte(sum(luma, product(BLUE_FROM_U, cu)));
    (r, g, b)
}

/// Converts a planar YUV 4:2:0 frame to RGBA with full alpha.
pub fn yuv420_to_rgba(
    y_plane: &[u8],
    u_plane: &[u8],
    v_plane: &[u8],
    width: usize,
    height: usize,
) -> (rgba: Vec<u8>)
    requires
        planes_cover(
            y_plane@.len() as int,
            u_plane@.len() as int,
            v_plane@.len() as int,
            width as int,
            height as int,
        ),
        rgba_len(width as int, height as int) <= usize::MAX,
    ensures
        rgba@ == converted(y_plane@, u_plane@, v_plane@, width as int, height as int),
        rgba@.len() == rgba_len(width as int, height as int),
{
    let ghost w = width as int;
    let ghost h = height as int;
    let mut rgba: Vec<u8> = Vec::new();
    let mut row: usize = 0;
    while row < height
        invariant
            w == width as int,
            h == height as int,
            planes_cover(y_plane@.len() as int, u_plane@.len() as int, v_plane@.len() as int, w, h),
            rgba_len(w, h) <= usize::MAX,
            row <= height,
            rgba@.len() == row * width * 4,
            forall|i: int|
                0 <= i < rgba@.len() ==> #[trigger] rgba@[i] == converted_byte(
                    y_plane@,
                    u_plane@,
                    v_plane@,
                    w,
                    i,
                ),
        decreases height - row,
    {
        let mut col: usize = 0;
        while col < width
            invariant
                w == width as int,
                h == height as int,
                planes_cover(
                    y_plane@.len() as int,
                    u_plane@.len() as int,
                    v_plane@.len() as int,
                    w,
                    h,
                ),
                rgba_len(w, h) <= usize::MAX,
                row < height,
                col <= width,
                rgba@.len() == (row * width + col) * 4,
                forall|i: int|
                    0 <= i < rgba@.len() ==> #[trigger] rgba@[i] == converted_byte(
                        y_plane@,
                        u_plane@,
                        v_plane@,
                        w,
                        i,
                    ),
            decreases width - col,
        {
            proof {
                lemma_byte_index_in_bounds(w, h, col as int, row as int, 3);
                lemma_chroma_index_in_bounds(w, h, row as int, col as int);
                lemma_coordinates_of_byte_index(w, col as int, row as int, 0);
                lemma_coordinates_of_byte_index(w, col as int, row as int, 1);
                lemma_coordinates_of_byte_index(w, col as int, row as int, 2);
                lemma_coordinates_of_byte_index(w, col as int, row as int, 3);
                assert(0 <= (row / 2) * (width / 2) <= row * width) by (nonlinear_arith)
                    requires
                        0 <= row / 2 <= row,
                        0 <= width / 2 <= width,
                ;
            }
            let y_index: usize = row * width + col;
            let uv_index: usize = (row / 2) * (width / 2) + col / 2;
            let (r, g, b) = convert_pixel(y_plane[y_index], u_plane[uv_index], v_plane[uv_index]);
            rgba.push(r);
            rgba.push(g);
            rgba.push(b);
            rgba.push(255);
            col = col + 1;
        }
        proof {
            assert((row + 1) * width == row * width + width) by (nonlinear_arith);
        }
        row = row + 1;
    }
    proof {
        assert(height * width == width * height) by (nonlinear_arith);
        assert(rgba@ =~= converted(y_plane@, u_plane@, v_plane@, w, h));
    }
    rgba
}

} // verus!
