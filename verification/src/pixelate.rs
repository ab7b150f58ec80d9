//! Block pixelation: every block of the image is painted with the
//! average colour of its pixels.

use vstd::prelude::*;
use vstd::arithmetic::div_mod::{
    lemma_fundamental_div_mod,
    lemma_fundamental_div_mod_converse,
};
use vstd::slice::slice_to_vec;
use crate::error::Error;
use crate::raster::{
    byte_index,
    channel_of,
    column_of,
    has_rgba_len,
    is_rgba,
    is_uniform,
    lemma_byte_index_in_bounds,
    lemma_byte_index_of_coordinates,
    lemma_coordinates_of_byte_index,
    rgba_len,
    row_of,
};

verus! {

/// First coordinate of the block that coordinate `x` falls into.
pub open spec fn block_start(x: int, block: int) -> int {
    x - x % block
}

/// One past the last coordinate of that block; the last block of a row or
/// column is cut off at the image's edge `limit`.
pub open spec fn block_stop(x: int, block: int, limit: int) -> int {
    if block_start(x, block) + block < limit {
        block_start(x, block) + block
    } else {
        limit
    }
}

/// Sum of channel `c` over the columns `x0..x1` of row `y`.
pub open spec fn row_sum(data: Seq<u8>, width: int, y: int, x0: int, x1: int, c: int) -> int
    decreases x1 - x0,
{
    if x1 <= x0 {
        0
    } else {
        row_sum(data, width, y, x0, x1 - 1, c) + data[byte_index(width, x1 - 1, y, c)] as int
    }
}

/// Sum of channel `c` over the rectangle of columns `x0..x1` and rows `y0..y1`.
pub open spec fn rect_sum(
    data: Seq<u8>,
    width: int,
    x0: int,
    x1: int,
    y0: int,
    y1: int,
    c: int,
) -> int
    decreases y1 - y0,
{
    if y1 <= y0 {
        0
    } else {
        rect_sum(data, width, x0, x1, y0, y1 - 1, c) + row_sum(data, width, y1 - 1, x0, x1, c)
    }
}

/// Truncating average of channel `c` over a rectangle.
pub open spec fn rect_average(
    data: Seq<u8>,
    width: int,
    x0: int,
    x1: int,
    y0: int,
    y1: int,
    c: int,
) -> int {
    rect_sum(data, width, x0, x1, y0, y1, c) / ((x1 - x0) * (y1 - y0))
}

/// Byte `i` of the pixelated image: a colour channel takes the average of
/// its block, alpha stays as it is.
pub open spec fn pixelated_byte(data: Seq<u8>, width: int, height: int, block: int, i: int) -> u8 {
    let x = column_of(i, width);
    let y = row_of(i, width);
    if channel_of(i) == 3 {
        data[i]
    } else {
        rect_average(
            data,
            width,
            block_start(x, block),
            block_stop(x, block, width),
            block_start(y, block),
            block_stop(y, block, height),
            channel_of(i),
        ) as u8
    }
}

/// The pixelated image.
pub open spec fn pixelated(data: Seq<u8>, width: int, height: int, block: int) -> Seq<u8> {
    Seq::new(data.len(), |i: int| pixelated_byte(data, width, height, block, i))
}

/// The pixel `(x, y)` lies in the rectangle of columns `x0..x1` and rows `y0..y1`.
pub open spec fn in_rect(x: int, y: int, x0: int, x1: int, y0: int, y1: int) -> bool {
    x0 <= x < x1 && y0 <= y < y1
}

/// Byte `i` after the colour channels of a rectangle were overwritten with
/// `(r, g, b)`.
pub open spec fn painted_byte(
    data: Seq<u8>,
    width: int,
    x0: int,
    x1: int,
    y0: int,
    y1: int,
    r: u8,
    g: u8,
    b: u8,
    i: int,
) -> u8 {
    if in_rect(column_of(i, width), row_of(i, width), x0, x1, y0, y1) {
        if channel_of(i) == 0 {
            r
        } else if channel_of(i) == 1 {
            g
        } else if channel_of(i) == 2 {
            b
        } else {
            data[i]
        }
    } else {
        data[i]
    }
}

/// A coordinate inside a block that starts at a multiple of the block size
/// has that start as its `block_start`.
pub proof fn lemma_block_start(x: int, start: int, block: int)
    requires
        block > 0,
        start % block == 0,
        start <= x < start + block,
    ensures
        block_start(x, block) == start,
{
    lemma_fundamental_div_mod(start, block);
    lemma_fundamental_div_mod_converse(x, block, start / block, x - start);
}

/// Advancing a block start by one block size gives a block start again.
pub proof fn lemma_next_block_start(start: int, block: int)
    requires
        block > 0,
        start % block == 0,
        0 <= start,
    ensures
        (start + block) % block == 0,
{
    lemma_fundamental_div_mod(start, block);
    let q = start / block;
    assert(block * (q + 1) == block * q + block) by (nonlinear_arith);
    lemma_fundamental_div_mod_converse(start + block, block, q + 1, 0);
}

/// A row sum is bounded by 255 per pixel.
pub proof fn lemma_row_sum_bounds(data: Seq<u8>, width: int, y: int, x0: int, x1: int, c: int)
    requires
        x0 <= x1,
    ensures
        0 <= row_sum(data, width, y, x0, x1, c) <= 255 * (x1 - x0),
    decreases x1 - x0,
{
    if x1 > x0 {
        lemma_row_sum_bounds(data, width, y, x0, x1 - 1, c);
    }
}

/// A rectangle sum is bounded by 255 per pixel.
pub proof fn lemma_rect_sum_bounds(
    data: Seq<u8>,
    width: int,
    x0: int,
    x1: int,
    y0: int,
    y1: int,
    c: int,
)
    requires
        x0 <= x1,
        y0 <= y1,
    ensures
        0 <= rect_sum(data, width, x0, x1, y0, y1, c) <= 255 * ((x1 - x0) * (y1 - y0)),
    decreases y1 - y0,
{
    if y1 > y0 {
        lemma_rect_sum_bounds(data, width, x0, x1, y0, y1 - 1, c);
        lemma_row_sum_bounds(data, width, y1 - 1, x0, x1, c);
        assert((x1 - x0) * (y1 - y0) == (x1 - x0) * (y1 - 1 - y0) + (x1 - x0))
            by (nonlinear_arith);
    } else {
        assert((x1 - x0) * (y1 - y0) == 0) by (nonlinear_arith)
            requires
                y1 - y0 == 0,
        ;
    }
}

/// The average over a rectangle that is not empty is a byte.
pub proof fn lemma_rect_average_is_byte(
    data: Seq<u8>,
    width: int,
    x0: int,
    x1: int,
    y0: int,
    y1: int,
    c: int,
)
    requires
        x0 < x1,
        y0 < y1,
    ensures
        0 < (x1 - x0) * (y1 - y0),
        0 <= rect_average(data, width, x0, x1, y0, y1, c) <= 255,
{
    lemma_rect_sum_bounds(data, width, x0, x1, y0, y1, c);
    let n = (x1 - x0) * (y1 - y0);
    let s = rect_sum(data, width, x0, x1, y0, y1, c);
    assert(0 < n) by (nonlinear_arith)
        requires
            n == (x1 - x0) * (y1 - y0),
            x0 < x1,
            y0 < y1,
    ;
    assert(0 <= s / n <= 255) by (nonlinear_arith)
        requires
            0 < n,
            0 <= s <= 255 * n,
    ;
}

/// Over a row in which channel `c` has the value `v` everywhere, the sum is
/// `v` times the number of pixels.
proof fn lemma_row_sum_uniform(
    data: Seq<u8>,
    color: Seq<u8>,
    width: int,
    height: int,
    y: int,
    x0: int,
    x1: int,
    c: int,
)
    requires
        is_rgba(data, width, height),
        is_uniform(data, color),
        0 <= x0 <= x1 <= width,
        0 <= y < height,
        0 <= c < 4,
    ensures
        row_sum(data, width, y, x0, x1, c) == color[c] * (x1 - x0),
    decreases x1 - x0,
{
    if x1 > x0 {
        lemma_row_sum_uniform(data, color, width, height, y, x0, x1 - 1, c);
        lemma_byte_index_in_bounds(width, height, x1 - 1, y, c);
        lemma_coordinates_of_byte_index(width, x1 - 1, y, c);
        let v = color[c] as int;
        assert(data[byte_index(width, x1 - 1, y, c)] == color[c]);
        assert(v * (x1 - x0) == v * (x1 - 1 - x0) + v) by (nonlinear_arith);
    } else {
        assert(color[c] * (x1 - x0) == 0) by (nonlinear_arith)
            requires
                x1 - x0 == 0,
        ;
    }
}

/// Over a rectangle in which channel `c` has the value `v` everywhere, the
/// sum is `v` times the number of pixels.
proof fn lemma_rect_sum_uniform(
    data: Seq<u8>,
    color: Seq<u8>,
    width: int,
    height: int,
    x0: int,
    x1: int,
    y0: int,
    y1: int,
    c: int,
)
    requires
        is_rgba(data, width, height),
        is_uniform(data, color),
        0 <= x0 <= x1 <= width,
        0 <= y0 <= y1 <= height,
        0 <= c < 4,
    ensures
        rect_sum(data, width, x0, x1, y0, y1, c) == color[c] * ((x1 - x0) * (y1 - y0)),
    decreases y1 - y0,
{
    let v = color[c] as int;
    if y1 > y0 {
        lemma_rect_sum_uniform(data, color, width, height, x0, x1, y0, y1 - 1, c);
        lemma_row_sum_uniform(data, color, width, height, y1 - 1, x0, x1, c);
        assert(v * ((x1 - x0) * (y1 - y0)) == v * ((x1 - x0) * (y1 - 1 - y0)) + v * (x1 - x0))
            by (nonlinear_arith);
    } else {
        assert(v * ((x1 - x0) * (y1 - y0)) == 0) by (nonlinear_arith)
            requires
                y1 - y0 == 0,
        ;
    }
}

/// The block of a pixel inside the image is a rectangle inside the image
/// that holds the pixel.
pub proof fn lemma_block_in_image(x: int, block: int, limit: int)
    requires
        block > 0,
        0 <= x < limit,
    ensures
        0 <= block_start(x, block) <= x < block_stop(x, block, limit) <= limit,
        block_start(x, block) % block == 0,
        block_stop(x, block, limit) <= block_start(x, block) + block,
{
    lemma_fundamental_div_mod(x, block);
    let q = x / block;
    assert(block * q == x - x % block);
    lemma_fundamental_div_mod_converse(x - x % block, block, q, 0);
}

/// Pixelating an image of one colour leaves it unchanged, whatever the
/// block size.
pub proof fn lemma_pixelate_uniform(
    data: Seq<u8>,
    color: Seq<u8>,
    width: int,
    height: int,
    block: int,
)
    requires
        is_rgba(data, width, height),
        is_uniform(data, color),
        block > 0,
    ensures
        pixelated(data, width, height, block) == data,
{
    let out = pixelated(data, width, height, block);
    assert forall|i: int| 0 <= i < data.len() implies out[i] == data[i] by {
        lemma_byte_index_of_coordinates(width, height, i);
        let x = column_of(i, width);
        let y = row_of(i, width);
        let c = channel_of(i);
        if c != 3 {
            lemma_block_in_image(x, block, width);
            lemma_block_in_image(y, block, height);
            let x0 = block_start(x, block);
            let x1 = block_stop(x, block, width);
            let y0 = block_start(y, block);
            let y1 = block_stop(y, block, height);
            lemma_rect_sum_uniform(data, color, width, height, x0, x1, y0, y1, c);
            lemma_rect_average_is_byte(data, width, x0, x1, y0, y1, c);
            let n = (x1 - x0) * (y1 - y0);
            let v = color[c] as int;
            assert((v * n) / n == v) by (nonlinear_arith)
                requires
                    0 < n,
            ;
            assert(data[i] == color[c]);
        }
    }
    assert(out =~= data);
}

/// Sums of the three colour channels over a rectangle of the image.
fn rect_sums(
    data: &[u8],
    width: usize,
    height: usize,
    x0: usize,
    x1: usize,
    y0: usize,
    y1: usize,
) -> (sums: (u128, u128, u128))
    requires
        is_rgba(data@, width as int, height as int),
        x0 <= x1 <= width,
        y0 <= y1 <= height,
    ensures
        sums.0 == rect_sum(data@, width as int, x0 as int, x1 as int, y0 as int, y1 as int, 0),
        sums.1 == rect_sum(data@, width as int, x0 as int, x1 as int, y0 as int, y1 as int, 1),
        sums.2 == rect_sum(data@, width as int, x0 as int, x1 as int, y0 as int, y1 as int, 2),
{
    let ghost w = width as int;
    let ghost d = data@;
    assert(d.len() == data.len());
    let mut r: u128 = 0;
    let mut g: u128 = 0;
    let mut b: u128 = 0;
    let mut y: usize = y0;
    while y < y1
        invariant
            is_rgba(data@, width as int, height as int),
            d == data@,
            d.len() <= usize::MAX,
            w == width as int,
            x0 <= x1 <= width,
            y0 <= y <= y1 <= height,
            r == rect_sum(d, w, x0 as int, x1 as int, y0 as int, y as int, 0),
            g == rect_sum(d, w, x0 as int, x1 as int, y0 as int, y as int, 1),
            b == rect_sum(d, w, x0 as int, x1 as int, y0 as int, y as int, 2),
            r <= 255 * (y * width),
            g <= 255 * (y * width),
            b <= 255 * (y * width),
        decreases y1 - y,
    {
        proof {
            assert(0 <= y * width && y * width + width <= width * height && (y + 1) * width == y
                * width + width) by (nonlinear_arith)
                requires
                    0 <= y < height,
                    0 <= width,
            ;
        }
        let row: usize = y * width;
        let mut x: usize = x0;
        while x < x1
            invariant
                is_rgba(data@, width as int, height as int),
                d == data@,
                d.len() <= usize::MAX,
                w == width as int,
                x0 <= x <= x1 <= width,
                y0 <= y < y1 <= height,
                row == y * width,
                row + width <= width * height,
                r == rect_sum(d, w, x0 as int, x1 as int, y0 as int, y as int, 0) + row_sum(
                    d,
                    w,
                    y as int,
                    x0 as int,
                    x as int,
                    0,
                ),
                g == rect_sum(d, w, x0 as int, x1 as int, y0 as int, y as int, 1) + row_sum(
                    d,
                    w,
                    y as int,
                    x0 as int,
                    x as int,
                    1,
                ),
                b == rect_sum(d, w, x0 as int, x1 as int, y0 as int, y as int, 2) + row_sum(
                    d,
                    w,
                    y as int,
                    x0 as int,
                    x as int,
                    2,
                ),
                r <= 255 * (row + x),
                g <= 255 * (row + x),
                b <= 255 * (row + x),
            decreases x1 - x,
        {
            let idx: usize = (row + x) * 4;
            r = r + data[idx] as u128;
            g = g + data[idx + 1] as u128;
            b = b + data[idx + 2] as u128;
            x = x + 1;
        }
        y = y + 1;
    }
    (r, g, b)
}

/// Overwrites the colour channels of every pixel of a rectangle with
/// `(r, g, b)` and leaves everything else, alpha included, as it is.
fn paint_rect(
    out: &mut Vec<u8>,
    width: usize,
    height: usize,
    x0: usize,
    x1: usize,
    y0: usize,
    y1: usize,
    r: u8,
    g: u8,
    b: u8,
)
    requires
        is_rgba(old(out)@, width as int, height as int),
        x0 <= x1 <= width,
        y0 <= y1 <= height,
    ensures
        final(out)@.len() == old(out)@.len(),
        forall|i: int|
            0 <= i < old(out)@.len() ==> #[trigger] final(out)@[i] == painted_byte(
                old(out)@,
                width as int,
                x0 as int,
                x1 as int,
                y0 as int,
                y1 as int,
                r,
                g,
                b,
                i,
            ),
{
    let ghost w = width as int;
    let ghost h = height as int;
    let ghost before = out@;
    assert(before.len() == out.len());
    let mut y: usize = y0;
    while y < y1
        invariant
            is_rgba(before, w, h),
            before.len() <= usize::MAX,
            w == width as int,
            h == height as int,
            out@.len() == before.len(),
            x0 <= x1 <= width,
            y0 <= y <= y1 <= height,
            forall|i: int|
                0 <= i < before.len() ==> #[trigger] out@[i] == painted_byte(
                    before,
                    w,
                    x0 as int,
                    x1 as int,
                    y0 as int,
                    y as int,
                    r,
                    g,
                    b,
                    i,
                ),
        decreases y1 - y,
    {
        proof {
            assert(0 <= y * width && y * width + width <= width * height) by (nonlinear_arith)
                requires
                    0 <= y < height,
                    0 <= width,
            ;
        }
        let row: usize = y * width;
        let mut x: usize = x0;
        while x < x1
            invariant
                is_rgba(before, w, h),
                before.len() <= usize::MAX,
                w == width as int,
                h == height as int,
                out@.len() == before.len(),
                x0 <= x <= x1 <= width,
                y0 <= y < y1 <= height,
                row == y * width,
                row + width <= width * height,
                forall|i: int|
                    0 <= i < before.len() ==> #[trigger] out@[i] == (if row_of(i, w) == y
                        && column_of(i, w) < x {
                        painted_byte(
                            before,
                            w,
                            x0 as int,
                            x1 as int,
                            y0 as int,
                            y + 1,
                            r,
                            g,
                            b,
                            i,
                        )
                    } else {
                        painted_byte(
                            before,
                            w,
                            x0 as int,
                            x1 as int,
                            y0 as int,
                            y as int,
                            r,
                            g,
                            b,
                            i,
                        )
                    }),
            decreases x1 - x,
        {
            let idx: usize = (row + x) * 4;
            let ghost prev = out@;
            out.set(idx, r);
            out.set(idx + 1, g);
            out.set(idx + 2, b);
            proof {
                lemma_coordinates_of_byte_index(w, x as int, y as int, 0);
                lemma_coordinates_of_byte_index(w, x as int, y as int, 1);
                lemma_coordinates_of_byte_index(w, x as int, y as int, 2);
                assert forall|i: int| 0 <= i < before.len() implies #[trigger] out@[i] == (
                if row_of(i, w) == y && column_of(i, w) < x + 1 {
                    painted_byte(before, w, x0 as int, x1 as int, y0 as int, y + 1, r, g, b, i)
                } else {
                    painted_byte(before, w, x0 as int, x1 as int, y0 as int, y as int, r, g, b, i)
                }) by {
                    lemma_byte_index_of_coordinates(w, h, i);
                    assert(prev[i] == (if row_of(i, w) == y && column_of(i, w) < x {
                        painted_byte(before, w, x0 as int, x1 as int, y0 as int, y + 1, r, g, b, i)
                    } else {
                        painted_byte(
                            before,
                            w,
                            x0 as int,
                            x1 as int,
                            y0 as int,
                            y as int,
                            r,
                            g,
                            b,
                            i,
                        )
                    }));
                }
            }
            x = x + 1;
        }
        proof {
            assert forall|i: int| 0 <= i < before.len() implies #[trigger] out@[i]
                == painted_byte(before, w, x0 as int, x1 as int, y0 as int, y + 1, r, g, b, i) by {
                lemma_byte_index_of_coordinates(w, h, i);
            }
        }
        y = y + 1;
    }
}

/// Pixelates a `width` x `height` RGBA image.
///
/// The image is cut into blocks of `block_size` x `block_size` pixels,
/// starting at the top left corner; blocks at the right and bottom edge
/// are smaller where the dimensions are no multiple of `block_size`.
/// Red, green and blue of every pixel become the truncating average of
/// that channel over the pixel's block. Alpha is kept pixel by pixel.
///
/// A buffer whose length is not `width * height * 4` is refused.
pub fn pixelate(image_data: &[u8], width: usize, height: usize, block_size: usize) -> (result:
    Result<Vec<u8>, Error>)
    requires
        block_size > 0,
    ensures
        match result {
            Ok(out) => {
                &&& image_data@.len() == rgba_len(width as int, height as int)
                &&& out@ == pixelated(image_data@, width as int, height as int, block_size as int)
                &&& out@.len() == image_data@.len()
            },
            Err(e) => {
                &&& e == Error::SizeMismatch
                &&& image_data@.len() != rgba_len(width as int, height as int)
            },
        },
{
    if !has_rgba_len(image_data.len(), width, height) {
        return Err(Error::SizeMismatch);
    }
    let ghost d = image_data@;
    let ghost w = width as int;
    let ghost h = height as int;
    let ghost bs = block_size as int;
    let mut out = slice_to_vec(image_data);
    let mut by: usize = 0;
    while by < height
        invariant
            bs == block_size as int,
            bs > 0,
            d == image_data@,
            w == width as int,
            h == height as int,
            is_rgba(d, w, h),
            d.len() <= usize::MAX,
            out@.len() == d.len(),
            by <= height,
            by == height || by % block_size == 0,
            forall|i: int|
                0 <= i < d.len() ==> #[trigger] out@[i] == (if row_of(i, w) < by {
                    pixelated_byte(d, w, h, bs, i)
                } else {
                    d[i]
                }),
        decreases height - by,
    {
        let by_end: usize = if block_size >= height - by {
            height
        } else {
            by + block_size
        };
        let mut bx: usize = 0;
        while bx < width
            invariant
                bs == block_size as int,
                bs > 0,
                d == image_data@,
                w == width as int,
                h == height as int,
                is_rgba(d, w, h),
                d.len() <= usize::MAX,
                out@.len() == d.len(),
                by < by_end <= height,
                by_end <= by + block_size,
                by_end == height || by_end == by + block_size,
                by % block_size == 0,
                bx <= width,
                bx == width || bx % block_size == 0,
                forall|i: int|
                    0 <= i < d.len() ==> #[trigger] out@[i] == (if row_of(i, w) < by || (row_of(
                        i,
                        w,
                    ) < by_end && column_of(i, w) < bx) {
                        pixelated_byte(d, w, h, bs, i)
                    } else {
                        d[i]
                    }),
            decreases width - bx,
        {
            let bx_end: usize = if block_size >= width - bx {
                width
            } else {
                bx + block_size
            };
            let sums = rect_sums(image_data, width, height, bx, bx_end, by, by_end);
            proof {
                lemma_rect_average_is_byte(
                    d,
                    w,
                    bx as int,
                    bx_end as int,
                    by as int,
                    by_end as int,
                    0,
                );
                lemma_rect_average_is_byte(
                    d,
                    w,
                    bx as int,
                    bx_end as int,
                    by as int,
                    by_end as int,
                    1,
                );
                lemma_rect_average_is_byte(
                    d,
                    w,
                    bx as int,
                    bx_end as int,
                    by as int,
                    by_end as int,
                    2,
                );
                assert((bx_end - bx) * (by_end - by) <= width * height) by (nonlinear_arith)
                    requires
                        0 <= bx_end - bx <= width,
                        0 <= by_end - by <= height,
                ;
            }
            let count: u128 = (bx_end - bx) as u128 * (by_end - by) as u128;
            let avg_r: u8 = (sums.0 / count) as u8;
            let avg_g: u8 = (sums.1 / count) as u8;
            let avg_b: u8 = (sums.2 / count) as u8;
            let ghost prev = out@;
            paint_rect(&mut out, width, height, bx, bx_end, by, by_end, avg_r, avg_g, avg_b);
            proof {
                assert forall|i: int| 0 <= i < d.len() implies #[trigger] out@[i] == (if row_of(
                    i,
                    w,
                ) < by || (row_of(i, w) < by_end && column_of(i, w) < bx_end) {
                    pixelated_byte(d, w, h, bs, i)
                } else {
                    d[i]
                }) by {
                    lemma_byte_index_of_coordinates(w, h, i);
                    let x = column_of(i, w);
                    let y = row_of(i, w);
                    assert(out@[i] == painted_byte(
                        prev,
                        w,
                        bx as int,
                        bx_end as int,
                        by as int,
                        by_end as int,
                        avg_r,
                        avg_g,
                        avg_b,
                        i,
                    ));
                    assert(prev[i] == (if y < by || (y < by_end && x < bx) {
                        pixelated_byte(d, w, h, bs, i)
                    } else {
                        d[i]
                    }));
                    if in_rect(x, y, bx as int, bx_end as int, by as int, by_end as int) {
                        lemma_block_start(x, bx as int, bs);
                        lemma_block_start(y, by as int, bs);
                    }
                }
                if bx_end < width {
                    lemma_next_block_start(bx as int, bs);
                }
            }
            bx = bx_end;
        }
        proof {
            assert forall|i: int| 0 <= i < d.len() implies #[trigger] out@[i] == (if row_of(i, w)
                < by_end {
                pixelated_byte(d, w, h, bs, i)
            } else {
                d[i]
            }) by {
                lemma_byte_index_of_coordinates(w, h, i);
            }
            if by_end < height {
                lemma_next_block_start(by as int, bs);
            }
        }
        by = by_end;
    }
    proof {
        assert forall|i: int| 0 <= i < d.len() implies out@[i] == pixelated_byte(d, w, h, bs, i) by {
            lemma_byte_index_of_coordinates(w, h, i);
        }
        assert(out@ =~= pixelated(d, w, h, bs));
    }
    Ok(out)
}

} // verus!
