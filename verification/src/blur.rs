//! Separable box blur: one averaging pass along the rows, then one along
//! the columns of its result.

use vstd::prelude::*;
use crate::kernel::{kernel_size, kernel_size_of, lemma_kernel_size_positive};
use crate::error::Error;
use crate::raster::{
    byte_index,
    channel_of,
    column_of,
    has_rgba_len,
    is_rgba,
    is_uniform,
    lemma_byte_index_in_bounds,
    lemma_byte_index_of_coordinates,
    lemma_coordinates_of_byte_index,
    rgba_len,
    row_of,
};

verus! {

/// The coordinate nearest to `i` among `0..limit`: samples beyond an edge
/// repeat the pixel at the edge.
pub open spec fn clamp_coordinate(i: int, limit: int) -> int {
    if i < 0 {
        0
    } else if i >= limit {
        limit - 1
    } else {
        i
    }
}

/// Byte index of channel `c` of the sample at distance `offset` from
/// pixel `(x, y)`, along the column if `vertical` and along the row if not.
pub open spec fn sample_index(
    width: int,
    height: int,
    x: int,
    y: int,
    offset: int,
    c: int,
    vertical: bool,
) -> int {
    if vertical {
        byte_index(width, x, clamp_coordinate(y + offset, height), c)
    } else {
        byte_index(width, clamp_coordinate(x + offset, width), y, c)
    }
}

/// Sum of channel `c` over the first `count` samples of the window of
/// pixel `(x, y)`; the window starts `half` pixels before the pixel.
pub open spec fn window_sum(
    data: Seq<u8>,
    width: int,
    height: int,
    x: int,
    y: int,
    half: int,
    count: int,
    c: int,
    vertical: bool,
) -> int
    decreases count,
{
    if count <= 0 {
        0
    } else {
        window_sum(data, width, height, x, y, half, count - 1, c, vertical) + data[sample_index(
            width,
            height,
            x,
            y,
            count - 1 - half,
            c,
            vertical,
        )] as int
    }
}

/// Byte `i` after one pass: a colour channel takes the truncating average
/// of the `kernel` samples of its window, alpha stays as it is.
pub open spec fn box_filtered_byte(
    data: Seq<u8>,
    width: int,
    height: int,
    kernel: int,
    vertical: bool,
    i: int,
) -> u8 {
    if channel_of(i) == 3 {
        data[i]
    } else {
        (window_sum(
            data,
            width,
            height,
            column_of(i, width),
            row_of(i, width),
            kernel / 2,
            kernel,
            channel_of(i),
            vertical,
        ) / kernel) as u8
    }
}

/// The image after one pass.
pub open spec fn box_filtered(
    data: Seq<u8>,
    width: int,
    height: int,
    kernel: int,
    vertical: bool,
) -> Seq<u8> {
    Seq::new(data.len(), |i: int| box_filtered_byte(data, width, height, kernel, vertical, i))
}

/// The blurred image: the pass along the columns, applied to the result
/// of the pass along the rows.
pub open spec fn blurred(data: Seq<u8>, width: int, height: int, kernel: int) -> Seq<u8> {
    box_filtered(box_filtered(data, width, height, kernel, false), width, height, kernel, true)
}

/// A window sum is bounded by 255 per sample.
pub proof fn lemma_window_sum_bounds(
    data: Seq<u8>,
    width: int,
    height: int,
    x: int,
    y: int,
    half: int,
    count: int,
    c: int,
    vertical: bool,
)
    requires
        0 <= count,
    ensures
        0 <= window_sum(data, width, height, x, y, half, count, c, vertical) <= 255 * count,
    decreases count,
{
    if count > 0 {
        lemma_window_sum_bounds(data, width, height, x, y, half, count - 1, c, vertical);
    }
}

/// The average over a window is a byte.
pub proof fn lemma_window_average_is_byte(
    data: Seq<u8>,
    width: int,
    height: int,
    x: int,
    y: int,
    half: int,
    kernel: int,
    c: int,
    vertical: bool,
)
    requires
        0 < kernel,
    ensures
        0 <= window_sum(data, width, height, x, y, half, kernel, c, vertical) / kernel <= 255,
{
    lemma_window_sum_bounds(data, width, height, x, y, half, kernel, c, vertical);
    let s = window_sum(data, width, height, x, y, half, kernel, c, vertical);
    assert(0 <= s / kernel <= 255) by (nonlinear_arith)
        requires
            0 < kernel,
            0 <= s <= 255 * kernel,
    ;
}

/// Every sample of a pixel inside the image lies inside the image, in the
/// channel that was asked for.
pub proof fn lemma_sample_in_bounds(
    width: int,
    height: int,
    x: int,
    y: int,
    offset: int,
    c: int,
    vertical: bool,
)
    requires
        0 <= x < width,
        0 <= y < height,
        0 <= c < 4,
    ensures
        0 <= sample_index(width, height, x, y, offset, c, vertical) < rgba_len(width, height),
        channel_of(sample_index(width, height, x, y, offset, c, vertical)) == c,
{
    if vertical {
        let sy = clamp_coordinate(y + offset, height);
        lemma_byte_index_in_bounds(width, height, x, sy, c);
        lemma_coordinates_of_byte_index(width, x, sy, c);
    } else {
        let sx = clamp_coordinate(x + offset, width);
        lemma_byte_index_in_bounds(width, height, sx, y, c);
        lemma_coordinates_of_byte_index(width, sx, y, c);
    }
}

/// Over an image in which channel `c` has the value `v` everywhere, a
/// window sum is `v` times the number of samples.
proof fn lemma_window_sum_uniform(
    data: Seq<u8>,
    color: Seq<u8>,
    width: int,
    height: int,
    x: int,
    y: int,
    half: int,
    count: int,
    c: int,
    vertical: bool,
)
    requires
        is_rgba(data, width, height),
        is_uniform(data, color),
        0 <= x < width,
        0 <= y < height,
        0 <= c < 4,
        0 <= count,
    ensures
        window_sum(data, width, height, x, y, half, count, c, vertical) == color[c] * count,
    decreases count,
{
    let v = color[c] as int;
    if count > 0 {
        lemma_window_sum_uniform(data, color, width, height, x, y, half, count - 1, c, vertical);
        lemma_sample_in_bounds(width, height, x, y, count - 1 - half, c, vertical);
        assert(data[sample_index(width, height, x, y, count - 1 - half, c, vertical)] == color[c]);
        assert(v * count == v * (count - 1) + v) by (nonlinear_arith);
    } else {
        assert(v * count == 0) by (nonlinear_arith)
            requires
                count == 0,
        ;
    }
}

/// One pass over an image of one colour leaves it unchanged.
pub proof fn lemma_box_filter_uniform(
    data: Seq<u8>,
    color: Seq<u8>,
    width: int,
    height: int,
    kernel: int,
    vertical: bool,
)
    requires
        is_rgba(data, width, height),
        is_uniform(data, color),
        0 < kernel,
    ensures
        box_filtered(data, width, height, kernel, vertical) == data,
{
    let out = box_filtered(data, width, height, kernel, vertical);
    assert forall|i: int| 0 <= i < data.len() implies out[i] == data[i] by {
        lemma_byte_index_of_coordinates(width, height, i);
        let c = channel_of(i);
        if c != 3 {
            let x = column_of(i, width);
            let y = row_of(i, width);
            lemma_window_sum_uniform(data, color, width, height, x, y, kernel / 2, kernel, c, vertical);
            let v = color[c] as int;
            assert((v * kernel) / kernel == v) by (nonlinear_arith)
                requires
                    0 < kernel,
            ;
            assert(data[i] == color[c]);
        }
    }
    assert(out =~= data);
}

/// Blurring an image of one colour leaves it unchanged, whatever the
/// kernel size.
pub proof fn lemma_blur_uniform(
    data: Seq<u8>,
    color: Seq<u8>,
    width: int,
    height: int,
    kernel: int,
)
    requires
        is_rgba(data, width, height),
        is_uniform(data, color),
        0 < kernel,
    ensures
        blurred(data, width, height, kernel) == data,
{
    lemma_box_filter_uniform(data, color, width, height, kernel, false);
    lemma_box_filter_uniform(data, color, width, height, kernel, true);
}

/// Blurring an image of one colour leaves it unchanged, whatever the
/// radius.
pub proof fn lemma_blur_uniform_for_radius(
    data: Seq<u8>,
    color: Seq<u8>,
    width: int,
    height: int,
    radius_bits: u32,
)
    requires
        is_rgba(data, width, height),
        is_uniform(data, color),
    ensures
        blurred(data, width, height, kernel_size_of(radius_bits)) == data,
{
    lemma_kernel_size_positive(radius_bits);
    lemma_blur_uniform(data, color, width, height, kernel_size_of(radius_bits));
}

/// The coordinate of the sample at position `j` of a window that starts
/// `half` before `at`, clamped into `0..limit`.
fn clamped_sample(at: usize, j: usize, half: usize, limit: usize) -> (s: usize)
    requires
        at < limit,
    ensures
        s == clamp_coordinate(at + (j - half), limit as int),
{
    let pos: u128 = at as u128 + j as u128;
    if pos < half as u128 {
        0
    } else if pos - half as u128 >= limit as u128 {
        limit - 1
    } else {
        (pos - half as u128) as usize
    }
}

/// Sums of the three colour channels over the window of pixel `(x, y)`.
fn window_sums(
    data: &[u8],
    width: usize,
    height: usize,
    x: usize,
    y: usize,
    kernel: usize,
    vertical: bool,
) -> (sums: (u128, u128, u128))
    requires
        is_rgba(data@, width as int, height as int),
        x < width,
        y < height,
    ensures
        sums.0 == window_sum(
            data@,
            width as int,
            height as int,
            x as int,
            y as int,
            kernel as int / 2,
            kernel as int,
            0,
            vertical,
        ),
        sums.1 == window_sum(
            data@,
            width as int,
            height as int,
            x as int,
            y as int,
            kernel as int / 2,
            kernel as int,
            1,
            vertical,
        ),
        sums.2 == window_sum(
            data@,
            width as int,
            height as int,
            x as int,
            y as int,
            kernel as int / 2,
            kernel as int,
            2,
            vertical,
        ),
{
    let ghost d = data@;
    let ghost w = width as int;
    let ghost h = height as int;
    assert(d.len() == data.len());
    let half: usize = kernel / 2;
    let mut r: u128 = 0;
    let mut g: u128 = 0;
    let mut b: u128 = 0;
    let mut j: usize = 0;
    while j < kernel
        invariant
            d == data@,
            w == width as int,
            h == height as int,
            is_rgba(d, w, h),
            d.len() <= usize::MAX,
            half == kernel as int / 2,
            x < width,
            y < height,
            j <= kernel,
            r == window_sum(d, w, h, x as int, y as int, half as int, j as int, 0, vertical),
            g == window_sum(d, w, h, x as int, y as int, half as int, j as int, 1, vertical),
            b == window_sum(d, w, h, x as int, y as int, half as int, j as int, 2, vertical),
            r <= 255 * j,
            g <= 255 * j,
            b <= 255 * j,
        decreases kernel - j,
    {
        let sx: usize = if vertical {
            x
        } else {
            clamped_sample(x, j, half, width)
        };
        let sy: usize = if vertical {
            clamped_sample(y, j, half, height)
        } else {
            y
        };
        proof {
            lemma_byte_index_in_bounds(w, h, sx as int, sy as int, 0);
            lemma_byte_index_in_bounds(w, h, sx as int, sy as int, 2);
        }
        let idx: usize = (sy * width + sx) * 4;
        r = r + data[idx] as u128;
        g = g + data[idx + 1] as u128;
        b = b + data[idx + 2] as u128;
        j = j + 1;
    }
    (r, g, b)
}

/// One averaging pass over the image, along the columns if `vertical` and
/// along the rows if not.
fn box_filter(data: &[u8], width: usize, height: usize, kernel: usize, vertical: bool) -> (out:
    Vec<u8>)
    requires
        is_rgba(data@, width as int, height as int),
        kernel > 0,
    ensures
        out@ == box_filtered(data@, width as int, height as int, kernel as int, vertical),
{
    let ghost d = data@;
    let ghost w = width as int;
    let ghost h = height as int;
    let ghost k = kernel as int;
    let len: usize = data.len();
    let mut out: Vec<u8> = Vec::with_capacity(len);
    let mut y: usize = 0;
    while y < height
        invariant
            d == data@,
            w == width as int,
            h == height as int,
            k == kernel as int,
            k > 0,
            is_rgba(d, w, h),
            d.len() == len,
            y <= height,
            out@.len() == y * width * 4,
            forall|i: int|
                0 <= i < out@.len() ==> #[trigger] out@[i] == box_filtered_byte(
                    d,
                    w,
                    h,
                    k,
                    vertical,
                    i,
                ),
        decreases height - y,
    {
        let mut x: usize = 0;
        while x < width
            invariant
                d == data@,
                w == width as int,
                h == height as int,
                k == kernel as int,
                k > 0,
                is_rgba(d, w, h),
                d.len() == len,
                y < height,
                x <= width,
                out@.len() == (y * width + x) * 4,
                forall|i: int|
                    0 <= i < out@.len() ==> #[trigger] out@[i] == box_filtered_byte(
                        d,
                        w,
                        h,
                        k,
                        vertical,
                        i,
                    ),
            decreases width - x,
        {
            let sums = window_sums(data, width, height, x, y, kernel, vertical);
            proof {
                lemma_window_average_is_byte(d, w, h, x as int, y as int, k / 2, k, 0, vertical);
                lemma_window_average_is_byte(d, w, h, x as int, y as int, k / 2, k, 1, vertical);
                lemma_window_average_is_byte(d, w, h, x as int, y as int, k / 2, k, 2, vertical);
                lemma_byte_index_in_bounds(w, h, x as int, y as int, 3);
                lemma_coordinates_of_byte_index(w, x as int, y as int, 0);
                lemma_coordinates_of_byte_index(w, x as int, y as int, 1);
                lemma_coordinates_of_byte_index(w, x as int, y as int, 2);
                lemma_coordinates_of_byte_index(w, x as int, y as int, 3);
            }
            let idx: usize = (y * width + x) * 4;
            out.push((sums.0 / kernel as u128) as u8);
            out.push((sums.1 / kernel as u128) as u8);
            out.push((sums.2 / kernel as u128) as u8);
            out.push(data[idx + 3]);
            x = x + 1;
        }
        proof {
            assert((y + 1) * width == y * width + width) by (nonlinear_arith);
        }
        y = y + 1;
    }
    proof {
        assert(height * width == width * height) by (nonlinear_arith);
        assert(out@ =~= box_filtered(d, w, h, k, vertical));
    }
    out
}

/// Blurs a `width` x `height` RGBA image with a box kernel of
/// `kernel` samples, first along the rows and then along the columns.
///
/// In each pass red, green and blue of a pixel become the truncating
/// average of `kernel` samples, starting `kernel / 2` pixels before the
/// pixel; samples beyond an edge repeat the pixel at the edge. Alpha is
/// kept pixel by pixel.
///
/// A buffer whose length is not `width * height * 4` is refused.
pub fn box_blur(image_data: &[u8], width: usize, height: usize, kernel: usize) -> (result: Result<
    Vec<u8>,
    Error,
>)
    requires
        kernel > 0,
    ensures
        match result {
            Ok(out) => {
                &&& image_data@.len() == rgba_len(width as int, height as int)
                &&& out@ == blurred(image_data@, width as int, height as int, kernel as int)
                &&& out@.len() == image_data@.len()
            },
            Err(e) => {
                &&& e == Error::SizeMismatch
                &&& image_data@.len() != rgba_len(width as int, height as int)
            },
        },
{
    if !has_rgba_len(image_data.len(), width, height) {
        return Err(Error::SizeMismatch);
    }
    let rows = box_filter(image_data, width, height, kernel, false);
    let out = box_filter(rows.as_slice(), width, height, kernel, true);
    Ok(out)
}

/// Blurs a `width` x `height` RGBA image. `radius_bits` is the blur
/// radius as an IEEE 754 binary32 bit pattern; the kernel has
/// `floor(radius * 2) + 1` samples.
///
/// A buffer whose length is not `width * height * 4` is refused.
pub fn blur(image_data: &[u8], width: usize, height: usize, radius_bits: u32) -> (result: Result<
    Vec<u8>,
    Error,
>)
    requires
        kernel_size_of(radius_bits) <= usize::MAX,
    ensures
        match result {
            Ok(out) => {
                &&& image_data@.len() == rgba_len(width as int, height as int)
                &&& out@ == blurred(
                    image_data@,
                    width as int,
                    height as int,
                    kernel_size_of(radius_bits),
                )
                &&& out@.len() == image_data@.len()
            },
            Err(e) => {
                &&& e == Error::SizeMismatch
                &&& image_data@.len() != rgba_len(width as int, height as int)
            },
        },
{
    box_blur(image_data, width, height, kernel_size(radius_bits))
}

} // verus!
