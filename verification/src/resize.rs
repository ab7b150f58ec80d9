//! Bilinear resampling of an RGBA image, in exact arithmetic.
//!
//! Destination coordinate `d` of an axis with `dst_n` pixels lies at the
//! position `d * src_n / dst_n` of the source axis. The integer part of
//! that position picks the first sample, its successor (or itself, at the
//! far edge) the second, and the fractional part weighs them. All of it is
//! computed over the common denominator, so nothing is rounded before the
//! final value is.

use vstd::prelude::*;
use vstd::arithmetic::div_mod::{
    lemma_fundamental_div_mod,
    lemma_fundamental_div_mod_converse,
};
use crate::raster::{
    byte_index,
    channel_of,
    column_of,
    is_rgba,
    is_uniform,
    lemma_byte_index_in_bounds,
    lemma_byte_index_of_coordinates,
    lemma_coordinates_of_byte_index,
    rgba_len,
    row_of,
};

verus! {

/// Integer part of the source position of destination coordinate `d`.
pub open spec fn source_floor(d: int, src_n: int, dst_n: int) -> int {
    (d * src_n) / dst_n
}

/// Fractional part of that position, as a numerator over `dst_n`.
pub open spec fn source_fraction(d: int, src_n: int, dst_n: int) -> int {
    (d * src_n) % dst_n
}

/// The sample after `p`, or `p` itself at the far edge of the source.
pub open spec fn next_sample(p: int, src_n: int) -> int {
    if p + 1 < src_n {
        p + 1
    } else {
        src_n - 1
    }
}

/// The bilinear blend of four samples, as a numerator over `dw * dh`:
/// `fx / dw` weighs the right column against the left one, `fy / dh` the
/// bottom row against the top one.
pub open spec fn bilinear_numerator(
    v00: int,
    v10: int,
    v01: int,
    v11: int,
    fx: int,
    fy: int,
    dw: int,
    dh: int,
) -> int {
    (v00 * (dw - fx) + v10 * fx) * (dh - fy) + (v01 * (dw - fx) + v11 * fx) * fy
}

/// `n / d` rounded to the nearest integer, halves upwards, for `n >= 0`
/// and `d > 0`.
pub open spec fn round_half_up(n: int, d: int) -> int {
    (2 * n + d) / (2 * d)
}

/// Byte `i` of the resized image.
pub open spec fn resized_byte(data: Seq<u8>, sw: int, sh: int, dw: int, dh: int, i: int) -> u8 {
    let dx = column_of(i, dw);
    let dy = row_of(i, dw);
    let c = channel_of(i);
    let x0 = source_floor(dx, sw, dw);
    let y0 = source_floor(dy, sh, dh);
    let x1 = next_sample(x0, sw);
    let y1 = next_sample(y0, sh);
    round_half_up(
        bilinear_numerator(
            data[byte_index(sw, x0, y0, c)] as int,
            data[byte_index(sw, x1, y0, c)] as int,
            data[byte_index(sw, x0, y1, c)] as int,
            data[byte_index(sw, x1, y1, c)] as int,
            source_fraction(dx, sw, dw),
            source_fraction(dy, sh, dh),
            dw,
            dh,
        ),
        dw * dh,
    ) as u8
}

/// The `sw` x `sh` image `data`, resized to `dw` x `dh`.
pub open spec fn resized(data: Seq<u8>, sw: int, sh: int, dw: int, dh: int) -> Seq<u8> {
    Seq::new(rgba_len(dw, dh) as nat, |i: int| resized_byte(data, sw, sh, dw, dh, i))
}

/// The two samples of a destination coordinate lie inside the source, and
/// the fraction is a proper one.
pub proof fn lemma_source_position(d: int, src_n: int, dst_n: int)
    requires
        0 <= d < dst_n,
        0 < src_n,
    ensures
        0 <= d * src_n,
        0 <= source_floor(d, src_n, dst_n) < src_n,
        0 <= next_sample(source_floor(d, src_n, dst_n), src_n) < src_n,
        0 <= source_fraction(d, src_n, dst_n) < dst_n,
{
    let p = d * src_n;
    assert(0 <= p && p + src_n <= dst_n * src_n) by (nonlinear_arith)
        requires
            p == d * src_n,
            0 <= d,
            d + 1 <= dst_n,
            0 < src_n,
    ;
    lemma_fundamental_div_mod(p, dst_n);
    let q = p / dst_n;
    assert(0 <= q < src_n) by (nonlinear_arith)
        requires
            p == dst_n * q + p % dst_n,
            0 <= p % dst_n < dst_n,
            0 <= p,
            p < dst_n * src_n,
            0 < dst_n,
    ;
}

/// A blend of bytes is a byte: the numerator stays within 255 times the
/// denominator, and so does every intermediate product.
pub proof fn lemma_bilinear_bounds(
    v00: int,
    v10: int,
    v01: int,
    v11: int,
    fx: int,
    fy: int,
    dw: int,
    dh: int,
)
    requires
        0 <= v00 <= 255,
        0 <= v10 <= 255,
        0 <= v01 <= 255,
        0 <= v11 <= 255,
        0 <= fx < dw,
        0 <= fy < dh,
    ensures
        0 < dw * dh,
        0 <= v00 * (dw - fx) <= 255 * (dw - fx),
        0 <= v10 * fx <= 255 * fx,
        0 <= v01 * (dw - fx) <= 255 * (dw - fx),
        0 <= v11 * fx <= 255 * fx,
        0 <= (v00 * (dw - fx) + v10 * fx) * (dh - fy) <= 255 * (dw * dh),
        0 <= (v01 * (dw - fx) + v11 * fx) * fy <= 255 * (dw * dh),
        0 <= bilinear_numerator(v00, v10, v01, v11, fx, fy, dw, dh) <= 255 * (dw * dh),
        0 <= round_half_up(bilinear_numerator(v00, v10, v01, v11, fx, fy, dw, dh), dw * dh) <= 255,
{
    let a = dw - fx;
    let top = v00 * a + v10 * fx;
    let bottom = v01 * a + v11 * fx;
    assert(0 <= v00 * a <= 255 * a && 0 <= v10 * fx <= 255 * fx && 0 <= v01 * a <= 255 * a && 0
        <= v11 * fx <= 255 * fx) by (nonlinear_arith)
        requires
            0 <= v00 <= 255,
            0 <= v10 <= 255,
            0 <= v01 <= 255,
            0 <= v11 <= 255,
            0 <= fx,
            0 <= a,
    ;
    assert(0 <= top <= 255 * dw);
    assert(0 <= bottom <= 255 * dw);
    let b = dh - fy;
    assert(0 <= top * b <= 255 * dw * b && 0 <= bottom * fy <= 255 * dw * fy) by (nonlinear_arith)
        requires
            0 <= top <= 255 * dw,
            0 <= bottom <= 255 * dw,
            0 <= b,
            0 <= fy,
    ;
    assert(255 * dw * b + 255 * dw * fy == 255 * (dw * dh) && 0 < dw * dh && 255 * dw * b <= 255
        * (dw * dh) && 255 * dw * fy <= 255 * (dw * dh)) by (nonlinear_arith)
        requires
            b == dh - fy,
            0 <= fy < dh,
            0 < dw,
    ;
    let n = bilinear_numerator(v00, v10, v01, v11, fx, fy, dw, dh);
    let d = dw * dh;
    assert(n == top * b + bottom * fy);
    assert(0 <= (2 * n + d) / (2 * d) <= 255) by (nonlinear_arith)
        requires
            0 < d,
            0 <= n <= 255 * d,
    ;
}

/// Blending four equal samples gives that sample, whatever the weights.
pub proof fn lemma_blend_of_equal_samples(v: int, fx: int, fy: int, dw: int, dh: int)
    requires
        0 <= v,
        0 < dw,
        0 < dh,
    ensures
        round_half_up(bilinear_numerator(v, v, v, v, fx, fy, dw, dh), dw * dh) == v,
{
    let d = dw * dh;
    let n = bilinear_numerator(v, v, v, v, fx, fy, dw, dh);
    assert(n == v * d) by (nonlinear_arith)
        requires
            n == (v * (dw - fx) + v * fx) * (dh - fy) + (v * (dw - fx) + v * fx) * fy,
            d == dw * dh,
    ;
    assert(0 < d) by (nonlinear_arith)
        requires
            d == dw * dh,
            0 < dw,
            0 < dh,
    ;
    assert(2 * n + d == (2 * d) * v + d) by (nonlinear_arith)
        requires
            n == v * d,
    ;
    lemma_fundamental_div_mod_converse(2 * n + d, 2 * d, v, d);
}

/// Resizing an image of one colour gives an image of that colour,
/// whatever the two resolutions.
pub proof fn lemma_resize_uniform(
    data: Seq<u8>,
    color: Seq<u8>,
    sw: int,
    sh: int,
    dw: int,
    dh: int,
)
    requires
        is_rgba(data, sw, sh),
        is_uniform(data, color),
        0 < sw,
        0 < sh,
        0 <= dw,
        0 <= dh,
    ensures
        is_rgba(resized(data, sw, sh, dw, dh), dw, dh),
        is_uniform(resized(data, sw, sh, dw, dh), color),
{
    let out = resized(data, sw, sh, dw, dh);
    assert(0 <= dw * dh * 4) by (nonlinear_arith)
        requires
            0 <= dw,
            0 <= dh,
    ;
    assert forall|i: int| 0 <= i < out.len() implies #[trigger] out[i] == color[channel_of(i)] by {
        lemma_byte_index_of_coordinates(dw, dh, i);
        let dx = column_of(i, dw);
        let dy = row_of(i, dw);
        let c = channel_of(i);
        lemma_source_position(dx, sw, dw);
        lemma_source_position(dy, sh, dh);
        let x0 = source_floor(dx, sw, dw);
        let y0 = source_floor(dy, sh, dh);
        let x1 = next_sample(x0, sw);
        let y1 = next_sample(y0, sh);
        lemma_byte_index_in_bounds(sw, sh, x0, y0, c);
        lemma_byte_index_in_bounds(sw, sh, x1, y0, c);
        lemma_byte_index_in_bounds(sw, sh, x0, y1, c);
        lemma_byte_index_in_bounds(sw, sh, x1, y1, c);
        lemma_coordinates_of_byte_index(sw, x0, y0, c);
        lemma_coordinates_of_byte_index(sw, x1, y0, c);
        lemma_coordinates_of_byte_index(sw, x0, y1, c);
        lemma_coordinates_of_byte_index(sw, x1, y1, c);
        assert(data[byte_index(sw, x0, y0, c)] == color[c]);
        assert(data[byte_index(sw, x1, y0, c)] == color[c]);
        assert(data[byte_index(sw, x0, y1, c)] == color[c]);
        assert(data[byte_index(sw, x1, y1, c)] == color[c]);
        lemma_blend_of_equal_samples(
            color[c] as int,
            source_fraction(dx, sw, dw),
            source_fraction(dy, sh, dh),
            dw,
            dh,
        );
    }
}

/// Resizing an image to its own resolution gives the image back.
pub proof fn lemma_resize_same_size(data: Seq<u8>, width: int, height: int)
    requires
        is_rgba(data, width, height),
    ensures
        resized(data, width, height, width, height) == data,
{
    let out = resized(data, width, height, width, height);
    assert forall|i: int| 0 <= i < data.len() implies out[i] == data[i] by {
        lemma_byte_index_of_coordinates(width, height, i);
        let x = column_of(i, width);
        let y = row_of(i, width);
        let c = channel_of(i);
        assert(x * width == width * x && y * height == height * y) by (nonlinear_arith);
        lemma_fundamental_div_mod_converse(x * width, width, x, 0);
        lemma_fundamental_div_mod_converse(y * height, height, y, 0);
        let x1 = next_sample(x, width);
        let y1 = next_sample(y, height);
        let v00 = data[byte_index(width, x, y, c)] as int;
        let v10 = data[byte_index(width, x1, y, c)] as int;
        let v01 = data[byte_index(width, x, y1, c)] as int;
        let v11 = data[byte_index(width, x1, y1, c)] as int;
        let d = width * height;
        let n = bilinear_numerator(v00, v10, v01, v11, 0, 0, width, height);
        assert(n == v00 * d && 0 < d) by (nonlinear_arith)
            requires
                n == (v00 * (width - 0) + v10 * 0) * (height - 0) + (v01 * (width - 0) + v11 * 0)
                    * 0,
                d == width * height,
                0 < width,
                0 < height,
        ;
        assert(2 * n + d == (2 * d) * v00 + d) by (nonlinear_arith)
            requires
                n == v00 * d,
        ;
        lemma_fundamental_div_mod_converse(2 * n + d, 2 * d, v00, d);
    }
    assert(out =~= data);
}

/// The blend of four samples with the weights `fx / dw` and `fy / dh`,
/// rounded to the nearest byte.
pub fn interpolate(v00: u8, v10: u8, v01: u8, v11: u8, fx: usize, fy: usize, dw: usize, dh: usize) -> (value:
    u8)
    requires
        fx < dw,
        fy < dh,
        dw * dh <= usize::MAX,
    ensures
        value == round_half_up(
            bilinear_numerator(
                v00 as int,
                v10 as int,
                v01 as int,
                v11 as int,
                fx as int,
                fy as int,
                dw as int,
                dh as int,
            ),
            dw * dh,
        ),
{
    proof {
        lemma_bilinear_bounds(
            v00 as int,
            v10 as int,
            v01 as int,
            v11 as int,
            fx as int,
            fy as int,
            dw as int,
            dh as int,
        );
    }
    let left: u128 = (dw - fx) as u128;
    let right: u128 = fx as u128;
    let top: u128 = v00 as u128 * left + v10 as u128 * right;
    let bottom: u128 = v01 as u128 * left + v11 as u128 * right;
    let numerator: u128 = top * (dh - fy) as u128 + bottom * fy as u128;
    let denominator: u128 = dw as u128 * dh as u128;
    ((2 * numerator + denominator) / (2 * denominator)) as u8
}

/// Where destination coordinate `d` lies on a source axis of `src_n`
/// pixels: the first sample, the second sample, and the numerator of the
/// weight of the second over `dst_n`.
pub fn source_position(d: usize, src_n: usize, dst_n: usize) -> (position: (usize, usize, usize))
    requires
        d < dst_n,
        0 < src_n,
    ensures
        position.0 == source_floor(d as int, src_n as int, dst_n as int),
        position.1 == next_sample(position.0 as int, src_n as int),
        position.2 == source_fraction(d as int, src_n as int, dst_n as int),
        position.0 < src_n,
        position.1 < src_n,
        position.2 < dst_n,
{
    proof {
        lemma_source_position(d as int, src_n as int, dst_n as int);
        assert(d * src_n <= usize::MAX * usize::MAX) by (nonlinear_arith)
            requires
                0 <= d <= usize::MAX,
                0 <= src_n <= usize::MAX,
        ;
    }
    let scaled: u128 = d as u128 * src_n as u128;
    let first: usize = (scaled / dst_n as u128) as usize;
    let fraction: usize = (scaled % dst_n as u128) as usize;
    let second: usize = if first + 1 < src_n {
        first + 1
    } else {
        src_n - 1
    };
    (first, second, fraction)
}

/// Resizes the `src_w` x `src_h` RGBA image `src` to `dst_w` x `dst_h`
/// by bilinear interpolation.
///
/// Each destination pixel blends the four nearest source pixels, all four
/// channels alike; samples beyond the right or bottom edge repeat the
/// edge. The blend is rounded to the nearest integer, and being a blend
/// of bytes it needs no clamping.
pub fn resize_bilinear_rgba(src: &[u8], src_w: usize, src_h: usize, dst_w: usize, dst_h: usize) -> (dst:
    Vec<u8>)
    requires
        is_rgba(src@, src_w as int, src_h as int),
        rgba_len(dst_w as int, dst_h as int) <= usize::MAX,
        0 < rgba_len(dst_w as int, dst_h as int) ==> 0 < src_w && 0 < src_h,
    ensures
        dst@ == resized(src@, src_w as int, src_h as int, dst_w as int, dst_h as int),
        dst@.len() == rgba_len(dst_w as int, dst_h as int),
{
    let ghost d = src@;
    let ghost sw = src_w as int;
    let ghost sh = src_h as int;
    let ghost dw = dst_w as int;
    let ghost dh = dst_h as int;
    assert(d.len() == src.len());
    let mut dst: Vec<u8> = Vec::new();
    let mut dy: usize = 0;
    while dy < dst_h
        invariant
            d == src@,
            sw == src_w as int,
            sh == src_h as int,
            dw == dst_w as int,
            dh == dst_h as int,
            is_rgba(d, sw, sh),
            d.len() <= usize::MAX,
            rgba_len(dw, dh) <= usize::MAX,
            0 < rgba_len(dw, dh) ==> 0 < src_w && 0 < src_h,
            dy <= dst_h,
            dst@.len() == dy * dst_w * 4,
            forall|i: int|
                0 <= i < dst@.len() ==> #[trigger] dst@[i] == resized_byte(d, sw, sh, dw, dh, i),
        decreases dst_h - dy,
    {
        let mut dx: usize = 0;
        while dx < dst_w
            invariant
                d == src@,
                sw == src_w as int,
                sh == src_h as int,
                dw == dst_w as int,
                dh == dst_h as int,
                is_rgba(d, sw, sh),
                d.len() <= usize::MAX,
                rgba_len(dw, dh) <= usize::MAX,
                0 < rgba_len(dw, dh) ==> 0 < src_w && 0 < src_h,
                dy < dst_h,
                dx <= dst_w,
                dst@.len() == (dy * dst_w + dx) * 4,
                forall|i: int|
                    0 <= i < dst@.len() ==> #[trigger] dst@[i] == resized_byte(
                        d,
                        sw,
                        sh,
                        dw,
                        dh,
                        i,
                    ),
            decreases dst_w - dx,
        {
            proof {
                lemma_byte_index_in_bounds(dw, dh, dx as int, dy as int, 3);
                assert(dw * dh <= dw * dh * 4) by (nonlinear_arith)
                    requires
                        0 <= dw * dh,
                ;
            }
            let (x0, x1, fx) = source_position(dx, src_w, dst_w);
            let (y0, y1, fy) = source_position(dy, src_h, dst_h);
            proof {
                lemma_byte_index_in_bounds(sw, sh, x0 as int, y0 as int, 3);
                lemma_byte_index_in_bounds(sw, sh, x1 as int, y0 as int, 3);
                lemma_byte_index_in_bounds(sw, sh, x0 as int, y1 as int, 3);
                lemma_byte_index_in_bounds(sw, sh, x1 as int, y1 as int, 3);
                lemma_coordinates_of_byte_index(dw, dx as int, dy as int, 0);
                lemma_coordinates_of_byte_index(dw, dx as int, dy as int, 1);
                lemma_coordinates_of_byte_index(dw, dx as int, dy as int, 2);
                lemma_coordinates_of_byte_index(dw, dx as int, dy as int, 3);
            }
            let idx00: usize = (y0 * src_w + x0) * 4;
            let idx10: usize = (y0 * src_w + x1) * 4;
            let idx01: usize = (y1 * src_w + x0) * 4;
            let idx11: usize = (y1 * src_w + x1) * 4;
            let mut c: usize = 0;
            while c < 4
                invariant
                    d == src@,
                    sw == src_w as int,
                    sh == src_h as int,
                    dw == dst_w as int,
                    dh == dst_h as int,
                    d.len() <= usize::MAX,
                    c <= 4,
                    dx < dst_w,
                    dy < dst_h,
                    dw * dh <= usize::MAX,
                    fx < dst_w,
                    fy < dst_h,
                    idx00 == byte_index(sw, x0 as int, y0 as int, 0),
                    idx10 == byte_index(sw, x1 as int, y0 as int, 0),
                    idx01 == byte_index(sw, x0 as int, y1 as int, 0),
                    idx11 == byte_index(sw, x1 as int, y1 as int, 0),
                    idx00 + 3 < d.len(),
                    idx10 + 3 < d.len(),
                    idx01 + 3 < d.len(),
                    idx11 + 3 < d.len(),
                    x0 == source_floor(dx as int, sw, dw),
                    y0 == source_floor(dy as int, sh, dh),
                    x1 == next_sample(x0 as int, sw),
                    y1 == next_sample(y0 as int, sh),
                    fx == source_fraction(dx as int, sw, dw),
                    fy == source_fraction(dy as int, sh, dh),
                    forall|k: int|
                        0 <= k < 4 ==> {
                            &&& channel_of(#[trigger] byte_index(dw, dx as int, dy as int, k)) == k
                            &&& column_of(byte_index(dw, dx as int, dy as int, k), dw) == dx
                            &&& row_of(byte_index(dw, dx as int, dy as int, k), dw) == dy
                        },
                    dst@.len() == byte_index(dw, dx as int, dy as int, c as int),
                    forall|i: int|
                        0 <= i < dst@.len() ==> #[trigger] dst@[i] == resized_byte(
                            d,
                            sw,
                            sh,
                            dw,
                            dh,
                            i,
                        ),
                decreases 4 - c,
            {
                let value = interpolate(
                    src[idx00 + c],
                    src[idx10 + c],
                    src[idx01 + c],
                    src[idx11 + c],
                    fx,
                    fy,
                    dst_w,
                    dst_h,
                );
                proof {
                    let i = byte_index(dw, dx as int, dy as int, c as int);
                    assert(channel_of(i) == c && column_of(i, dw) == dx && row_of(i, dw) == dy);
                    assert(value == resized_byte(d, sw, sh, dw, dh, i));
                }
                dst.push(value);
                c = c + 1;
            }
            dx = dx + 1;
        }
        proof {
            assert((dy + 1) * dst_w == dy * dst_w + dst_w) by (nonlinear_arith);
        }
        dy = dy + 1;
    }
    proof {
        assert(dst_h * dst_w == dst_w * dst_h) by (nonlinear_arith);
        assert(dst@ =~= resized(d, sw, sh, dw, dh));
    }
    dst
}

} // verus!
