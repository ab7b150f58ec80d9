use pavlova_ml::blur::{blur, box_blur};
use pavlova_ml::error::Error;
use pavlova_ml::pixelate::pixelate;
use pavlova_ml::raster::{checked_rgba_len, has_rgba_len};
use pavlova_ml::resize::{interpolate, resize_bilinear_rgba, source_position};

/// A small deterministic generator of test bytes.
fn noise(len: usize, seed: u64) -> Vec<u8> {
    let mut state = seed;
    let mut out = Vec::with_capacity(len);
    for _ in 0..len {
        state = state.wrapping_mul(6364136223846793005).wrapping_add(1442695040888963407);
        out.push((state >> 33) as u8);
    }
    out
}

/// Pixelation written the plain way, to hold the library against.
fn pixelate_plain(data: &[u8], width: usize, height: usize, block: usize) -> Vec<u8> {
    let mut out = data.to_vec();
    for by in (0..height).step_by(block) {
        for bx in (0..width).step_by(block) {
            let ey = (by + block).min(height);
            let ex = (bx + block).min(width);
            let mut sums = [0u64; 3];
            let mut count = 0u64;
            for y in by..ey {
                for x in bx..ex {
                    let i = (y * width + x) * 4;
                    for c in 0..3 {
                        sums[c] += data[i + c] as u64;
                    }
                    count += 1;
                }
            }
            for y in by..ey {
                for x in bx..ex {
                    let i = (y * width + x) * 4;
                    for c in 0..3 {
                        out[i + c] = (sums[c] / count) as u8;
                    }
                }
            }
        }
    }
    out
}

/// The two-pass box blur written the plain way.
fn blur_plain(data: &[u8], width: usize, height: usize, kernel: usize) -> Vec<u8> {
    let half = (kernel / 2) as i64;
    let mut temp = vec![0u8; data.len()];
    for y in 0..height {
        for x in 0..width {
            let o = (y * width + x) * 4;
            for c in 0..3 {
                let mut sum = 0u64;
                for k in 0..kernel as i64 {
                    let sx = (x as i64 + k - half).max(0).min(width as i64 - 1) as usize;
                    sum += data[(y * width + sx) * 4 + c] as u64;
                }
                temp[o + c] = (sum / kernel as u64) as u8;
            }
            temp[o + 3] = data[o + 3];
        }
    }
    let mut out = vec![0u8; data.len()];
    for y in 0..height {
        for x in 0..width {
            let o = (y * width + x) * 4;
            for c in 0..3 {
                let mut sum = 0u64;
                for k in 0..kernel as i64 {
                    let sy = (y as i64 + k - half).max(0).min(height as i64 - 1) as usize;
                    sum += temp[(sy * width + x) * 4 + c] as u64;
                }
                out[o + c] = (sum / kernel as u64) as u8;
            }
            out[o + 3] = temp[o + 3];
        }
    }
    out
}

/// Bilinear resize in exact integer arithmetic, written the plain way.
fn resize_plain(src: &[u8], sw: usize, sh: usize, dw: usize, dh: usize) -> Vec<u8> {
    let mut out = Vec::new();
    for dy in 0..dh {
        for dx in 0..dw {
            let px = (dx * sw) as u128;
            let py = (dy * sh) as u128;
            let x0 = (px / dw as u128) as usize;
            let y0 = (py / dh as u128) as usize;
            let fx = px % dw as u128;
            let fy = py % dh as u128;
            let x1 = (x0 + 1).min(sw - 1);
            let y1 = (y0 + 1).min(sh - 1);
            for c in 0..4 {
                let v = |x: usize, y: usize| src[(y * sw + x) * 4 + c] as u128;
                let top = v(x0, y0) * (dw as u128 - fx) + v(x1, y0) * fx;
                let bottom = v(x0, y1) * (dw as u128 - fx) + v(x1, y1) * fx;
                let n = top * (dh as u128 - fy) + bottom * fy;
                let d = (dw * dh) as u128;
                out.push(((2 * n + d) / (2 * d)) as u8);
            }
        }
    }
    out
}

/// Bilinear resize in single precision floating point.
fn resize_float(src: &[u8], sw: usize, sh: usize, dw: usize, dh: usize) -> Vec<u8> {
    let mut dst = vec![0u8; dw * dh * 4];
    let x_ratio = sw as f32 / dw as f32;
    let y_ratio = sh as f32 / dh as f32;
    for dy in 0..dh {
        for dx in 0..dw {
            let src_x = dx as f32 * x_ratio;
            let src_y = dy as f32 * y_ratio;
            let x0 = src_x.floor() as usize;
            let y0 = src_y.floor() as usize;
            let x1 = (x0 + 1).min(sw - 1);
            let y1 = (y0 + 1).min(sh - 1);
            let x_frac = src_x - x0 as f32;
            let y_frac = src_y - y0 as f32;
            for c in 0..4 {
                let v00 = src[(y0 * sw + x0) * 4 + c] as f32;
                let v10 = src[(y0 * sw + x1) * 4 + c] as f32;
                let v01 = src[(y1 * sw + x0) * 4 + c] as f32;
                let v11 = src[(y1 * sw + x1) * 4 + c] as f32;
                let top = v00 + (v10 - v00) * x_frac;
                let bottom = v01 + (v11 - v01) * x_frac;
                let value = top + (bottom - top) * y_frac;
                dst[(dy * dw + dx) * 4 + c] = value.round().clamp(0.0, 255.0) as u8;
            }
        }
    }
    dst
}

#[test]
fn test_blur() {
    let width = 100;
    let height = 100;
    let image_data = vec![128u8; width * height * 4];

    let result = blur(&image_data, width, height, 5.0f32.to_bits());
    assert!(result.is_ok());

    let blurred = result.unwrap();
    assert_eq!(blurred.len(), image_data.len());
}

#[test]
fn test_pixelate() {
    let width = 100;
    let height = 100;
    let image_data = vec![128u8; width * height * 4];

    let result = pixelate(&image_data, width, height, 10);
    assert!(result.is_ok());

    let pixelated = result.unwrap();
    assert_eq!(pixelated.len(), image_data.len());
}

#[test]
fn blur_of_grey_square_is_grey() {
    let image_data = vec![128u8; 100 * 100 * 4];
    let blurred = blur(&image_data, 100, 100, 5.0f32.to_bits()).unwrap();
    assert_eq!(blurred.len(), 40000);
    assert!(blurred.iter().all(|&b| b == 128));
}

#[test]
fn pixelate_of_grey_square_is_grey() {
    let image_data = vec![128u8; 100 * 100 * 4];
    let pixelated = pixelate(&image_data, 100, 100, 10).unwrap();
    assert_eq!(pixelated.len(), 40000);
    assert!(pixelated.iter().all(|&b| b == 128));
}

#[test]
fn rgba_len_is_checked() {
    assert_eq!(checked_rgba_len(100, 100), Some(40000));
    assert_eq!(checked_rgba_len(0, 7), Some(0));
    assert_eq!(checked_rgba_len(usize::MAX, 2), None);
    assert_eq!(checked_rgba_len(usize::MAX / 4 + 1, 1), None);
    assert!(has_rgba_len(24, 2, 3));
    assert!(!has_rgba_len(23, 2, 3));
    assert!(!has_rgba_len(0, usize::MAX, usize::MAX));
}

#[test]
fn wrong_length_is_a_size_mismatch() {
    let data = vec![0u8; 15];
    assert_eq!(pixelate(&data, 2, 2, 1), Err(Error::SizeMismatch));
    assert_eq!(blur(&data, 2, 2, 1.0f32.to_bits()), Err(Error::SizeMismatch));
    assert_eq!(box_blur(&data, 2, 2, 3), Err(Error::SizeMismatch));
    let data = vec![0u8; 17];
    assert_eq!(pixelate(&data, 2, 2, 1), Err(Error::SizeMismatch));
    assert_eq!(blur(&data, 2, 2, 1.0f32.to_bits()), Err(Error::SizeMismatch));
    assert_eq!(pixelate(&data, usize::MAX, usize::MAX, 1), Err(Error::SizeMismatch));
    assert_eq!(box_blur(&data, usize::MAX, 2, 1), Err(Error::SizeMismatch));
}

#[test]
fn empty_images_stay_empty() {
    assert_eq!(pixelate(&[], 0, 0, 4), Ok(vec![]));
    assert_eq!(pixelate(&[], 0, 9, 4), Ok(vec![]));
    assert_eq!(blur(&[], 5, 0, 2.0f32.to_bits()), Ok(vec![]));
    assert_eq!(resize_bilinear_rgba(&[], 0, 0, 0, 0), Vec::<u8>::new());
    assert_eq!(resize_bilinear_rgba(&[1, 2, 3, 4], 1, 1, 0, 5), Vec::<u8>::new());
}

#[test]
fn pixelate_two_by_two_blocks() {
    // 4 x 2 image, blocks of 2 x 2: two blocks.
    let data: Vec<u8> = vec![
        10, 20, 30, 1,   20, 30, 40, 2,   100, 0, 255, 3,   101, 0, 255, 4,
        30, 40, 50, 5,   41, 51, 61, 6,   102, 1, 255, 7,   104, 2, 254, 8,
    ];
    let out = pixelate(&data, 4, 2, 2).unwrap();
    // left block: r (10+20+30+41)/4 = 25, g (20+30+40+51)/4 = 35, b (30+40+50+61)/4 = 45
    // right block: r 407/4 = 101, g 3/4 = 0, b 1019/4 = 254
    let expected: Vec<u8> = vec![
        25, 35, 45, 1,   25, 35, 45, 2,   101, 0, 254, 3,   101, 0, 254, 4,
        25, 35, 45, 5,   25, 35, 45, 6,   101, 0, 254, 7,   101, 0, 254, 8,
    ];
    assert_eq!(out, expected);
}

#[test]
fn pixelate_cuts_the_last_blocks() {
    // 3 x 3 image, blocks of 2: blocks of 2x2, 1x2, 2x1 and 1x1.
    let mut data = vec![0u8; 36];
    for p in 0..9 {
        data[p * 4] = (p * 10) as u8;
        data[p * 4 + 1] = 200;
        data[p * 4 + 2] = p as u8;
        data[p * 4 + 3] = (p + 50) as u8;
    }
    let out = pixelate(&data, 3, 3, 2).unwrap();
    let red: Vec<u8> = (0..9).map(|p| out[p * 4]).collect();
    // reds: 0 10 20 / 30 40 50 / 60 70 80
    assert_eq!(red, vec![20, 20, 35, 20, 20, 35, 65, 65, 80]);
    for p in 0..9 {
        assert_eq!(out[p * 4 + 1], 200);
        assert_eq!(out[p * 4 + 3], (p + 50) as u8);
    }
    assert_eq!(out, pixelate_plain(&data, 3, 3, 2));
}

#[test]
fn pixelate_agrees_with_the_plain_version() {
    for &(w, h, block) in
        &[(1usize, 1usize, 1usize), (7, 5, 3), (16, 16, 4), (13, 9, 20), (5, 11, 1), (10, 3, 7)]
    {
        let data = noise(w * h * 4, (w * 31 + h * 7 + block) as u64);
        assert_eq!(pixelate(&data, w, h, block).unwrap(), pixelate_plain(&data, w, h, block));
    }
}

#[test]
fn pixelate_with_a_huge_block_averages_the_whole_image() {
    let data = noise(6 * 4 * 4, 99);
    let out = pixelate(&data, 6, 4, usize::MAX).unwrap();
    for c in 0..3 {
        let sum: u64 = (0..24).map(|p| data[p * 4 + c] as u64).sum();
        for p in 0..24 {
            assert_eq!(out[p * 4 + c], (sum / 24) as u8);
        }
    }
    for p in 0..24 {
        assert_eq!(out[p * 4 + 3], data[p * 4 + 3]);
    }
}

#[test]
fn pixelate_keeps_a_uniform_image_for_every_block_size() {
    let mut data = Vec::new();
    for _ in 0..(9 * 7) {
        data.extend_from_slice(&[17, 250, 3, 99]);
    }
    for block in [1usize, 2, 3, 4, 5, 8, 9, 100] {
        assert_eq!(pixelate(&data, 9, 7, block).unwrap(), data);
    }
}

#[test]
fn blur_keeps_a_uniform_image_for_every_radius() {
    let mut data = Vec::new();
    for _ in 0..(9 * 7) {
        data.extend_from_slice(&[17, 250, 3, 99]);
    }
    for radius in [0.0f32, 0.2, 0.5, 1.0, 2.5, 7.0, 100.0] {
        assert_eq!(blur(&data, 9, 7, radius.to_bits()).unwrap(), data);
    }
}

#[test]
fn blur_of_one_row() {
    // radius 1.0: three samples, one before the pixel to one after it.
    let data: Vec<u8> = vec![0, 30, 90, 7, 30, 60, 90, 8, 90, 90, 91, 9];
    let out = blur(&data, 3, 1, 1.0f32.to_bits()).unwrap();
    // red: (0+0+30)/3, (0+30+90)/3, (30+90+90)/3
    // green: (30+30+60)/3, (30+60+90)/3, (60+90+90)/3
    // blue: (90+90+90)/3, (90+90+91)/3, (90+91+91)/3
    assert_eq!(out, vec![10, 40, 90, 7, 40, 60, 90, 8, 70, 80, 90, 9]);
}

#[test]
fn blur_with_an_even_kernel_leans_backwards() {
    // radius 0.5: two samples, the pixel before and the pixel itself.
    let data: Vec<u8> = vec![10, 0, 0, 1, 20, 0, 0, 2, 50, 0, 0, 3];
    let out = blur(&data, 3, 1, 0.5f32.to_bits()).unwrap();
    assert_eq!(out, vec![10, 0, 0, 1, 15, 0, 0, 2, 35, 0, 0, 3]);
    assert_eq!(out, box_blur(&data, 3, 1, 2).unwrap());
}

#[test]
fn blur_of_radius_zero_changes_nothing() {
    let data = noise(5 * 4 * 4, 3);
    assert_eq!(blur(&data, 5, 4, 0.0f32.to_bits()).unwrap(), data);
    assert_eq!(blur(&data, 5, 4, (-3.0f32).to_bits()).unwrap(), data);
    assert_eq!(blur(&data, 5, 4, f32::NAN.to_bits()).unwrap(), data);
    assert_eq!(blur(&data, 5, 4, 0.49f32.to_bits()).unwrap(), data);
}

#[test]
fn blur_agrees_with_the_plain_version() {
    for &(w, h, radius) in
        &[(1usize, 1usize, 3.0f32), (7, 5, 1.0), (16, 16, 2.5), (13, 9, 0.5), (4, 11, 6.0)]
    {
        let data = noise(w * h * 4, (w * 13 + h) as u64);
        let kernel = (radius * 2.0) as usize + 1;
        let expected = blur_plain(&data, w, h, kernel);
        assert_eq!(blur(&data, w, h, radius.to_bits()).unwrap(), expected);
        assert_eq!(box_blur(&data, w, h, kernel).unwrap(), expected);
    }
}

#[test]
fn interpolate_rounds_halves_up() {
    // halfway between 10 and 11
    assert_eq!(interpolate(10, 11, 10, 11, 1, 0, 2, 1), 11);
    // a quarter of the way from 10 to 11
    assert_eq!(interpolate(10, 11, 10, 11, 1, 0, 4, 1), 10);
    // the middle of 0, 255, 255, 0
    assert_eq!(interpolate(0, 255, 255, 0, 1, 1, 2, 2), 128);
    assert_eq!(interpolate(255, 255, 255, 255, 3, 5, 7, 11), 255);
    assert_eq!(interpolate(0, 0, 0, 200, 1, 1, 2, 2), 50);
}

#[test]
fn source_position_scales_and_clamps() {
    assert_eq!(source_position(0, 3, 2), (0, 1, 0));
    // 1 * 3 / 2 = 1.5
    assert_eq!(source_position(1, 3, 2), (1, 2, 1));
    // 5 * 4 / 6 = 3 1/3: the second sample stays inside
    assert_eq!(source_position(5, 4, 6), (3, 3, 2));
    assert_eq!(source_position(7, 1, 9), (0, 0, 7));
}

#[test]
fn resize_to_the_same_size_changes_nothing() {
    let data = noise(9 * 6 * 4, 5);
    let out = resize_bilinear_rgba(&data, 9, 6, 9, 6);
    assert_eq!(out.len(), data.len());
    assert_eq!(out, data);
}

#[test]
fn resize_doubles_a_row() {
    // 2 x 1 to 4 x 1: positions 0, 0.5, 1, 1.5 (the last one clamped)
    let data: Vec<u8> = vec![0, 10, 100, 255, 100, 11, 200, 255];
    let out = resize_bilinear_rgba(&data, 2, 1, 4, 1);
    assert_eq!(out, vec![0, 10, 100, 255, 50, 11, 150, 255, 100, 11, 200, 255, 100, 11, 200, 255]);
}

#[test]
fn resize_keeps_a_uniform_image() {
    let mut data = Vec::new();
    for _ in 0..(5 * 3) {
        data.extend_from_slice(&[1, 128, 255, 77]);
    }
    for &(dw, dh) in &[(1usize, 1usize), (5, 3), (10, 6), (7, 11), (224, 224), (2, 9)] {
        let out = resize_bilinear_rgba(&data, 5, 3, dw, dh);
        assert_eq!(out.len(), dw * dh * 4);
        for p in 0..dw * dh {
            assert_eq!(&out[p * 4..p * 4 + 4], &[1, 128, 255, 77]);
        }
    }
}

#[test]
fn resize_agrees_with_the_plain_version() {
    for &(sw, sh, dw, dh) in
        &[(3usize, 2usize, 5usize, 4usize), (8, 8, 3, 3), (1, 1, 4, 4), (10, 7, 224, 224), (5, 9, 9, 5)]
    {
        let data = noise(sw * sh * 4, (sw + 3 * sh + 5 * dw + 7 * dh) as u64);
        let out = resize_bilinear_rgba(&data, sw, sh, dw, dh);
        assert_eq!(out, resize_plain(&data, sw, sh, dw, dh));
    }
}

#[test]
fn resize_stays_within_one_step_of_single_precision() {
    for &(sw, sh, dw, dh) in &[(3usize, 2usize, 5usize, 4usize), (8, 8, 3, 3), (10, 7, 224, 224)] {
        let data = noise(sw * sh * 4, (sw * dh) as u64);
        let exact = resize_bilinear_rgba(&data, sw, sh, dw, dh);
        let float = resize_float(&data, sw, sh, dw, dh);
        assert_eq!(exact.len(), float.len());
        for i in 0..exact.len() {
            let a = exact[i] as i32;
            let b = float[i] as i32;
            assert!((a - b).abs() <= 1, "byte {}: {} against {}", i, a, b);
        }
    }
}
