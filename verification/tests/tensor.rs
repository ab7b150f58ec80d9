use pavlova_ml::division::ratio;
use pavlova_ml::error::Error;
use pavlova_ml::preprocess::{
    normalize, preprocess_for_model, to_planar_normalized, MODEL_INPUT_CHANNELS,
    MODEL_INPUT_HEIGHT, MODEL_INPUT_LEN, MODEL_INPUT_WIDTH,
};
use pavlova_ml::resize::resize_bilinear_rgba;

#[test]
fn model_input_has_150528_elements() {
    assert_eq!(MODEL_INPUT_WIDTH, 224);
    assert_eq!(MODEL_INPUT_HEIGHT, 224);
    assert_eq!(MODEL_INPUT_CHANNELS, 3);
    assert_eq!(MODEL_INPUT_LEN, 150528);
    assert_eq!(MODEL_INPUT_LEN, MODEL_INPUT_CHANNELS * MODEL_INPUT_HEIGHT * MODEL_INPUT_WIDTH);
}

#[test]
fn ratio_of_simple_numbers() {
    assert_eq!(ratio(0, 7), 0);
    assert_eq!(ratio(1, 1), 1.0f32.to_bits());
    assert_eq!(ratio(1, 2), 0.5f32.to_bits());
    assert_eq!(ratio(3, 4), 0.75f32.to_bits());
    assert_eq!(ratio(1, 3), 0x3eaa_aaab);
    assert_eq!(ratio(2, 3), 0x3f2a_aaab);
    assert_eq!(ratio(65535, 1), 65535.0f32.to_bits());
    assert_eq!(ratio(1, 65535), (1.0f32 / 65535.0).to_bits());
    assert_eq!(ratio(255, 255), 1.0f32.to_bits());
}

#[test]
fn ratio_agrees_with_the_hardware() {
    let mut state = 77u64;
    for _ in 0..300000 {
        state = state.wrapping_mul(6364136223846793005).wrapping_add(1442695040888963407);
        let p = (state >> 48) as u16;
        let q = ((state >> 32) as u16).max(1);
        assert_eq!(ratio(p, q), (p as f32 / q as f32).to_bits(), "{} / {}", p, q);
    }
    for p in 0..=600u16 {
        for q in 1..=600u16 {
            assert_eq!(ratio(p, q), (p as f32 / q as f32).to_bits(), "{} / {}", p, q);
        }
    }
}

#[test]
fn normalize_maps_bytes_onto_minus_one_to_one() {
    assert_eq!(normalize(0), (-1.0f32).to_bits());
    assert_eq!(normalize(255), 1.0f32.to_bits());
    assert_eq!(normalize(127), (-1.0f32 / 255.0).to_bits());
    assert_eq!(normalize(128), (1.0f32 / 255.0).to_bits());
    assert_eq!(normalize(64), (-127.0f32 / 255.0).to_bits());
}

#[test]
fn normalize_is_the_value_less_127_5_over_127_5() {
    for v in 0..=255u8 {
        let expected = (v as f32 - 127.5) / 127.5;
        assert_eq!(normalize(v), expected.to_bits(), "byte {}", v);
        assert!((-1.0..=1.0).contains(&f32::from_bits(normalize(v))));
    }
}

#[test]
fn preprocess_refuses_a_wrong_length() {
    assert_eq!(preprocess_for_model(&[0u8; 15], 2, 2), Err(Error::SizeMismatch));
    assert_eq!(preprocess_for_model(&[0u8; 17], 2, 2), Err(Error::SizeMismatch));
    assert_eq!(preprocess_for_model(&[], 1, 1), Err(Error::SizeMismatch));
    assert_eq!(preprocess_for_model(&[0u8; 16], usize::MAX, 4), Err(Error::SizeMismatch));
}

#[test]
fn preprocess_always_gives_150528_values_in_range() {
    for &(w, h) in &[(1usize, 1usize), (3, 5), (224, 224), (300, 17)] {
        let data: Vec<u8> = (0..w * h * 4).map(|i| (i * 37 % 256) as u8).collect();
        let tensor = preprocess_for_model(&data, w, h).unwrap();
        assert_eq!(tensor.len(), 150528);
        assert!(tensor.iter().all(|&bits| (-1.0..=1.0).contains(&f32::from_bits(bits))));
    }
}

#[test]
fn preprocess_lays_out_plane_by_plane() {
    let mut data = Vec::new();
    for _ in 0..(4 * 4) {
        data.extend_from_slice(&[0, 128, 255, 9]);
    }
    let tensor = preprocess_for_model(&data, 4, 4).unwrap();
    let pixels = 224 * 224;
    assert!(tensor[..pixels].iter().all(|&bits| f32::from_bits(bits) == -1.0));
    assert!(tensor[pixels..2 * pixels].iter().all(|&bits| f32::from_bits(bits) == 1.0 / 255.0));
    assert!(tensor[2 * pixels..].iter().all(|&bits| f32::from_bits(bits) == 1.0));
}

#[test]
fn preprocess_is_resize_then_planes() {
    let (w, h) = (20usize, 30usize);
    let data: Vec<u8> = (0..w * h * 4).map(|i| (i * 91 % 251) as u8).collect();
    let tensor = preprocess_for_model(&data, w, h).unwrap();
    let resized = resize_bilinear_rgba(&data, w, h, 224, 224);
    assert_eq!(tensor, to_planar_normalized(&resized));
    let pixels = 224 * 224;
    for p in [0usize, 1, 223, 224, 5000, pixels - 1] {
        for c in 0..3 {
            let expected = (resized[p * 4 + c] as f32 - 127.5) / 127.5;
            assert_eq!(f32::from_bits(tensor[c * pixels + p]), expected);
        }
    }
}
