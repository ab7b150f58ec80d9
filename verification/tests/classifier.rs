use pavlova_ml::addition::sum;
use pavlova_ml::binary32::{INFINITY, QUIET_NAN, SIGN};
use pavlova_ml::rounding::{decode, round_scaled};
use pavlova_ml::binary32::{greater, nan};
use pavlova_ml::kernel::{checked_kernel_size, kernel_size};
use pavlova_ml::classify::{
    all_numbers, check_tensor_len, class_name, classify_scores, conclude, scores_from_output,
    top_class_index, verdict, ClassificationResult, CLASSES, CLASS_COUNT,
};
use pavlova_ml::error::Error;

fn bits(values: [f32; 5]) -> [u32; 5] {
    [
        values[0].to_bits(),
        values[1].to_bits(),
        values[2].to_bits(),
        values[3].to_bits(),
        values[4].to_bits(),
    ]
}

/// Patterns that sit at the corners of the format.
fn corners() -> Vec<u32> {
    let mut out = vec![
        0x0000_0000,
        0x0000_0001,
        0x0000_0002,
        0x0040_0000,
        0x007f_ffff,
        0x0080_0000,
        0x0080_0001,
        0x00ff_ffff,
        0x0100_0000,
        0x3f7f_ffff,
        0x3f80_0000,
        0x3f80_0001,
        0x3fc0_0000,
        0x4000_0000,
        0x4b00_0000,
        0x4b7f_ffff,
        0x4b80_0000,
        0x7f00_0000,
        0x7f7f_fffe,
        0x7f7f_ffff,
        0x7f80_0000,
        0x7f80_0001,
        0x7fc0_0000,
        0x7fff_ffff,
        0.1f32.to_bits(),
        0.8f32.to_bits(),
        0.05f32.to_bits(),
        0.85f32.to_bits(),
        16777216.0f32.to_bits(),
        16777215.0f32.to_bits(),
        0.5f32.to_bits(),
        1.5f32.to_bits(),
        3.0e38f32.to_bits(),
    ];
    let positive = out.clone();
    out.extend(positive.iter().map(|b| b | 0x8000_0000));
    out
}

fn next(state: &mut u64) -> u32 {
    *state = state.wrapping_mul(6364136223846793005).wrapping_add(1442695040888963407);
    (*state >> 32) as u32
}

fn check_sum(a: u32, b: u32) {
    let expected = f32::from_bits(a) + f32::from_bits(b);
    let got = sum(a, b);
    if expected.is_nan() {
        assert_eq!(got, QUIET_NAN, "{:#x} + {:#x}", a, b);
    } else {
        assert_eq!(got, expected.to_bits(), "{:#x} + {:#x}", a, b);
    }
}

#[test]
fn test_class_names() {
    assert_eq!(CLASSES[0], "drawing");
    assert_eq!(CLASSES[1], "hentai");
    assert_eq!(CLASSES[2], "neutral");
    assert_eq!(CLASSES[3], "porn");
    assert_eq!(CLASSES[4], "sexy");
}

#[test]
fn class_name_reads_the_table() {
    for i in 0..CLASS_COUNT {
        assert_eq!(class_name(i), CLASSES[i]);
    }
    assert_eq!(class_name(2), "neutral");
}

#[test]
fn test_classification_result_safe() {
    let result = ClassificationResult {
        scores: bits([0.1, 0.05, 0.8, 0.03, 0.02]),
        top_class_index: 2,
        top_class: "neutral".to_string(),
        is_safe: true,
        confidence: 0.9f32.to_bits(),
    };
    assert!(result.is_safe);
    assert_eq!(result.top_class, "neutral");
}

#[test]
fn test_classification_result_unsafe() {
    let result = ClassificationResult {
        scores: bits([0.01, 0.05, 0.04, 0.85, 0.05]),
        top_class_index: 3,
        top_class: "porn".to_string(),
        is_safe: false,
        confidence: 0.95f32.to_bits(),
    };
    assert!(!result.is_safe);
    assert_eq!(result.top_class, "porn");
}

#[test]
fn mostly_neutral_scores_are_safe() {
    let scores = bits([0.1, 0.05, 0.8, 0.03, 0.02]);
    let result = classify_scores(scores);
    assert_eq!(result.scores, scores);
    assert_eq!(result.top_class_index, 2);
    assert_eq!(result.top_class, "neutral");
    assert!(result.is_safe);
    assert_eq!(f32::from_bits(result.confidence), 0.1f32 + 0.8f32);
    assert!((f32::from_bits(result.confidence) - 0.9).abs() < 1e-6);
}

#[test]
fn mostly_porn_scores_are_unsafe() {
    let scores = bits([0.01, 0.05, 0.04, 0.85, 0.05]);
    let result = classify_scores(scores);
    assert_eq!(result.top_class_index, 3);
    assert_eq!(result.top_class, "porn");
    assert!(!result.is_safe);
    assert_eq!(f32::from_bits(result.confidence), 0.05f32 + 0.85f32 + 0.05f32);
    assert!((f32::from_bits(result.confidence) - 0.95).abs() < 1e-6);
}

#[test]
fn a_tie_of_the_totals_is_unsafe() {
    let result = classify_scores(bits([0.25, 0.25, 0.25, 0.25, 0.0]));
    assert!(!result.is_safe);
    assert_eq!(f32::from_bits(result.confidence), 0.5);
    let result = classify_scores(bits([0.0, 0.0, 0.0, 0.0, 0.0]));
    assert!(!result.is_safe);
    assert_eq!(result.confidence, 0);
}

#[test]
fn confidence_is_not_renormalized() {
    let result = classify_scores(bits([3.0, 1.0, 4.0, 1.0, 0.5]));
    assert!(result.is_safe);
    assert_eq!(f32::from_bits(result.confidence), 7.0);
    let result = classify_scores(bits([-3.0, -1.0, -4.0, -1.0, -0.5]));
    assert!(!result.is_safe);
    assert_eq!(f32::from_bits(result.confidence), -2.5);
}

#[test]
fn the_later_of_equal_scores_is_the_top_class() {
    assert_eq!(top_class_index(&bits([0.5, 0.5, 0.1, 0.5, 0.2])), 3);
    assert_eq!(top_class_index(&bits([0.2, 0.2, 0.2, 0.2, 0.2])), 4);
    assert_eq!(top_class_index(&bits([0.9, 0.2, 0.2, 0.2, 0.2])), 0);
    assert_eq!(top_class_index(&bits([0.0, -0.0, -1.0, -2.0, -3.0])), 1);
    assert_eq!(top_class_index(&bits([-0.0, 0.0, -1.0, -2.0, -3.0])), 1);
    assert_eq!(top_class_index(&bits([-5.0, -4.0, -1.0, -2.0, -3.0])), 2);
    assert_eq!(
        top_class_index(&bits([1.0, f32::INFINITY, 2.0, f32::NEG_INFINITY, f32::MAX])),
        1
    );
}

#[test]
fn top_class_agrees_with_max_by() {
    let mut state = 11u64;
    for _ in 0..20000 {
        let mut scores = [0u32; 5];
        for s in scores.iter_mut() {
            let mut b = next(&mut state);
            if next(&mut state) % 4 == 0 {
                b = corners()[(next(&mut state) % 66) as usize];
            }
            if f32::from_bits(b).is_nan() {
                b = 0;
            }
            *s = b;
        }
        let floats: Vec<f32> = scores.iter().map(|&b| f32::from_bits(b)).collect();
        let expected = floats
            .iter()
            .enumerate()
            .max_by(|(_, a), (_, b)| a.partial_cmp(b).unwrap())
            .map(|(i, _)| i)
            .unwrap();
        assert!(all_numbers(&scores));
        assert_eq!(top_class_index(&scores), expected);
    }
}

#[test]
fn verdict_takes_the_totals_as_given() {
    let scores = bits([0.1, 0.2, 0.3, 0.4, 0.5]);
    let result = verdict(scores, 2.0f32.to_bits(), 1.0f32.to_bits());
    assert!(result.is_safe);
    assert_eq!(result.confidence, 2.0f32.to_bits());
    assert_eq!(result.top_class_index, 4);
    assert_eq!(result.top_class, "sexy");
    let result = verdict(scores, 1.0f32.to_bits(), 1.0f32.to_bits());
    assert!(!result.is_safe);
    assert_eq!(result.confidence, 1.0f32.to_bits());
    let result = verdict(scores, f32::NAN.to_bits(), 1.0f32.to_bits());
    assert!(!result.is_safe);
    assert_eq!(result.confidence, 1.0f32.to_bits());
    let result = verdict(scores, 5.0f32.to_bits(), f32::NAN.to_bits());
    assert!(!result.is_safe);
    assert!(f32::from_bits(result.confidence).is_nan());
}

#[test]
fn scores_are_the_first_five_outputs() {
    let output: Vec<u32> = (10..20).collect();
    assert_eq!(scores_from_output(&output), [10, 11, 12, 13, 14]);
    assert_eq!(scores_from_output(&output[..5]), [10, 11, 12, 13, 14]);
    assert_eq!(CLASS_COUNT, 5);
}

#[test]
fn nan_scores_are_found() {
    assert!(all_numbers(&bits([0.1, 0.2, 0.3, 0.4, 0.5])));
    assert!(all_numbers(&bits([f32::INFINITY, 0.2, f32::NEG_INFINITY, 0.4, 0.5])));
    assert!(!all_numbers(&bits([0.1, 0.2, f32::NAN, 0.4, 0.5])));
    assert!(!all_numbers(&[0, 0, 0, 0, 0xffc0_0001]));
}

#[test]
fn tensor_length_is_checked() {
    assert_eq!(check_tensor_len(150528), Ok(()));
    assert_eq!(check_tensor_len(150527), Err(Error::SizeMismatch));
    assert_eq!(check_tensor_len(150529), Err(Error::SizeMismatch));
    assert_eq!(check_tensor_len(0), Err(Error::SizeMismatch));
}

#[test]
fn a_failed_inference_is_reported() {
    let result = conclude(None);
    assert_eq!(result.err(), Some(Error::InferenceFailure));
}

#[test]
fn a_finished_inference_gives_the_verdict() {
    let output = bits([0.1, 0.05, 0.8, 0.03, 0.02]);
    let mut longer = output.to_vec();
    longer.push(7);
    let result = conclude(Some(&longer)).unwrap();
    assert_eq!(result.scores, output);
    assert_eq!(result.top_class, "neutral");
    assert!(result.is_safe);
    assert_eq!(f32::from_bits(result.confidence), 0.1f32 + 0.8f32);
}

#[test]
fn greater_agrees_with_the_hardware() {
    let patterns = corners();
    for &a in &patterns {
        for &b in &patterns {
            assert_eq!(greater(a, b), f32::from_bits(a) > f32::from_bits(b), "{:#x} > {:#x}", a, b);
        }
    }
    let mut state = 5u64;
    for _ in 0..100000 {
        let a = next(&mut state);
        let b = next(&mut state);
        assert_eq!(greater(a, b), f32::from_bits(a) > f32::from_bits(b));
        assert_eq!(nan(a), f32::from_bits(a).is_nan());
    }
}

#[test]
fn sum_of_simple_numbers() {
    assert_eq!(sum(1.0f32.to_bits(), 1.0f32.to_bits()), 2.0f32.to_bits());
    assert_eq!(sum(1.5f32.to_bits(), (-0.25f32).to_bits()), 1.25f32.to_bits());
    assert_eq!(sum(0.1f32.to_bits(), 0.8f32.to_bits()), 0x3f66_6667);
    assert_eq!(sum(0, SIGN), 0);
    assert_eq!(sum(SIGN, SIGN), SIGN);
    assert_eq!(sum(1.0f32.to_bits(), (-1.0f32).to_bits()), 0);
    assert_eq!(sum(f32::MAX.to_bits(), f32::MAX.to_bits()), INFINITY);
    assert_eq!(sum(INFINITY, INFINITY | SIGN), QUIET_NAN);
    assert_eq!(sum(INFINITY, 5.0f32.to_bits()), INFINITY);
    assert_eq!(sum(5.0f32.to_bits(), INFINITY | SIGN), INFINITY | SIGN);
    assert_eq!(sum(f32::NAN.to_bits(), 1.0f32.to_bits()), QUIET_NAN);
    // a tie goes to the even significand
    assert_eq!(sum(16777216.0f32.to_bits(), 1.0f32.to_bits()), 16777216.0f32.to_bits());
    assert_eq!(sum(16777218.0f32.to_bits(), 1.0f32.to_bits()), 16777220.0f32.to_bits());
    // the smallest numbers add exactly
    assert_eq!(sum(1, 1), 2);
    assert_eq!(sum(0x007f_ffff, 1), 0x0080_0000);
}

#[test]
fn sum_agrees_with_the_hardware_at_the_corners() {
    let patterns = corners();
    for &a in &patterns {
        for &b in &patterns {
            check_sum(a, b);
        }
    }
}

#[test]
fn sum_agrees_with_the_hardware_on_any_patterns() {
    let mut state = 1u64;
    for _ in 0..200000 {
        let a = next(&mut state);
        let b = next(&mut state);
        check_sum(a, b);
    }
}

#[test]
fn sum_agrees_with_the_hardware_on_near_numbers() {
    let mut state = 2u64;
    for _ in 0..200000 {
        let a = next(&mut state);
        let shift = (next(&mut state) % 61) as i32 - 30;
        let field = (((a >> 23) & 0xff) as i32 + shift).clamp(0, 254) as u32;
        let b = (next(&mut state) & 0x807f_ffff) | (field << 23);
        check_sum(a, b);
        check_sum(b, a);
    }
}

#[test]
fn sum_agrees_with_the_hardware_on_scores() {
    let mut state = 3u64;
    for _ in 0..100000 {
        let a = (next(&mut state) % 1_000_001) as f32 / 1_000_000.0;
        let b = (next(&mut state) % 1_000_001) as f32 / 1_000_000.0;
        let c = (next(&mut state) % 1_000_001) as f32 / 1_000_000.0;
        check_sum(a.to_bits(), b.to_bits());
        let total = sum(sum(a.to_bits(), b.to_bits()), c.to_bits());
        assert_eq!(total, (a + b + c).to_bits());
    }
}

#[test]
fn round_scaled_packs_and_rounds() {
    // 1 * 2^0 units: the smallest subnormal
    assert_eq!(round_scaled(1, 0), 1);
    // 2^23 units: the smallest normal
    assert_eq!(round_scaled(0x80_0000, 0), 0x0080_0000);
    assert_eq!(round_scaled(1, 23), 0x0080_0000);
    // 1.0 is 2^149 units
    assert_eq!(round_scaled(1 << 40, 109), 1.0f32.to_bits());
    // 2^24 + 1 rounds down to even, 2^24 + 3 rounds up to even
    assert_eq!(round_scaled((1 << 24) + 1, 0), 0x0100_0000);
    assert_eq!(round_scaled((1 << 24) + 3, 0), 0x0100_0002);
    assert_eq!(f32::from_bits(round_scaled((1 << 24) + 1, 149)), 16777216.0);
    assert_eq!(f32::from_bits(round_scaled((1 << 24) + 3, 149)), 16777220.0);
    assert_eq!(round_scaled(u64::MAX, 253), INFINITY);
    assert_eq!(round_scaled(0xff_ffff, 253), f32::MAX.to_bits());
    assert_eq!(round_scaled(0x1ff_ffff, 252), INFINITY);
}

#[test]
fn decode_splits_a_pattern() {
    assert_eq!(decode(1.0f32.to_bits()), (false, 0x80_0000, 127));
    assert_eq!(decode((-1.5f32).to_bits()), (true, 0xc0_0000, 127));
    assert_eq!(decode(1), (false, 1, 1));
    assert_eq!(decode(0), (false, 0, 1));
    assert_eq!(decode(INFINITY), (false, 0x80_0000, 255));
}

#[test]
fn kernel_size_is_twice_the_radius_plus_one() {
    assert_eq!(kernel_size(5.0f32.to_bits()), 11);
    assert_eq!(kernel_size(0.0f32.to_bits()), 1);
    assert_eq!(kernel_size(0.49f32.to_bits()), 1);
    assert_eq!(kernel_size(0.5f32.to_bits()), 2);
    assert_eq!(kernel_size(2.75f32.to_bits()), 6);
    assert_eq!(kernel_size((-4.0f32).to_bits()), 1);
    assert_eq!(kernel_size(f32::NAN.to_bits()), 1);
    assert_eq!(kernel_size(1.0e-40f32.to_bits()), 1);
    assert_eq!(kernel_size(8388608.0f32.to_bits()), 16777217);
}

#[test]
fn kernel_size_that_cannot_be_counted() {
    assert_eq!(checked_kernel_size(f32::INFINITY.to_bits()), None);
    assert_eq!(checked_kernel_size(f32::MAX.to_bits()), None);
    assert_eq!(checked_kernel_size(1.0e20f32.to_bits()), None);
    assert_eq!(checked_kernel_size(((usize::MAX / 2) as f32 * 1.5).to_bits()), None);
    assert_eq!(checked_kernel_size(f32::NEG_INFINITY.to_bits()), Some(1));
    assert_eq!(checked_kernel_size(3.0f32.to_bits()), Some(7));
}

#[test]
fn kernel_size_agrees_with_the_hardware() {
    let mut state = 8u64;
    for i in 0..200000 {
        let bits = if i % 2 == 0 {
            next(&mut state)
        } else {
            ((next(&mut state) % 4_000_000) as f32 / 1000.0).to_bits()
        };
        let reach = (f32::from_bits(bits) * 2.0) as usize;
        assert_eq!(checked_kernel_size(bits), reach.checked_add(1), "{:#x}", bits);
    }
}
