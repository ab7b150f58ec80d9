//! Turns an RGBA image into the tensor that the classifier reads.
//!
//! The image is resized to the model's resolution, alpha is dropped, and
//! the three colour planes are laid out one after the other: all red
//! values, then all green, then all blue. A byte `v` stands for the
//! number `(v - 127.5) / 127.5`, which is `(2 * v - 255) / 255`; the
//! tensor holds the binary32 number nearest to it, as a bit pattern.

use vstd::prelude::*;
use crate::binary32::{is_unit, SIGN};
use crate::division::{lemma_ratio_at_most_one, ratio, ratio_of};
use crate::error::Error;
use crate::raster::{has_rgba_len, rgba_len};
use crate::resize::{resize_bilinear_rgba, resized};

verus! {

/// Width of the model's input.
pub const MODEL_INPUT_WIDTH: usize = 224;

/// Height of the model's input.
pub const MODEL_INPUT_HEIGHT: usize = 224;

/// Number of colour planes of the model's input.
pub const MODEL_INPUT_CHANNELS: usize = 3;

/// Number of elements of the model's input.
pub const MODEL_INPUT_LEN: usize = 150528;

/// Number of pixels of the model's input.
pub open spec fn model_pixels() -> int {
    MODEL_INPUT_WIDTH as int * MODEL_INPUT_HEIGHT as int
}

/// The model's input has 50176 pixels, a third of its elements.
pub proof fn lemma_model_pixels()
    ensures
        model_pixels() == 50176,
        MODEL_INPUT_WIDTH * MODEL_INPUT_HEIGHT == 50176,
        MODEL_INPUT_LEN == MODEL_INPUT_CHANNELS * model_pixels(),
{
    assert(MODEL_INPUT_WIDTH as int * MODEL_INPUT_HEIGHT as int == 50176) by (nonlinear_arith)
        requires
            MODEL_INPUT_WIDTH == 224,
            MODEL_INPUT_HEIGHT == 224,
    ;
}

/// Pattern of the number that byte `v` stands for: the binary32 number
/// nearest to `(2 * v - 255) / 255`.
pub open spec fn normalized(v: u8) -> u32 {
    if 2 * v < 255 {
        (SIGN + ratio_of(255 - 2 * v, 255)) as u32
    } else {
        ratio_of(2 * v - 255, 255)
    }
}

/// Element `k` of the tensor made from the image `resized`, which has the
/// model's resolution: plane `k / pixels`, pixel `k % pixels`.
pub open spec fn planar_element(resized: Seq<u8>, k: int) -> u32 {
    normalized(resized[(k % model_pixels()) * 4 + k / model_pixels()])
}

/// The tensor made from an image that has the model's resolution.
pub open spec fn planar_normalized(resized: Seq<u8>) -> Seq<u32> {
    Seq::new(MODEL_INPUT_LEN as nat, |k: int| planar_element(resized, k))
}

/// The tensor made from the `width` x `height` image `data`.
pub open spec fn model_tensor(data: Seq<u8>, width: int, height: int) -> Seq<u32> {
    planar_normalized(
        resized(data, width, height, MODEL_INPUT_WIDTH as int, MODEL_INPUT_HEIGHT as int),
    )
}

/// Every element of `tensor` is a number from -1 to 1.
pub open spec fn in_unit_range(tensor: Seq<u32>) -> bool {
    forall|k: int| 0 <= k < tensor.len() ==> is_unit(#[trigger] tensor[k])
}

/// Every byte stands for a number from -1 to 1.
pub proof fn lemma_normalized_is_unit(v: u8)
    ensures
        is_unit(normalized(v)),
{
    if 2 * v < 255 {
        lemma_ratio_at_most_one(255 - 2 * v, 255);
    } else {
        lemma_ratio_at_most_one(2 * v - 255, 255);
    }
}

/// A tensor made from an image has the model's length, and its elements
/// are numbers from -1 to 1.
pub proof fn lemma_model_tensor_shape(data: Seq<u8>, width: int, height: int)
    ensures
        model_tensor(data, width, height).len() == MODEL_INPUT_LEN,
        MODEL_INPUT_LEN == MODEL_INPUT_CHANNELS * MODEL_INPUT_HEIGHT * MODEL_INPUT_WIDTH,
        in_unit_range(model_tensor(data, width, height)),
{
    lemma_model_pixels();
    let tensor = model_tensor(data, width, height);
    let resized = resized(
        data,
        width,
        height,
        MODEL_INPUT_WIDTH as int,
        MODEL_INPUT_HEIGHT as int,
    );
    assert forall|k: int| 0 <= k < tensor.len() implies is_unit(#[trigger] tensor[k]) by {
        lemma_normalized_is_unit(resized[(k % model_pixels()) * 4 + k / model_pixels()]);
    }
}

/// Normalizes one byte: the binary32 number nearest to
/// `(v - 127.5) / 127.5`.
pub fn normalize(v: u8) -> (bits: u32)
    ensures
        bits == normalized(v),
        is_unit(bits),
{
    proof {
        lemma_normalized_is_unit(v);
    }
    if v < 128 {
        proof {
            lemma_ratio_at_most_one(255 - 2 * v, 255);
        }
        SIGN + ratio(255 - 2 * v as u16, 255)
    } else {
        ratio(2 * v as u16 - 255, 255)
    }
}

/// Drops alpha from an image of the model's resolution, normalizes the
/// colour channels and lays them out plane by plane, in one pass.
pub fn to_planar_normalized(resized: &[u8]) -> (tensor: Vec<u32>)
    requires
        resized@.len() == rgba_len(MODEL_INPUT_WIDTH as int, MODEL_INPUT_HEIGHT as int),
    ensures
        tensor@ == planar_normalized(resized@),
{
    proof {
        lemma_model_pixels();
    }
    let pixel_count: usize = MODEL_INPUT_WIDTH * MODEL_INPUT_HEIGHT;
    let mut tensor: Vec<u32> = vec![0u32; MODEL_INPUT_LEN];
    let mut i: usize = 0;
    while i < pixel_count
        invariant
            pixel_count == model_pixels(),
            resized@.len() == 4 * pixel_count,
            tensor@.len() == 3 * pixel_count,
            i <= pixel_count,
            forall|p: int|
                0 <= p < i ==> {
                    &&& #[trigger] tensor@[p] == normalized(resized@[p * 4])
                    &&& tensor@[pixel_count + p] == normalized(resized@[p * 4 + 1])
                    &&& tensor@[2 * pixel_count + p] == normalized(resized@[p * 4 + 2])
                },
        decreases pixel_count - i,
    {
        let at: usize = i * 4;
        tensor.set(i, normalize(resized[at]));
        tensor.set(pixel_count + i, normalize(resized[at + 1]));
        tensor.set(2 * pixel_count + i, normalize(resized[at + 2]));
        i = i + 1;
    }
    proof {
        let expected = planar_normalized(resized@);
        assert forall|k: int| 0 <= k < expected.len() implies tensor@[k] == expected[k] by {
            lemma_model_pixels();
            let p = k % 50176;
            let c = k / 50176;
            assert(k == c * 50176 + p && 0 <= c < 3);
            assert(tensor@[p] == normalized(resized@[p * 4]));
        }
        assert(tensor@ =~= expected);
    }
    tensor
}

/// Prepares a `width` x `height` RGBA image for the classifier.
///
/// The image is resized to 224 x 224 by bilinear interpolation; alpha is
/// dropped; each colour value `v` becomes the binary32 number nearest to
/// `(v - 127.5) / 127.5`; and the values are laid out plane by plane:
/// red, green, blue.
///
/// A buffer whose length is not `width * height * 4` is refused.
pub fn preprocess_for_model(rgba_data: &[u8], width: usize, height: usize) -> (result: Result<
    Vec<u32>,
    Error,
>)
    requires
        0 < width,
        0 < height,
    ensures
        match result {
            Ok(tensor) => {
                &&& rgba_data@.len() == rgba_len(width as int, height as int)
                &&& tensor@ == model_tensor(rgba_data@, width as int, height as int)
                &&& tensor@.len() == MODEL_INPUT_LEN
                &&& in_unit_range(tensor@)
            },
            Err(e) => {
                &&& e == Error::SizeMismatch
                &&& rgba_data@.len() != rgba_len(width as int, height as int)
            },
        },
{
    if !has_rgba_len(rgba_data.len(), width, height) {
        return Err(Error::SizeMismatch);
    }
    let resized = resize_bilinear_rgba(
        rgba_data,
        width,
        height,
        MODEL_INPUT_WIDTH,
        MODEL_INPUT_HEIGHT,
    );
    let tensor = to_planar_normalized(resized.as_slice());
    proof {
        lemma_model_tensor_shape(rgba_data@, width as int, height as int);
    }
    Ok(tensor)
}

} // verus!
