//! What holds of the image effects together.

use vstd::prelude::*;
use crate::blur::blurred;
use crate::pixelate::pixelated;
use crate::raster::is_rgba;
use crate::resize::resized;

verus! {

/// Blurring, pixelating and resizing to the same resolution keep the
/// length of the image, whatever the kernel and the block size.
pub proof fn lemma_effects_keep_length(
    data: Seq<u8>,
    width: int,
    height: int,
    kernel: int,
    block: int,
)
    requires
        is_rgba(data, width, height),
    ensures
        blurred(data, width, height, kernel).len() == data.len(),
        pixelated(data, width, height, block).len() == data.len(),
        resized(data, width, height, width, height).len() == data.len(),
{
}

} // verus!
