//! Which model files the inference engine admits.
//!
//! The engine loads models in the ONNX format. A TensorFlow Lite model is
//! refused with the advice to convert it first; so is every other file,
//! without advice.

use vstd::prelude::*;
use vstd::string::StringSliceAdditionalSpecFns;
use crate::error::Error;

verus! {

/// Format of a model file, as its name tells it.
#[derive(Debug, Clone, Copy, PartialEq, Eq, Structural)]
pub enum ModelFormat {
    /// The name ends in `.onnx`.
    Onnx,
    /// The name ends in `.tflite`.
    Tflite,
    /// The name ends in neither.
    Other,
}

/// `text` ends with `suffix`.
pub open spec fn ends_with(text: Seq<u8>, suffix: Seq<u8>) -> bool {
    &&& suffix.len() <= text.len()
    &&& text.subrange(text.len() - suffix.len(), text.len() as int) == suffix
}

/// Format of the model file with the given path.
pub open spec fn format_of(path: Seq<u8>) -> ModelFormat {
    if ends_with(path, ".tflite".spec_bytes()) {
        ModelFormat::Tflite
    } else if ends_with(path, ".onnx".spec_bytes()) {
        ModelFormat::Onnx
    } else {
        ModelFormat::Other
    }
}

/// Whether a model file is admitted: it must exist, and be in the ONNX
/// format.
pub open spec fn admission(path: Seq<u8>, exists: bool) -> Result<(), Error> {
    if !exists {
        Err(Error::ModelNotFound)
    } else if format_of(path) == ModelFormat::Onnx {
        Ok(())
    } else {
        Err(Error::UnsupportedModelFormat)
    }
}

/// Whether `text` ends with `suffix`.
pub fn has_suffix(text: &[u8], suffix: &[u8]) -> (found: bool)
    ensures
        found == ends_with(text@, suffix@),
{
    if suffix.len() > text.len() {
        return false;
    }
    let offset: usize = text.len() - suffix.len();
    let ghost tail = text@.subrange(offset as int, text@.len() as int);
    let mut i: usize = 0;
    while i < suffix.len()
        invariant
            offset + suffix@.len() == text@.len(),
            text@.len() <= usize::MAX,
            tail == text@.subrange(offset as int, text@.len() as int),
            i <= suffix@.len(),
            forall|j: int| 0 <= j < i ==> text@[offset + j] == suffix@[j],
        decreases suffix@.len() - i,
    {
        if text[offset + i] != suffix[i] {
            assert(tail[i as int] != suffix@[i as int]);
            return false;
        }
        i = i + 1;
    }
    assert(tail =~= suffix@);
    true
}

/// Format of the model file with the given path.
pub fn model_format(model_path: &str) -> (format: ModelFormat)
    ensures
        format == format_of(model_path.spec_bytes()),
{
    let path = model_path.as_bytes();
    if has_suffix(path, ".tflite".as_bytes()) {
        ModelFormat::Tflite
    } else if has_suffix(path, ".onnx".as_bytes()) {
        ModelFormat::Onnx
    } else {
        ModelFormat::Other
    }
}

/// Decides whether the engine may load the model at `model_path`, given
/// whether a file exists there.
pub fn admit_model(model_path: &str, exists: bool) -> (result: Result<(), Error>)
    ensures
        result == admission(model_path.spec_bytes(), exists),
{
    if !exists {
        return Err(Error::ModelNotFound);
    }
    match model_format(model_path) {
        ModelFormat::Onnx => Ok(()),
        _ => Err(Error::UnsupportedModelFormat),
    }
}

/// What to tell the owner of a TensorFlow Lite model.
pub fn conversion_advice() -> (advice: &'static str)
    ensures
        advice@
            == "TFLite models must first be converted to ONNX format. Use: python -m tf2onnx.convert --tflite model.tflite --output model.onnx"@,
{
    "TFLite models must first be converted to ONNX format. Use: python -m tf2onnx.convert --tflite model.tflite --output model.onnx"
}

} // verus!
