use pavlova_ml::engine::{admit_model, conversion_advice, has_suffix, model_format, ModelFormat};
use pavlova_ml::error::Error;
use pavlova_ml::timer::Timer;

#[test]
fn format_follows_the_end_of_the_name() {
    assert_eq!(model_format("model.onnx"), ModelFormat::Onnx);
    assert_eq!(model_format("/data/nsfw.tflite"), ModelFormat::Tflite);
    assert_eq!(model_format("model.onnx.bak"), ModelFormat::Other);
    assert_eq!(model_format("model.ONNX"), ModelFormat::Other);
    assert_eq!(model_format(".onnx"), ModelFormat::Onnx);
    assert_eq!(model_format("onnx"), ModelFormat::Other);
    assert_eq!(model_format(""), ModelFormat::Other);
    assert_eq!(model_format("\u{e9}t\u{e9}.onnx"), ModelFormat::Onnx);
    for path in ["a.onnx", "b.tflite", "c.pb", "", "x"] {
        assert_eq!(model_format(path) == ModelFormat::Onnx, path.ends_with(".onnx"));
        assert_eq!(model_format(path) == ModelFormat::Tflite, path.ends_with(".tflite"));
    }
}

#[test]
fn suffix_is_found_at_the_end_only() {
    assert!(has_suffix(b"abc", b"bc"));
    assert!(has_suffix(b"abc", b"abc"));
    assert!(has_suffix(b"abc", b""));
    assert!(!has_suffix(b"abc", b"ab"));
    assert!(!has_suffix(b"bc", b"abc"));
    assert!(!has_suffix(b"abd", b"bc"));
}

#[test]
fn a_missing_file_is_not_found() {
    assert_eq!(admit_model("model.onnx", false), Err(Error::ModelNotFound));
    assert_eq!(admit_model("model.tflite", false), Err(Error::ModelNotFound));
    assert_eq!(admit_model("model.bin", false), Err(Error::ModelNotFound));
}

#[test]
fn only_onnx_is_admitted() {
    assert_eq!(admit_model("model.onnx", true), Ok(()));
    assert_eq!(admit_model("model.tflite", true), Err(Error::UnsupportedModelFormat));
    assert_eq!(admit_model("model.bin", true), Err(Error::UnsupportedModelFormat));
}

#[test]
fn advice_names_the_conversion() {
    assert!(conversion_advice().contains("converted to ONNX"));
    assert!(conversion_advice().contains("tf2onnx"));
}

#[test]
fn errors_are_told_apart() {
    assert_ne!(Error::SizeMismatch, Error::InferenceFailure);
    assert_ne!(Error::ModelNotFound, Error::UnsupportedModelFormat);
    assert_eq!(format!("{:?}", Error::SizeMismatch), "SizeMismatch");
}

#[test]
fn timer_keeps_its_name() {
    let timer = Timer::new("blur");
    assert_eq!(timer.name(), "blur");
    let line = timer.report();
    assert!(line.starts_with("blur took "));
    assert!(line.len() > "blur took ".len());
    let unnamed = Timer::new("");
    assert!(unnamed.report().starts_with(" took "));
}
