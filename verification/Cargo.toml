[package]
name = "pavlova_ml"
version = "0.1.0"
edition = "2021"
publish = false

[dependencies]
android_logger = "=0.13.3"
jni = "=0.21.1"
kstring = "=2.0.2"
lazy_static = "=1.5.1"
log = "=0.4.34"
tract-onnx = "=0.21.19"
