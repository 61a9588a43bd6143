[package]
name = "barclean"
version = "0.0.0"
edition = "2021"
publish = false

[dependencies]
android_logger = "*"
fluor = { version = "=0.0.7", default-features = false, features = ["host-winit"] }
image = { version = "=0.25.8", default-features = false, features = ["jpeg", "png"] }
jni = "0.21"
log = "0.4"
ndk = "0.9"
rxing = { version = "=0.9.3", default-features = false, features = ["decoders", "encoders", "encoding_rs", "full_barcode_format_support"] }
