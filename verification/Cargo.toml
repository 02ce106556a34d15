[package]
name = "nobg"
version = "0.1.0"
edition = "2021"
publish = false

[dependencies]
anyhow = "=1.0.104"
clap = { version = "=4.6.7", features = ["derive"] }
image = { version = "=0.25.10", default-features = false, features = ["bmp", "dds", "exr", "ff", "gif", "hdr", "ico", "jpeg", "png", "pnm", "qoi", "tga", "tiff", "webp"] }
infer = "=0.22.0"
ndarray = "=0.17.2"
once_cell = "=1.21.4"
ort = { version = "=2.0.0-rc.11", default-features = false, features = ["load-dynamic", "ndarray"] }
tokio = { version = "=1.54.1", features = ["macros", "rt-multi-thread", "sync"] }
tracing-subscriber = "=0.3.23"
