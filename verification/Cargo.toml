[package]
name = "dompeg"
version = "0.1.0"
edition = "2021"
publish = false

[dependencies]
anyhow = "1"
image = "0.24"
imageproc = "0.23"
rusttype = "0.9"
rust-embed = "8"
tokio = { version = "1", features = ["rt", "rt-multi-thread", "macros"] }
ffmpeg-next = "6"
relm4 = { version = "0.6", features = ["libadwaita"] }
relm4-icons = "0.6"
tracing = "0.1"
tracing-subscriber = "0.3"
