[package]
name = "rust_video_editor"
version = "0.1.0"
edition = "2021"
publish = false

[dependencies]
egui = "=0.27.2"
ffmpeg-next = "=7.1.0"
