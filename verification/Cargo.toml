[package]
name = "epic_drawing_backend"
version = "0.1.0"
edition = "2021"
publish = false

[dependencies]
image = { version = "0.25", default-features = false, features = ["jpeg", "png"] }
imageproc = { version = "0.25", default-features = false }
rustfft = "6"
serde = { version = "1", features = ["derive"] }
toml = "0.8"
anyhow = "1"
clap = { version = "4", features = ["derive"] }
wasm-bindgen = "0.2"
serde-wasm-bindgen = "0.6"
