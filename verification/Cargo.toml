[package]
name = "wasm_types"
version = "0.1.0"
edition = "2021"
publish = false

[dependencies]
const-hex = "*"
parity-scale-codec = { version = "*", features = ["derive"] }

[dev-dependencies]
unicode-segmentation = "*"
