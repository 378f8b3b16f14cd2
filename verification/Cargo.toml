[package]
name = "lib_minesweeper"
version = "0.1.0"
edition = "2021"
publish = false

[dependencies]
rand = "0.7"
serde = { version = "1", features = ["derive"] }
serde_derive = "1"
wasm-bindgen = "0.2"
yew = "0.17"
