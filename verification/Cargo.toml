[package]
name = "wordle_solver"
version = "0.1.0"
edition = "2021"
publish = false

[dependencies]
js-sys = "*"
segment-tree = "*"
wasm-bindgen = { version = "*", features = ["serde-serialize"] }
web-sys = { version = "*", features = ["CanvasRenderingContext2d", "Element", "HtmlCanvasElement", "Window"] }
