[package]
name = "canvas_ui"
version = "0.1.0"
edition = "2021"
publish = false

[dependencies]
serde = "1"
wasm-bindgen = { version = "0.2", features = ["serde-serialize"] }
web-sys = { version = "0.3", features = ["console", "HtmlCanvasElement", "WebGlRenderingContext"] }
