[package]
name = "mandelbrot"
version = "0.1.0"
edition = "2021"
publish = false

[dependencies]
wasm-bindgen = "=0.2.129"
wasm-timer = "=0.2.5"
web-sys = { version = "=0.3.106", features = ["CanvasRenderingContext2d", "ImageData", "console"] }
wee_alloc = "=0.4.5"
