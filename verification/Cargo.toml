[package]
name = "board_game_engine"
version = "0.1.0"
edition = "2021"
publish = false

[dependencies]
wasm-bindgen = "*"
js-sys = "*"
web-sys = { version = "*", features = ["console", "Window", "Document", "Element", "HtmlElement", "HtmlCanvasElement", "CanvasRenderingContext2d", "MouseEvent", "MessageEvent", "Worker", "DedicatedWorkerGlobalScope"] }
serde = { version = "*", features = ["derive"] }
serde-wasm-bindgen = "*"
