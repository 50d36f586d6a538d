[package]
name = "natrix"
version = "0.1.0"
edition = "2021"
publish = false

[dependencies]
itoa = "*"
wasm-bindgen = "*"
wasm-bindgen-futures = "*"
futures-channel = "*"

[dependencies.web-sys]
version = "*"
features = ["Window", "Document", "Element", "Node", "Text", "Comment", "console", "EventTarget"]
