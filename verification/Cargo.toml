[package]
name = "flappy"
version = "0.1.0"
edition = "2021"
publish = false

[dependencies]
wasm-bindgen = "0.2"
web-sys = { version = "0.3", features = ["CanvasRenderingContext2d", "Document", "Element", "Event", "EventTarget", "HtmlCanvasElement", "HtmlElement", "HtmlImageElement", "KeyboardEvent", "MouseEvent", "Node", "Storage", "TouchEvent", "Window"] }
