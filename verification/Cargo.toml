[package]
name = "pathlab"
version = "0.1.0"
edition = "2021"
publish = false

[dependencies]
eframe = { version = "0.32", default-features = false, features = ["default_fonts", "glow", "x11", "wayland"] }
egui_extras = { version = "0.32", default-features = false }
rfd = { version = "0.15", default-features = false, features = ["xdg-portal", "tokio"] }
web-time = "1"
wasm-bindgen = "0.2"
wasm-bindgen-futures = "0.4"
web-sys = { version = "0.3", features = ["Window", "Document", "Element", "Event", "EventTarget", "HtmlCanvasElement", "HtmlInputElement", "HtmlAnchorElement", "FileReader", "FileList", "File", "Blob", "Url"] }
js-sys = "0.3"
console_error_panic_hook = "0.1"
