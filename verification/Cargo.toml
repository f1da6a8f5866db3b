[package]
name = "rgit"
version = "0.1.0"
edition = "2021"
publish = false

[dependencies]
fs2 = "=0.4.3"
serde = { version = "=1.0.229", features = ["derive"] }
wasm-bindgen = "=0.2.130"
wasm-bindgen-futures = "=0.4.80"
web-sys = { version = "=0.3.107", features = ["Window", "Document", "Element", "HtmlInputElement", "HtmlSelectElement", "DomTokenList", "Event", "EventTarget", "HtmlCollection", "Node"] }
