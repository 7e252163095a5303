[package]
name = "merge-lens-core"
version = "0.1.0"
edition = "2021"
publish = false

[dependencies]
serde = { version = "1", features = ["derive"] }
serde_json = "1"
indexmap = { version = "2", features = ["serde"] }
wasm-bindgen = "0.2"
js-sys = "0.3"
leptos = { version = "0.7", features = ["csr"] }
web-sys = { version = "0.3", features = ["Blob", "BlobPropertyBag", "Clipboard", "Document", "Element", "Event", "EventTarget", "File", "FileList", "FileReader", "HtmlAnchorElement", "HtmlElement", "HtmlInputElement", "Navigator", "Url", "Window"] }
