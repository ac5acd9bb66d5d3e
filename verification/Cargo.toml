[package]
name = "bunf"
version = "0.1.0"
edition = "2021"
publish = false

[dependencies]
htmlescape = "0.3"
crossterm = "0.27"
yew = { version = "0.21", features = ["csr"] }
wasm-bindgen = "0.2"
web-sys = { version = "0.3", features = ["HtmlDivElement", "HtmlInputElement"] }
