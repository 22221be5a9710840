[package]
name = "jellyscope"
version = "0.1.0"
edition = "2021"
publish = false

[dependencies]
fitrs = "*"
serde = { version = "1", features = ["derive"] }
serde_json = "1"
thiserror = "*"
wasm-bindgen = "=0.2.100"
js-sys = "*"
web-sys = { version = "*", features = ["Window", "Document", "Element", "HtmlCanvasElement", "WebGl2RenderingContext", "WebGlProgram", "WebGlShader", "WebGlTexture", "WebGlUniformLocation", "WebGlBuffer", "WebGlVertexArrayObject"] }
