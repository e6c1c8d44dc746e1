[package]
name = "umber"
version = "0.1.0"
edition = "2021"
publish = false

[dependencies]
alacritty_terminal = "=0.26.0"
arboard = { version = "=3.7.0", default-features = false }
cosmic-text = "=0.19.0"
ed25519-dalek = "=2.2.0"
glyphon = "=0.12.0"
mlua = { version = "=0.12.2", features = ["lua54", "vendored"] }
pollster = "=1.0.1"
ropey = "=1.6.1"
self-replace = "=1.5.1"
serde = { version = "=1.0.229", features = ["derive"] }
serde_json = { version = "=1.0.154", features = ["preserve_order"] }
tree-sitter = "=0.27.1"
tree-sitter-highlight = "=0.27.1"
tree-sitter-json = "=0.24.8"
tree-sitter-rust = "=0.24.2"
tree-sitter-toml-ng = "=0.7.0"
ureq = { version = "=2.12.1", default-features = false, features = ["tls"] }
wasmtime = { version = "=44.0.3", default-features = false, features = ["cranelift", "runtime", "std"] }
wgpu = { version = "=30.0.1", default-features = false, features = ["wgsl", "vulkan"] }
winit = { version = "=0.30.13", default-features = false, features = ["rwh_06", "x11"] }
