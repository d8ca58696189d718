[package]
name = "hips"
version = "0.1.0"
edition = "2021"
publish = false

[dependencies]
anyhow = "1"
axum = "0.7"
clap = { version = "4", features = ["derive"] }
libc = "0.2"
libloading = "0.8"
memmap2 = "0.9"
rayon = "1"
serde = { version = "1", features = ["derive"] }
serde_json = "1"
sha2 = "0.10"
simd-json = "*"
tempfile = "3"
tokio = { version = "1", features = ["rt-multi-thread", "net", "macros"] }
tree-sitter = "*"
tree-sitter-language = "*"
ureq = "2"
