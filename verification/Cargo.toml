[package]
name = "pyspector_core"
version = "0.1.0"
edition = "2021"
publish = false

[dependencies]
regex = "1"
wildmatch = "2"
sha1 = "0.10"
serde = { version = "1", features = ["derive"] }
serde_json = "1"
serde_regex = "1"
toml = "0.8"
walkdir = "2"
rayon = "1"
pyo3 = "0.21"
