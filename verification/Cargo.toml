[package]
name = "bazel-execlog-cmp"
version = "0.1.0"
edition = "2021"
publish = false

[dependencies]
color-eyre = "=0.5.11"
fuzzy-matcher = "=0.3.7"
indicatif = "=0.17.11"
prettydiff = { version = "=0.4.0", default-features = false }
rayon = "=1.12.0"
rustyline = "=8.2.0"
serde-aux = "=2.3.0"
serde_json = "=1.0.154"
