[package]
name = "structured_json_pipeline"
version = "0.1.0"
edition = "2021"
publish = false

[dependencies]
regex = "1"
serde = { version = "1", features = ["derive"] }
serde_json = "1"
anyhow = "1"
gline-rs = "*"
orp = "*"
ort = "2.0.0-rc.9"
ndarray = "*"
tokenizers = "*"
llama-cpp-2 = "*"
encoding_rs = "*"
num_cpus = "*"
wasm-bindgen = "*"
