[package]
name = "cubes"
version = "0.1.0"
edition = "2021"
publish = false

[dependencies]
libm = "=0.2.16"
microfont = "=3.9.9"
serde_json = "=1.0.154"
reqwest = { version = "=0.12.28", default-features = false }
