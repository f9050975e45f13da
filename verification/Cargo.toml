[package]
name = "bahmod"
version = "0.1.0"
edition = "2021"
publish = false

[dependencies]
jni = "0.19"
lazy_static = "1.4"
num_cpus = "1"
rayon = "1"
reqwest = { version = "0.11", default-features = false, features = ["blocking", "rustls-tls"] }
serde = { version = "1", features = ["derive"] }
serde_json = "1"
simd-json = "0.13"
snmalloc-rs = { version = "0.3", features = ["build_cc"] }
