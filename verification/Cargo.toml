[package]
name = "lindera_dictionary"
version = "0.1.0"
edition = "2021"
publish = false

[dependencies]
anyhow = "=1.0.104"
crawdad = "=0.4.1"
csv = "=1.4.0"
encoding_rs = "=0.8.44"
flate2 = "=1.1.10"
rayon = "=1.12.0"
serde = { version = "=1.0.229", features = ["derive"] }
serde_json = "=1.0.154"
yada = "=0.7.0"
daachorse = "=5.1.0"
glob = "0.3"
md5 = "0.7"
rand = { version = "0.8", features = ["small_rng"] }
tar = "0.4"
tokio = { version = "1", features = ["time"] }
reqwest = { version = "0.12", default-features = false }
rkyv = "0.8"
