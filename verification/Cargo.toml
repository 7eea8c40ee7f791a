[package]
name = "reco"
version = "0.1.0"
edition = "2021"
publish = false

[dependencies]
zip = { version = "*", default-features = false, features = ["deflate"] }
image = "*"
infer = "*"
lexical-sort = "*"
clap = { version = "*", features = ["derive"] }
glob = "*"
anyhow = "*"
ndarray = "*"
ort = { version = "=2.0.0-rc.13", default-features = false, features = ["std", "ndarray"] }
parking_lot = "*"
rayon = "*"
tracing = "*"
tracing-subscriber = "*"
