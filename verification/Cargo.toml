[package]
name = "sparse_forest"
version = "0.1.0"
edition = "2021"
publish = false

[dependencies]
hashbrown = "*"
sprs = "*"
ndarray = "*"
serde = { version = "1", features = ["derive"] }
bincode = "1"
rayon = "1"
log = "0.4"
time = "0.1"
