[package]
name = "mmlfold"
version = "0.1.0"
edition = "2021"
publish = false

[dependencies]
anyhow = "1"
clap = { version = "4", features = ["derive"] }
midly = { version = "0.5", default-features = false, features = ["alloc", "std"] }
rayon = "1"
rustysynth = "1.3"
serde = { version = "1", features = ["derive"] }
zip = { version = "*", default-features = false, features = ["deflate"] }
