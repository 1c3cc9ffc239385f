[package]
name = "codeowners"
version = "0.1.0"
edition = "2021"
publish = false

[dependencies]
anyhow = "1"
clap = { version = "4", features = ["derive"] }
codeowners-rs = "*"
itertools = "*"
rayon = "1"
serde = { version = "1", features = ["derive"] }
tabled = "*"
