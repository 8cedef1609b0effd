[package]
name = "tantivy"
version = "0.1.0"
edition = "2021"
publish = false

[dependencies]
bincode = "1.3"
fst = "0.4"
itertools = "*"
lz4 = "1"
regex = "1"
serde = { version = "1", features = ["derive"] }
