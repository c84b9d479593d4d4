[package]
name = "karet_seam"
version = "0.1.0"
edition = "2021"
publish = false

[dependencies]
karet-core = "=0.7.1"
karet-treesitter = { version = "=0.7.1", features = ["lang-python", "lang-rust", "lang-swift", "lang-kotlin", "lang-typescript", "lang-javascript"] }
dependable-core = "=0.1.3"
serde = { version = "=1.0.229", features = ["derive"] }
thiserror = "=2.0.21"
rayon = "=1.12.0"

[dev-dependencies]
tempfile = "=3.27.0"
