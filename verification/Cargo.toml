[package]
name = "pdb_atoms"
version = "0.1.0"
edition = "2021"
publish = false

[dependencies]
clap = { version = "4", features = ["derive"] }
reqwest = "*"
tokio = { version = "1", features = ["fs", "io-util", "macros", "rt-multi-thread"] }
