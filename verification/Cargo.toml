[package]
name = "openqbw"
version = "0.1.0"
edition = "2021"
publish = false

[dependencies]
anyhow = "1"
clap = { version = "4", features = ["derive"] }
opensqlany = "=0.2.0"
rusqlite = { version = "*", features = ["bundled"] }
