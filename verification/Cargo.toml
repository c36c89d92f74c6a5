[package]
name = "sks_trainer"
version = "0.1.0"
edition = "2021"
publish = false

[dependencies]
anyhow = "*"
chrono = "*"
clap = { version = "*", features = ["derive"] }
colored = "*"
crossterm = "*"
directories = "*"
log = "*"
rusqlite = { version = "*", features = ["bundled"] }
rustyline = "*"
serde = { version = "*", features = ["derive"] }
serde_json = "*"
stderrlog = "*"
thiserror = "*"
