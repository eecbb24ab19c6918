[package]
name = "coding_agent_search"
version = "0.1.0"
edition = "2021"
publish = false

[dependencies]
serde_json = "*"
chrono = "*"
dirs = "*"
directories = "*"
clap = { version = "*", features = ["derive"] }
walkdir = "*"
anyhow = "*"
serde = { version = "*", features = ["derive"] }
