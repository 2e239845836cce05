[package]
name = "minbup"
version = "0.1.0"
edition = "2021"
publish = false

[dependencies]
age = "0.10"
anyhow = "1"
blake3 = "1"
camino = "1"
clap = { version = "4", features = ["derive"] }
crossbeam-channel = "0.5"
crossterm = "0.28"
ctrlc = "3"
humansize = "2"
ignore = "0.4"
num_cpus = "1"
ratatui = "0.29"
rpassword = "7"
serde = { version = "1", features = ["derive"] }
tar = "0.4"
thiserror = "1"
time = { version = "0.3", features = ["formatting", "macros"] }
toml = "0.8"
tracing = "0.1"
tracing-subscriber = { version = "0.3", features = ["env-filter"] }
zstd = { version = "0.13", features = ["zstdmt"] }
