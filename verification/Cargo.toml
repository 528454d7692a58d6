[package]
name = "elm_json"
version = "0.2.0"
edition = "2021"
publish = false

[dependencies]
indexmap = "2"
petgraph = "0.6"
itertools = "0.10"
serde = { version = "1", features = ["derive"] }
serde_json = "1"
anyhow = "1"
thiserror = "1"
clap = "2"
colored = "2"
console = "0.15"
ctrlc = "3"
dialoguer = "0.10"
dirs = "5"
fs2 = "0.4"
bincode = "1"
isahc = "1"
textwrap = "0.16"
tracing = "0.1"
tracing-subscriber = "0.3"
