[package]
name = "cargo_fuzz_core"
version = "0.1.0"
edition = "2021"
publish = false

[dependencies]
addr2line = { version = "0.24", features = ["loader"] }
anyhow = "1"
cargo_metadata = "0.18"
clap = { version = "4", features = ["derive"] }
iced-x86 = "1"
num_cpus = "1"
object = "0.36"
petgraph = "0.6"
rand = "0.8"
rayon = "1"
rustc-demangle = "0.1"
rustc_version = "0.4"
serde_json = "1"
tempfile = "3"
toml = "0.5"
