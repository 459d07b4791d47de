[package]
name = "surroundfold"
version = "0.1.0"
edition = "2021"
publish = false

[dependencies]
audioadapter-buffers = "=5.2.0"
clap = { version = "4", features = ["derive"] }
ctrlc = { version = "3", features = ["termination"] }
hound = "3.5"
log = "0.4"
nix = { version = "=0.31.3", features = ["process", "signal"] }
realfft = "3"
rubato = "=5.0.1"
rustfft = "6"
serde = { version = "1", features = ["derive"] }
serde_json = "1"
sofar = "=0.4.0"
tempfile = "3"
thiserror = "2"
truehd = "=0.4.0"

[lints.rust]
unexpected_cfgs = "allow"
