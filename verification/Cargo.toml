[package]
name = "janus"
version = "0.1.0"
edition = "2021"
publish = false

[dependencies]
unicode-segmentation = "*"
serde = { version = "*", features = ["derive"] }
toml = "*"
serde_json = "*"
log = "*"
fern = "*"
syslog = "*"
hostname = "*"
dotenv = "*"
structopt = "*"
nix = { version = "*", features = ["signal"] }
failure = "*"
antidote = "*"
