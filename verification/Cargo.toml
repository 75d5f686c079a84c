[package]
name = "pkgm"
version = "0.1.0"
edition = "2021"
publish = false

[dependencies]
semver = "1"
serde = { version = "1", features = ["derive"] }
serde_json = "1"
anyhow = "1"
clap = { version = "4", features = ["derive"] }
env_logger = "0.11"
log = "0.4"
flate2 = "1"
tar = "0.4"
fs2 = "0.4"
tempfile = "3"
libc = "0.2"
regex = "1"
reqwest = { version = "0.12", default-features = false, features = ["blocking", "rustls-tls"] }
webpki-roots = "0.26"
