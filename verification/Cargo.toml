[package]
name = "npm_tarball"
version = "0.1.0"
edition = "2021"
publish = false

[dependencies]
anyhow = "1"
base64 = "0.22"
deno_ast = { version = "0.34", features = ["view"] }
deno_graph = "0.69"
deno_semver = "0.5"
flate2 = "=1.1.10"
futures = "0.3"
indexmap = { version = "=2.11.1", features = ["serde"] }
serde = { version = "=1.0.203", features = ["derive"] }
serde_json = "=1.0.143"
sha1 = "=0.10.7"
sha2 = "=0.10.9"
tar = "=0.4.46"
tracing = "0.1"
url = "=2.5.8"
