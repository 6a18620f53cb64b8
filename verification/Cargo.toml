[package]
name = "stargate"
version = "0.1.0"
edition = "2021"
publish = false

[dependencies]
async-lock = "2"
atty = "0.2"
console = "0.15"
dirs = "3"
futures = "0.3"
http = "0.2"
quick-js = "0.4"
regex = "1"
reqwest = { version = "0.11", default-features = false, features = ["blocking", "json"] }
serde = { version = "1", features = ["derive"] }
serde_json = "1"
structopt = "0.3"
thiserror = "1"
wasm-bindgen = { version = "0.2", features = ["serde-serialize"] }
