[package]
name = "spreadsheet"
version = "0.1.0"
edition = "2021"
publish = false

[dependencies]
rustc_apfloat = "=0.2.3"
serde = { version = "=1.0.229", features = ["derive"] }
serde_json = "=1.0.154"
wasm-bindgen = { version = "=0.2.129", features = ["serde-serialize"] }
rand = "=0.8.8"
actix = "=0.13.5"
actix-web = { version = "=4.18.1", default-features = false, features = ["macros", "ws"] }
actix-web-actors = "=4.3.1"
diesel = { version = "=2.3.14", default-features = false, features = ["postgres"] }
env_logger = { version = "=0.10.2", default-features = false }
