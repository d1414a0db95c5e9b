[package]
name = "astronomer"
version = "0.1.0"
edition = "2021"
publish = false

[dependencies]
serde = { version = "*", features = ["derive"] }
serde_json = "*"
reqwest = { version = "*", default-features = false, features = ["json"] }
actix-web = { version = "*", default-features = false, features = ["macros"] }
actix-files = "*"
derive_more = { version = "*", features = ["display"] }
env_logger = "*"
log = "*"
mime = "*"
tokio = { version = "*", features = ["sync"] }
wasm-bindgen = "*"
serde-wasm-bindgen = "*"
web-sys = { version = "*", features = ["console"] }
