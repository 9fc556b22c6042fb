[package]
name = "reweave"
version = "0.1.0"
edition = "2021"
publish = false

[dependencies]
serde = { version = "1", features = ["derive"] }
serde_json = "1"
serde_urlencoded = "0.7"
uuid = { version = "1", features = ["v4", "serde"] }
sqlx = { version = "0.8", default-features = false, features = ["postgres", "runtime-tokio", "uuid", "macros"] }
tokio = { version = "1", features = ["macros", "rt-multi-thread"] }
vercel_runtime = "*"
http-body-util = "0.1"
dotenvy = "0.15"
wasm-bindgen = "0.2"
serde-wasm-bindgen = "0.6"
