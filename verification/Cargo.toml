[package]
name = "apk_compare"
version = "0.1.0"
edition = "2021"
publish = false

[dependencies]
axmldecoder = "=0.5.0"
zip = { version = "=9.0.5", default-features = false, features = ["deflate"] }
gpapi = "=6.1.0"
tokio = { version = "=1.54.1", features = ["macros", "rt-multi-thread"] }
