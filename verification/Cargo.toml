[package]
name = "nymx"
version = "0.1.3"
edition = "2021"
publish = false

[dependencies]
anyhow = "1"
clap = { version = "4", features = ["derive"] }
hex = "0.4"
image = { version = "0.25", default-features = false, features = ["ico", "png"] }
indicatif = "0.17"
open = "5"
rand = "0.8"
ripemd = "0.2"
rpassword = "7"
serde = { version = "1", features = ["derive"] }
serde_json = "1"
ssh2 = "0.9"
tokio = { version = "1", features = ["macros", "rt-multi-thread", "sync", "time"] }
