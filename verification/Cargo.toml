[package]
name = "ncsum"
version = "0.1.0"
edition = "2021"
publish = false

[dependencies]
md5 = "*"
clap = { version = "4", features = ["derive"] }

[dev-dependencies]
cpio = "*"
serde_json = "1"
