[package]
name = "gif_caption"
version = "0.1.0"
edition = "2021"
publish = false

[dependencies]
image = { version = "*", default-features = false, features = ["gif"] }
gif = "*"
rusttype = "*"
hyper = { version = "*", features = ["full"] }
hyper-util = { version = "*", features = ["full"] }
http-body-util = "*"
tokio = { version = "*", features = ["full"] }
url = "*"
