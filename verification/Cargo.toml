[package]
name = "isg"
version = "0.1.0"
edition = "2021"
publish = false

[dependencies]
anyhow = "1"
chrono = "0.4"
clap = { version = "4", features = ["derive"] }
inquire = "*"
opencv = "*"
tokio = { version = "1", features = ["macros", "rt-multi-thread"] }
youtube_dl = { version = "*", features = ["tokio", "downloader-rustls-tls"] }
