[package]
name = "tar"
version = "0.4.0"
edition = "2021"
publish = false

[dependencies]
anyhow = "1"
arbitrary = { version = "1", features = ["derive"] }
cap-std = "3"
clap = { version = "4", features = ["derive"] }
filetime = "0.2"
libc = "0.2"
rand = "0.8"
tar-core = "*"
tempfile = "3"
tokio = { version = "1", features = ["io-util"] }
xattr = "1"
xshell = "0.2"
