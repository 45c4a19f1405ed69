[package]
name = "m3trans"
version = "0.1.0"
edition = "2021"
publish = false

[dependencies]
glob = "*"
percent-encoding = "*"
plist = "*"
serde = { version = "*", features = ["derive"] }
structopt = "*"
m3u = "*"
log = "*"
simplelog = "*"
path-slash = "*"
