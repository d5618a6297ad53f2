[package]
name = "canteen"
version = "0.1.0"
edition = "2021"
publish = false

[dependencies]
regex = "1"
mio = { version = "1", features = ["os-poll", "net"] }
threadpool = "1"
postgres = { version = "0.19", features = ["with-chrono-0_4"] }
chrono = "0.4"
rustc-serialize = "0.3"
