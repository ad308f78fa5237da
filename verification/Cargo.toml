[package]
name = "jstd"
version = "0.1.0"
edition = "2021"
publish = false

[dependencies]
image = { version = "0.25", default-features = false, features = ["png"] }
proc-macro2 = "1"
quote = "1"
rustc-hash = "2"
serde = { version = "1", features = ["derive"] }
syn = { version = "2", features = ["full"] }

[dev-dependencies]
bincode = { version = "2", features = ["serde"] }
