[package]
name = "gpwgen"
version = "0.1.0"
edition = "2021"
publish = false

[dependencies]
anyhow = "1"
byteorder = "1"
clap = { version = "4", features = ["derive"] }
geo = { version = "*", default-features = false }
h3o = { version = "*", features = ["geo"] }
hextree = "*"
hyper = { version = "0.14", features = ["server", "http1", "tcp"] }
indicatif = "0.17"
rayon = "1"
tokio = { version = "1", features = ["macros", "rt-multi-thread"] }
