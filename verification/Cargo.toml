[package]
name = "blaze_keys"
version = "0.1.0"
edition = "2021"
publish = false

[dependencies]
anyhow = "*"
box_drawing = "*"
clap = { version = "*", features = ["derive"] }
colored = "*"
glob = "*"
libc = "*"
serde = { version = "*", features = ["derive"] }
serde_yml = "*"
shellexpand = "*"
termion = "*"
