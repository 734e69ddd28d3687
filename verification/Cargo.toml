[package]
name = "dancing_links_matrix"
version = "0.1.0"
edition = "2021"
publish = false

[dependencies]
priority-queue = "*"
rand = "0.8"
clap = { version = "4", features = ["derive"] }
log = "*"
simple_logger = "*"
