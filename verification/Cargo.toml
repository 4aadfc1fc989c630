[package]
name = "fdupe"
version = "0.1.0"
edition = "2021"
publish = false

[dependencies]
anyhow = "1"
bpaf = { version = "0.9", features = ["derive"] }
const_format = "0.2"
num_cpus = "1"
sha2 = "0.10"
