[package]
name = "feox_server"
version = "0.1.0"
edition = "2021"
publish = false

[dependencies]
anyhow = "*"
bytes = "*"
clap = { version = "*", features = ["derive"] }
crossbeam-channel = "*"
ctrlc = "*"
dashmap = "*"
feoxdb = "*"
itoa = "*"
mio = { version = "*", features = ["os-poll", "net"] }
num_cpus = "*"
once_cell = "*"
tracing = "*"
tracing-subscriber = { version = "*", features = ["env-filter", "fmt"] }
