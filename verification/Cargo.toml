[package]
name = "spydir"
version = "0.1.0"
edition = "2021"
publish = false

[dependencies]
chrono = "=0.4.45"
clap = { version = "=4.6.7", features = ["derive"] }
md-5 = "=0.11.0"
threadpool = "=1.8.1"
exitcode = "=1.1.2"
