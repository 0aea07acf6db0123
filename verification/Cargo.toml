[package]
name = "red_dot_count"
version = "0.1.0"
edition = "2021"
publish = false

[dependencies]
chrono = { version = "0.4", default-features = false, features = ["std"] }
opencv = "*"
polars = { version = "*", default-features = false, features = ["csv", "dtype-datetime", "temporal"] }
structopt = "0.3"
