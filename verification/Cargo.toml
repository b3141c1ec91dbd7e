[package]
name = "bfjit"
version = "0.1.0"
edition = "2021"
publish = false

[dependencies]
clap = { version = "3.2", features = ["derive"] }
dynasm = "2.0"
dynasmrt = "2.0"
thiserror = "1.0"
