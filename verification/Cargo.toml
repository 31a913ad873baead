[package]
name = "callisto_interpreter"
version = "0.1.0"
edition = "2021"
publish = false

[dependencies]
anyhow = "1"
clap = { version = "4", features = ["derive"] }
logos = "0.14"
midly = { version = "0.5", default-features = false, features = ["alloc", "std"] }
thiserror = "1"
