[package]
name = "rspec_timing_tool"
version = "0.1.0"
edition = "2021"
publish = false

[dependencies]
failure = "0.1"
serde = { version = "1", features = ["derive"] }
serde_json = "1"
structopt = "0.3"
