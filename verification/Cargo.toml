[package]
name = "openlake"
version = "0.1.0"
edition = "2021"
publish = false

[dependencies]
anyhow = "=1.0.104"
async-trait = "=0.1.92"
bytes = "=1.12.1"
clap = { version = "=4.6.7", features = ["derive"] }
compio = { version = "=0.19.2", features = ["io", "macros", "net", "time"] }
futures = "=0.3.34"
serde = { version = "=1.0.229", features = ["derive"] }
toml = "=0.8.23"
