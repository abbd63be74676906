[package]
name = "pslmap"
version = "0.1.0"
edition = "2021"
publish = false

[dependencies]
pistol = "=4.0.18"
subnetwork = "=0.6.15"
chrono = "=0.4.45"
clap = { version = "=4.6.7", features = ["derive"] }
dns-lookup = "*"
