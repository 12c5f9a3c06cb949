[package]
name = "lilium_sumcheck"
version = "0.1.0"
edition = "2021"
publish = false

[dependencies]
ark-ff = "0.4"
ark-vesta = "0.4"

[dev-dependencies]
rand = "0.8"
ark-poly = "0.4"
