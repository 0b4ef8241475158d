[package]
name = "symbios_ground"
version = "0.4.0"
edition = "2021"
publish = false

[dependencies]
rand = "0.9"
rand_pcg = "0.9"
libm = "0.2"
serde = { version = "1", features = ["derive"] }

[dev-dependencies]
serde_json = "1"
