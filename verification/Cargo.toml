[package]
name = "checkdigits"
version = "0.1.0"
edition = "2021"
publish = false

[dependencies]
sha1 = "0.10"
rand_pcg = "0.3"
rand_seeder = "0.2"
serde = { version = "1", features = ["derive"] }
serde_json = "1"
num_cpus = "1"
