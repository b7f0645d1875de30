[package]
name = "optirust"
version = "0.1.0"
edition = "2021"
publish = false

[dependencies]
bio = "=4.2.2"
chrono = { version = "=0.4.45", features = ["serde"] }
chrono-tz = "=0.10.4"
clap = "=2.34.0"
google-calendar3 = "=1.0.14"
hyper = "=0.10.16"
hyper-rustls = "=0.6.2"
rayon = "=1.12.0"
serde = { version = "=1.0.229", features = ["derive"] }
serde_derive = "=1.0.229"
serde_yaml = "=0.9.34"
yup-oauth2 = "=1.0.12"
