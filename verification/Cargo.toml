[package]
name = "bikebalance"
version = "0.1.0"
edition = "2021"
publish = false

[dependencies]
chrono = "=0.4.45"
kml = "=0.15.0"
