[package]
name = "mucap"
version = "0.1.0"
edition = "2021"
publish = false

[dependencies]
midly = { version = "=0.5.3", default-features = false, features = ["alloc", "std"] }
anyhow = "1"
arboard = { version = "3", default-features = false }
tempfile = "3"
directories = "6"
miniserde = "0.1"
rand = "0.9"
rand_distr = "0.5"
