[package]
name = "gitpow"
version = "0.1.0"
edition = "2021"
publish = false

[dependencies]
anyhow = "1"
git2 = { version = "0.19", default-features = false }
num_cpus = "1"
sha1 = "0.10"
structopt = "0.3"
