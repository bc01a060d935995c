[package]
name = "envdoter"
version = "0.1.0"
edition = "2021"
publish = false

[dependencies]
dirs = "*"
nebari = "0.5"
structopt = "0.3"

[dev-dependencies]
tempfile = "3"
