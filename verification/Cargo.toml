[package]
name = "cinnamon"
version = "0.1.0"
edition = "2021"
publish = false

[dependencies]
failure = "0.1"
nom = "3"
structopt = "0.2"
structopt-derive = "0.2"
