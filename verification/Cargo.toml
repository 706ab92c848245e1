[package]
name = "nix_autobahn"
version = "0.1.0"
edition = "2021"
publish = false

[dependencies]
clap = "2.33"
console = "0.11"
dialoguer = "0.6"
