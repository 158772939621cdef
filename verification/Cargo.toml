[package]
name = "hantemcli"
version = "0.1.0"
edition = "2021"
publish = false

[dependencies]
config = "0.11"
handlebars = "3"
structopt = "0.3"
toml = "0.5"
walkdir = "2"
