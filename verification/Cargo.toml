[package]
name = "tyr"
version = "0.1.0"
edition = "2021"
publish = false

[dependencies]
clap = { version = "4", features = ["derive"] }
console = "*"
ctrlc = "*"
dialoguer = "*"
flate2 = "*"
indicatif = "0.17"
nodejs-semver = "*"
owo-colors = "*"
regex = "1"
serde_json = "1"
tar = "*"
termcolor = "*"
ureq = "2"
url = "2"
