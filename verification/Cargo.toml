[package]
name = "howis"
version = "0.1.0"
edition = "2021"
publish = false

[dependencies]
anyhow = "1"
clap = "4"
curl = "0.4"
wild = "2"
