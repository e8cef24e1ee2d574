[package]
name = "pjd_split"
version = "0.1.0"
edition = "2021"
publish = false

[dependencies]
clap = { version = "3", features = ["derive"] }
html-escape = "0.2"
xmltree = "0.10"
