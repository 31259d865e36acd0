[package]
name = "mtag"
version = "0.1.0"
edition = "2021"
publish = false

[dependencies]
anyhow = "1"
clap = { version = "4", features = ["derive"] }
id3 = "1"
metaflac = "0.2"
mime_guess = "2"
