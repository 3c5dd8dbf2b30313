[package]
name = "emailbook"
version = "0.3.0"
edition = "2021"
publish = false

[dependencies]
base64 = "0.22"
encoding_rs = "0.8"
clap = { version = "4", features = ["derive"] }
clap_complete = "4"
directories = "5"
