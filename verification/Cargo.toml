[package]
name = "gtfsrealtime"
version = "0.1.0"
edition = "2021"
publish = false

[dependencies]
prost = { version = "0.14", default-features = false, features = ["std"] }
bytes = "1"
flate2 = "1"
bzip2 = "*"
zip = "*"
ureq = "3"
extendr-api = "*"
