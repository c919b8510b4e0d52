[package]
name = "derivers"
version = "0.1.0"
edition = "2021"
publish = false

[dependencies]
chrono = "0.4"
clap = { version = "4", features = ["derive"] }
csv = "1"
directories = "*"
fitparser = "*"
flate2 = "1"
font-loader = "0.11"
geo = "*"
geo-types = "0.7"
gpx = "*"
http_req = "*"
image = "0.23"
imageproc = "0.22"
indicatif = { version = "0.17", features = ["rayon"] }
lazy_static = "1"
libc = "0.2"
rayon = "1"
regex = "1"
rusttype = "0.9"
sha2 = "0.10"
time = "0.3"
