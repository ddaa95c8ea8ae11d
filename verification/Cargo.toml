[package]
name = "sd_req"
version = "0.3.0"
edition = "2021"
publish = false

[dependencies]
unicode-segmentation = "1"
chrono = "0.4"
rand = "0.9"
rand_distr = "0.5"
urlencoding = "2"
base64 = "0.22"
sanitize-filename = "0.6"
serde_json = "1"
lazy_static = "1"
close-file = "0.1"
reqwest = { version = "0.12", default-features = false, features = ["blocking", "json", "cookies", "multipart"] }
