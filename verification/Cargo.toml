[package]
name = "pdf_extractor"
version = "0.1.0"
edition = "2021"
publish = false

[dependencies]
flate2 = "=1.1.10"
log = "=0.4.35"
lopdf = { version = "=0.39.0", default-features = false }
png = "=0.18.1"
