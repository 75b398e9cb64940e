[package]
name = "vcf_prepper"
version = "0.1.0"
edition = "2021"
publish = false

[dependencies]
serde_json = "1"
flate2 = "1"
vcf = "*"
