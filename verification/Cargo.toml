[package]
name = "spm_ocr"
version = "0.1.0"
edition = "2021"
publish = false

[dependencies]
unicode-normalization = "0.1"
unicode-script = "0.5"
unicode-properties = "0.1"
blake3 = { version = "1", features = ["pure"] }
infer = "0.16"
memchr = "2"
content_inspector = "0.2"
serde = { version = "1", features = ["derive"] }
serde_json = "1"
serde_path_to_error = "0.1"
clap = { version = "4", features = ["derive"] }
anyhow = "1"
thiserror = "2"
indicatif = "0.17"
rayon = "1"
ignore = "0.4"
memmap2 = "0.9"
tempfile = "3"
zip = { version = "2", default-features = false, features = ["deflate"] }
tar = "0.4"
flate2 = "1"
bzip2 = "0.4"
xz2 = "0.1"
ctrlc = "3"
rand = "0.8"
rand_chacha = "0.3"
sentencepiece-model = "*"
