[package]
name = "termleaf"
version = "0.1.0"
edition = "2021"
publish = false

[dependencies]
unicode-width = "=0.2.3"
unicode-segmentation = "=1.13.3"
unicode-linebreak = "=0.1.5"
encoding_rs = "=0.8.44"
base64 = "=0.22.1"
image = { version = "=0.25.10", default-features = false, features = ["png", "jpeg", "gif", "webp", "bmp", "ico", "tiff", "pnm", "tga", "qoi", "dds", "exr", "hdr", "ff"] }
flate2 = "=1.1.10"
zip = { version = "=9.2.2", default-features = false, features = ["deflate"] }
quick-xml = "=0.42.0"
pulldown-cmark = "=0.13.6"
scraper = "=0.29.0"
ego-tree = "=0.11.1"
crossterm = "=0.29.0"
ratatui = "=0.30.2"
clap = { version = "=4.6.7", features = ["derive"] }
ctrlc = "=3.5.2"
directories = "=6.0.0"
toml = "=1.1.8"
serde = { version = "=1.0.229", features = ["derive"] }
anyhow = "=1.0.104"
thiserror = "=2.0.21"
resvg = "*"
rbook = "*"
