[package]
name = "search_engine_rust"
version = "0.1.0"
edition = "2021"
publish = false

[dependencies]
md5 = "0.7"
serde = { version = "1", features = ["derive"] }
serde_json = "1"
bincode = "1"
memmap2 = "0.9"
url = "2"
scraper = "0.19"
quick-xml = "0.31"
flate2 = "1"
bzip2 = "0.4"
osmpbf = "0.3"
zip = { version = "2", default-features = false, features = ["deflate"] }
