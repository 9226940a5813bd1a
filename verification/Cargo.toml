[package]
name = "anytomd_html"
version = "0.1.0"
edition = "2021"
publish = false

[dependencies]
scraper = "*"
ego-tree = "*"
thiserror = "*"
zip = { version = "*", default-features = false, features = ["deflate"] }
quick-xml = "*"
calamine = "*"
