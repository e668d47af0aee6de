[package]
name = "mwkb"
version = "0.1.0"
edition = "2021"
publish = false

[dependencies]
parse_wiki_text = "=0.1.5"
url = "=2.5.8"
serde = { version = "=1.0.229", features = ["derive"] }
serde_json = "=1.0.151"
csv = "=1.4.0"
glob = "=0.3.4"
reqwest = { version = "=0.13.5", default-features = false, features = ["blocking", "query"] }
indicatif = "=0.18.6"
