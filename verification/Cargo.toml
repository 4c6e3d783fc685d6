[package]
name = "xc_ccm_hp"
version = "0.1.0"
edition = "2021"
publish = false

[dependencies]
rug = { version = "1", features = ["float"] }
serde = { version = "1", features = ["derive"] }
serde_json = "1"
anyhow = "1"
rayon = "1"
zip = { version = "2", default-features = false, features = ["deflate"] }
