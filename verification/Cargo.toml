[package]
name = "gdn_gis"
version = "0.1.0"
edition = "2021"
publish = false

[dependencies]
regex = "1"
rayon = "1"
serde = { version = "1", features = ["derive"] }
serde_json = "1"
toml = "*"
flate2 = "1"
osmpbf = "*"
zip = { version = "*", default-features = false, features = ["aes-crypto", "deflate"] }
arrow = { version = "*", default-features = false }
parquet = { version = "*", default-features = false, features = ["arrow", "zstd"] }
