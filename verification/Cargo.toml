[package]
name = "tile_clipper"
version = "0.1.0"
edition = "2021"
publish = false

[dependencies]
aws-config = { version = "1", default-features = false, features = ["behavior-version-latest", "credentials-process", "default-https-client", "rt-tokio"] }
aws-sdk-s3 = { version = "1", default-features = false, features = ["behavior-version-latest", "default-https-client", "rt-tokio"] }
clap = { version = "4", features = ["derive"] }
crc32fast = "1"
flate2 = { version = "1", default-features = false, features = ["zlib-rs"] }
futures = "0.3"
geo = { version = "*", default-features = false }
geojson = "0.24"
indicatif = "0.17"
md5 = "0.7"
reqwest = { version = "0.12", default-features = false, features = ["rustls-tls-webpki-roots-no-provider"] }
rustls = { version = "0.23", default-features = false, features = ["aws_lc_rs", "std", "tls12"] }
s2 = { version = "*", default-features = false }
serde_json = "1"
tokio = { version = "1", features = ["full"] }
tracing-subscriber = { version = "0.3", features = ["env-filter"] }
zip = { version = "*", default-features = false, features = ["deflate-flate2-zlib-rs", "zstd"] }
zstd = "0.13"
