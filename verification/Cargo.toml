[package]
name = "docq"
version = "0.1.0"
edition = "2021"
publish = false

[dependencies]
tokenizers = { version = "*", default-features = false, features = ["onig"] }
sha2 = "*"
glob = "*"
quick-xml = "*"
zip = { version = "*", default-features = false, features = ["deflate"] }
chrono = "*"
rusqlite = { version = "*", features = ["bundled"] }
sqlite-vec = "*"
walkdir = "*"
clap = { version = "*", features = ["derive"] }
serde = { version = "*", features = ["derive"] }
serde_json = "*"
tokio = { version = "*", features = ["rt-multi-thread", "macros"] }
anyhow = "*"
thiserror = "*"
dirs = "*"
hf-hub = { version = "*", default-features = false, features = ["ureq"] }
async-trait = "*"
encoding_rs = "*"
llama-cpp-2 = "*"
jieba-rs = "*"
toml = "*"
