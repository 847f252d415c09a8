[package]
name = "uuid_remap"
version = "0.1.0"
edition = "2021"
publish = false

[dependencies]
uuid = { version = "=1.29.0", features = ["serde"] }
aho-corasick = "=1.1.5"
chardetng = "=1.0.0"
content_inspector = "=0.2.4"
infer = "=0.22.0"
quartz_nbt = { version = "=0.2.9", features = ["preserve_order"] }
mca = "=2.1.2"
fastnbt = "=2.6.3"
anyhow = "=1.0.104"
clap = { version = "=4.6.7", features = ["derive"] }
serde = { version = "=1.0.229", features = ["derive"] }
serde_json = "=1.0.154"
serde_jsonc = "=1.0.108"
walkdir = "=2.5.0"
rayon = "=1.12.0"
java-properties = "=2.0.0"
flate2 = "=1.1.10"
