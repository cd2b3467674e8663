[package]
name = "xml_disassembler"
version = "0.1.0"
edition = "2021"
publish = false

[dependencies]
sha2 = "=0.11.0"
serde_json = { version = "=1.0.151", features = ["preserve_order"] }
serde_yaml = "=0.9.34"
json5 = "=1.3.1"
toml = "=1.1.7"
tokio = { version = "=1.53.2", features = ["full"] }
ignore = "=0.4.33"
log = "=0.4.34"
env_logger = "=0.11.11"
