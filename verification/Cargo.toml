[package]
name = "tracium"
version = "0.1.0"
edition = "2021"
publish = false

[dependencies]
serde_json = "=1.0.154"
serde = { version = "=1.0.229", features = ["derive"] }
clap = { version = "=4.6.7", features = ["derive"] }
dirs = "=5.0.1"
tokio = { version = "=1.54.1", features = ["full"] }
sqlx = { version = "=0.8.6", default-features = false, features = ["runtime-tokio", "sqlite", "migrate"] }
hickory-resolver = "=0.24.4"
netdev = "=0.31.0"
sysinfo = { version = "=0.31.4", default-features = false, features = ["network"] }
csnmp = "=0.6.0"
printpdf = { version = "=0.7.0", default-features = false }
ureq = "=2.12.1"
terminal_size = "0.4"
