[package]
name = "rune"
version = "0.1.0"
edition = "2021"
publish = false

[dependencies]
shlex = "=1.3.0"
unicode-width = "=0.2.3"
clap = { version = "=4.6.7", features = ["derive"] }
colored = "=2.2.0"
term_size = "=0.3.2"
tokio = { version = "=1.54.1", features = ["rt-multi-thread", "sync", "macros"] }
tokio-util = "=0.7.20"
async-channel = "=2.5.0"
async-trait = "=0.1.92"
anyhow = "=1.0.104"
log = "=0.4.35"
sea-orm-migration = { version = "1.1", default-features = false }
