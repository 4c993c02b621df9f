[package]
name = "sonixflash"
version = "0.1.0"
edition = "2021"
publish = false

[dependencies]
anyhow = "=1.0.104"
clap = { version = "=4.6.7", features = ["derive"] }
clap-verbosity-flag = "=3.0.4"
ihex = "=3.0.0"
indicatif = "=0.18.6"
log = "=0.4.34"
nu-pretty-hex = "=0.102.0"
serial2 = "=0.2.38"
serialport = { version = "=4.10.1", default-features = false }
simplelog = "=0.12.2"
structural-convert = "=0.13.0"
thiserror = "=2.0.21"
