[package]
name = "lora_link"
version = "0.1.0"
edition = "2021"
publish = false

[dependencies]
anyhow = "=1.0.104"
crossbeam-channel = "=0.5.17"
futuresdr = "=0.0.41"
rand = "=0.10.3"
rand_distr = "=0.6.0"
tokio = { version = "=1.54.1", features = ["rt", "rt-multi-thread", "net", "time", "macros"] }
