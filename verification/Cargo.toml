[package]
name = "zond_engine"
version = "0.1.0"
edition = "2021"
publish = false

[dependencies]
mac_oui = { version = "=0.4.11", features = ["with-db"] }
thiserror = "=2.0.21"
