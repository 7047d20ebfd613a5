[package]
name = "dialog"
version = "0.1.0"
edition = "2021"
publish = false

[dependencies]
nostr = { version = "0.36", default-features = false, features = ["std", "nip44"] }
nostr-sdk = "0.36"
tokio = { version = "1", features = ["rt-multi-thread", "macros", "sync", "time"] }
clap = { version = "4", features = ["derive"] }
directories = "5"
serde = { version = "1", features = ["derive"] }
serde_json = "1"
thiserror = "1"
uuid = { version = "1", features = ["v4"] }
