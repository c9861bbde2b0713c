[package]
name = "sheet_translate"
version = "0.1.0"
edition = "2021"
publish = false

[dependencies]
tiktoken-rs = "0.4"
calamine = "0.19"
clap = { version = "4", features = ["derive", "env"] }
color-eyre = "0.6"
indicatif = "0.17"
reqwest = { version = "0.11", features = ["json"] }
serde = { version = "1", features = ["derive"] }
tokio = { version = "1", features = ["macros", "rt-multi-thread", "sync", "time"] }
xlsxwriter = "0.6"
