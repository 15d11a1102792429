[package]
name = "media_recommend"
version = "0.1.0"
edition = "2021"
publish = false

[dependencies]
clap = { version = "*", features = ["derive"] }
prettytable-rs = "*"
tokio = { version = "*", features = ["macros", "rt-multi-thread"] }
tracing-subscriber = { version = "*", features = ["env-filter"] }

[dev-dependencies]
serde_json = "*"
pathdiff = "*"
