[package]
name = "fontcull"
version = "0.1.0"
edition = "2021"
publish = false

[dependencies]
chromiumoxide = "*"
clap = { version = "4", features = ["derive"] }
color-eyre = "0.6"
fontcull-klippa = "*"
fontcull-read-fonts = "*"
fontcull-skrifa = "*"
fontcull-write-fonts = "*"
futures = "0.3"
glob = "0.3"
scraper = "*"
serde_json = "1"
tokio = { version = "1", features = ["macros", "rt-multi-thread"] }
tracing = "0.1"
tracing-subscriber = { version = "0.3", features = ["env-filter"] }
woff = "*"
woofwoof = "*"
