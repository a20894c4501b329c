[package]
name = "binary2hex"
version = "0.1.0"
edition = "2021"
publish = false

[dependencies]
chrono = "=0.4.45"
rusqlite = "=0.28.0"
single-instance = "=0.3.3"
# Not used by name: teloxide-core needs it, and 0.1.2 asks for a newer compiler than this one.
takecell = "=0.1.1"
teloxide = { version = "=0.10.1", features = ["macros", "auto-send"] }
tokio = { version = "=1.54.1", features = ["rt-multi-thread", "macros"] }
