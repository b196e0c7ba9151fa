[package]
name = "anon_relay"
version = "0.1.0"
edition = "2021"
publish = false

[dependencies]
teloxide = { version = "*", features = ["macros"] }
tokio = { version = "*", features = ["macros", "rt-multi-thread"] }
redis = "*"
dotenv = "*"
dptree = "*"
log = "*"
pretty_env_logger = "*"
takecell = "=0.1.1"
