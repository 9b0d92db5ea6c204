[package]
name = "raf"
version = "0.1.0"
edition = "2021"
publish = false

[dependencies]
chrono = "*"
data-encoding = "*"
log = "*"
r2d2 = "*"
r2d2_sqlite = "*"
regex = "*"
rusqlite = { version = "*", features = ["bundled"] }
simple_logger = "*"
tabular = "*"
telexide = "*"
tokio = { version = "*", features = ["macros", "rt-multi-thread", "time"] }
