[package]
name = "tehuti"
version = "0.1.0"
edition = "2021"
publish = false

[dependencies]
chrono = "=0.4.45"
crossterm = "=0.29.0"
flume = "=0.12.0"
leb128 = "=0.2.7"
postcard = { version = "=1.1.3", features = ["alloc", "use-std"] }
rand = "=0.10.3"
rust_decimal = "=1.43.0"
serde = { version = "=1.0.229", features = ["derive"] }
textwrap = "=0.16.4"
tracing = "=0.1.44"
tracing-subscriber = { version = "=0.3.23", features = ["json"] }
typid = "=1.1.2"
vek = "=0.17.2"
