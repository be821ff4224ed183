[package]
name = "openfdap"
version = "0.1.0"
edition = "2021"
publish = false

[dependencies]
aargvark = { version = "=0.13.0", features = ["serde_json"] }
flowcontrol = "=0.2.3"
http = "=1.5.0"
http-body-util = "=0.1.5"
htwrap = "=0.17.0"
hyper = "=1.12.0"
loga = "=0.5.5"
schemars = "=1.2.3"
serde = { version = "=1.0.229", features = ["derive"] }
serde_json = "=1.0.154"
taskmanager = "=0.6.2"
tempfile = "=3.27.0"
tokio = { version = "=1.54.1", features = ["fs", "macros", "net", "rt-multi-thread"] }
tokio-stream = { version = "=0.1.19", features = ["net"] }
urlencoding = "=2.1.3"
