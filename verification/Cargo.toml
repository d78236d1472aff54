[package]
name = "alpha_checkers"
version = "0.1.0"
edition = "2021"
publish = false

[dependencies]
burn = { version = "0.20", default-features = false, features = ["ndarray", "autodiff"] }
dioxus = { version = "0.7", default-features = false, features = ["macro", "html", "signals", "hooks", "router", "launch", "document"] }
gloo-timers = { version = "*", features = ["futures"] }
serde = { version = "1", features = ["derive"] }
serde_json = "1"
tokio = { version = "1", features = ["rt", "time", "macros"] }
web-sys = { version = "*", features = ["Window", "Storage"] }
