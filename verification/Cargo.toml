[package]
name = "sideromelane"
version = "0.1.0"
edition = "2021"
publish = false

[dependencies]
serde = { version = "1", features = ["derive"] }
serde_json = "1"
dirs = "6"
ignore = "0.4"
notify = "8"
notify-debouncer-mini = "0.6"
petgraph = "0.8"
