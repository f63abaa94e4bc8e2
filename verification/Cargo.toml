[package]
name = "rustify_app"
version = "0.1.0"
edition = "2021"
publish = false

[dependencies]
rust_decimal = "=1.43.0"
serde = { version = "=1.0.229", features = ["derive"] }
leptos = { version = "=0.8.23", features = ["ssr"] }
leptos_axum = "=0.8.10"
axum = "=0.8.9"
tokio = { version = "=1.54.1", features = ["rt-multi-thread", "macros", "net"] }
sqlx = { version = "=0.9.0", default-features = false, features = ["sqlite", "runtime-tokio", "time"] }
tower-sessions = "=0.15.0"
tower-sessions-core = "=0.15.0"
rmp-serde = "*"
time = { version = "=0.3.55", features = ["serde", "formatting", "parsing"] }
thiserror = "=2.0.21"

[dev-dependencies]
regex = "=1.13.1"
