[package]
name = "dust"
version = "0.1.0"
edition = "2021"
publish = false

[dependencies]
axum = "=0.7.9"
convert_case = "=0.6.0"
leptos = { version = "=0.6.15", features = ["ssr"] }
leptos_axum = "=0.6.15"
once_cell = "=1.21.4"
proc-macro2 = "=1.0.107"
quote = "=1.0.47"
serde = { version = "=1.0.229", features = ["derive"] }
syn = { version = "=2.0.119", features = ["full", "extra-traits"] }
tokio = { version = "=1.54.1", features = ["rt-multi-thread", "net", "macros"] }
tower = { version = "=0.4.13", features = ["util"] }
tower-http = { version = "=0.5.2", features = ["fs"] }
