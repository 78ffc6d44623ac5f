[package]
name = "nested_router"
version = "0.1.0"
edition = "2021"
publish = false

[dependencies]
regex = "=1.13.1"
url = "=2.5.8"
either_of = "=0.1.9"
reactive_graph = { version = "=0.1.8", features = ["effects"] }
tachys = "=0.1.9"
leptos = { version = "=0.6.15", features = ["nonce", "ssr"] }
leptos_config = "=0.6.15"
leptos_meta = { version = "=0.6.15", features = ["ssr"] }
leptos_hot_reload = "=0.6.15"
serde_qs = "=0.12.0"
futures = "=0.3.34"
