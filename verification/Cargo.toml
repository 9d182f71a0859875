[package]
name = "raise_engine"
version = "0.1.0"
edition = "2021"
publish = false

[dependencies]
rand = "=0.8.8"
serde = { version = "1", features = ["derive"] }
serde_json = "1"
anyhow = "1"
chrono = "=0.4.45"
dotenv = "=0.15.0"
jsonwebtoken = "=9.3.1"
rocket = { version = "=0.5.2", features = ["json"] }
rocket_cors = "=0.6.0"
yew = { version = "=0.22.0", features = ["csr"] }
yew-websocket = "=1.22.0"
wasm-bindgen-futures = "0.4"
wasm-logger = "=0.2.0"
web-sys = { version = "0.3", features = ["console", "HtmlInputElement"] }
