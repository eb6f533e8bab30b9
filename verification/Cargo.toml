[package]
name = "shamir_sharing"
version = "0.1.0"
edition = "2021"
publish = false

[dependencies]
rand = "=0.8.8"
serde = { version = "=1.0.229", features = ["derive"] }
serde_json = "=1.0.154"
tokio = { version = "=1.54.1", features = ["macros", "rt-multi-thread"] }
vercel_runtime = "=1.1.6"

[dev-dependencies]
gf256 = { version = "=0.3.1", features = ["shamir", "thread-rng"] }
