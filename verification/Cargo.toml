[package]
name = "protein_graph"
version = "0.1.0"
edition = "2021"
publish = false

[dependencies]
axum = "0.6"
neo4rs = "0.6"
tokio = { version = "1", features = ["macros", "rt-multi-thread", "sync"] }
serde = { version = "1", features = ["derive"] }
serde_json = "1"
tower-http = { version = "0.4", features = ["cors"] }
log = "0.4"
env_logger = "0.10"
