[package]
name = "foldquery"
version = "0.1.0"
edition = "2021"
publish = false

[dependencies]
serde = { version = "=1.0.229", features = ["derive"] }
serde_json = "=1.0.154"
glam = "=0.34.2"
meshopt = "=0.7.0"
uuid = { version = "=1.29.0", features = ["v4"] }
keyring = { version = "=3.6.3", features = ["linux-native"] }
reqwest = { version = "=0.13.5", features = ["json", "stream"] }
eventsource-stream = "=0.2.3"
futures = "=0.3.34"
tokio = { version = "=1.54.1", features = ["sync"] }
async-openai = { version = "=0.43.0", features = ["chat-completion"] }
