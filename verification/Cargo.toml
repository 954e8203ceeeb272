[package]
name = "archiv_agent"
version = "0.1.0"
edition = "2021"
publish = false

[dependencies]
arc-swap = "1"
async-channel = "2"
bytes = "1"
http-body-util = "0.1"
hyper = { version = "1", features = ["client", "http1", "http2", "server"] }
hyper-rustls = { version = "0.27", default-features = false, features = ["http1", "native-tokio", "ring", "tls12", "webpki-tokio"] }
hyper-util = { version = "0.1", features = ["client", "client-legacy", "http1", "http2", "server", "server-graceful", "service", "tokio"] }
regex = "1"
rustls = { version = "0.23", default-features = false, features = ["ring", "std", "tls12"] }
serde = { version = "1", features = ["derive"] }
serde_norway = "0.9"
smallvec = "1"
thiserror = "2"
tokio = { version = "1", features = ["fs", "io-util", "macros", "net", "rt-multi-thread", "signal", "sync", "time"] }
tracing = "0.1"
tracing-subscriber = { version = "0.3", features = ["env-filter", "fmt"] }
xxhash-rust = { version = "0.8", features = ["xxh64"] }

[dev-dependencies]
serde_json = "1"
